use vstd::prelude::*;

pub mod decimal;
pub mod input;
pub mod map;
pub mod quadtree;
mod rng;
pub mod svg;
pub mod text;

verus! {

use crate::input::Input;
use crate::map::{Position, TrailMap};
use crate::quadtree::Leaf;
use crate::svg::Svg;

/// Digit characters are the only values a finished grid may hold.
pub open spec fn is_digit_char(c: char) -> bool {
    '0' <= c && c <= '9'
}

pub fn digit_to_char(d: u32) -> (c: char)
    requires
        d <= 9,
    ensures
        is_digit_char(c),
        c as u32 == d + 48,
        c == crate::decimal::digit_char(d as nat),
{
    (d + 48) as u8 as char
}

/// One full generation run, stage by stage: `root` is the generated
/// partition of the square canvas, `points` the start points sampled from
/// its leaves, `overlays` the committed-or-empty carving of one trail per
/// start point over the fresh all-unset grid, `carved` that grid after
/// carving, `filled` the carved grid with every gap a digit, and `m` the
/// map whose cells are exactly the filled grid's digit values.
pub open spec fn generated_from(
    canvas_size: usize,
    min_leaf_size: usize,
    density: u8,
    root: Leaf,
    points: Seq<Position>,
    inp: Input,
    overlays: Seq<Seq<Position>>,
    carved: Seq<char>,
    filled: Seq<char>,
    m: TrailMap,
) -> bool {
    let unset = Seq::new((canvas_size * canvas_size) as nat, |i: int| '.');
    &&& root.x == 0 && root.y == 0
    &&& root.width == canvas_size && root.height == canvas_size
    &&& root.min_size == min_leaf_size && root.depth == 0
    &&& crate::quadtree::well_split(root)
    &&& points.len() == density * crate::quadtree::leaves_of(root).len()
    &&& forall|li: int, d: int|
        0 <= li < crate::quadtree::leaves_of(root).len() && 0 <= d < density
            ==> crate::quadtree::in_region(crate::quadtree::leaves_of(root)[li],
                #[trigger] points[li * density + d])
    &&& inp.width == canvas_size && inp.height == canvas_size
    &&& overlays.len() == points.len()
    &&& forall|k: int| 0 <= k < overlays.len() ==> (#[trigger] overlays[k]).len() == 0
        || inp.committed_trail(
            crate::input::overlay_trails(unset, canvas_size as int, overlays.take(k)),
            overlays[k], points[k])
    &&& carved == crate::input::overlay_trails(unset, canvas_size as int, overlays)
    &&& (canvas_size * canvas_size >= 10 && points.len() >= 1 ==> overlays[0].len() == 10)
    &&& filled.len() == carved.len()
    &&& forall|i: int| 0 <= i < filled.len() ==> is_digit_char(#[trigger] filled[i])
    &&& forall|i: int| 0 <= i < filled.len() && carved[i] != '.'
        ==> #[trigger] filled[i] == carved[i]
    &&& m.width == canvas_size && m.height == canvas_size
    &&& m.map@.len() == filled.len()
    &&& forall|i: int| 0 <= i < m.map@.len()
        ==> #[trigger] m.map@[i] == crate::text::digit_val(filled[i])
}

/// Generate one trail map image from a seed: partition the canvas, carve
/// digit trails from the sampled start points, fill the gaps, enumerate
/// every complete trail of the finished grid, and draw them.  The result is
/// the vector document of a well-formed `canvas_size` square map whose
/// trailheads are exactly its zero cells and whose drawn paths are exactly
/// the search's full result, every one a complete trail.
pub fn create(seed: &String, canvas_size: usize, min_leaf_size: usize, density: u8) -> (r: String)
    requires
        canvas_size >= 1,
        min_leaf_size >= 1,
        canvas_size * canvas_size <= usize::MAX,
        (canvas_size - 1) * 64 + 32 + 2 * 10 <= i16::MAX,
    ensures
        exists|root: Leaf, points: Seq<Position>, inp: Input, overlays: Seq<Seq<Position>>,
            carved: Seq<char>, filled: Seq<char>, m: TrailMap, cfg: Svg|
        {
            &&& #[trigger] generated_from(canvas_size, min_leaf_size, density, root, points,
                inp, overlays, carved, filled, m)
            &&& m.wf()
            &&& m.trailheads_wf()
            &&& m.trailheads@ == crate::map::zeros_upto(m.map@, m.width as int,
                m.map@.len() as int)
            &&& TrailMap::paths_view(m.paths@) == m.spec_found()
            &&& forall|k: int| 0 <= k < m.paths@.len() ==> m.trail_ok(#[trigger] m.paths@[k]@)
            &&& cfg.tile_size == 64
            &&& cfg.offset == 32
            &&& cfg.stroke_width == 2
            &&& cfg.end_radius == 10
            &&& cfg.colour@ == "black"@
            &&& cfg.width == (canvas_size - 1) * 64 + 64
            &&& cfg.height == (canvas_size - 1) * 64 + 64
            &&& r@ == #[trigger] cfg.spec_draw(m)
        },
{
    let mut rng = crate::rng::seeded_rng(seed.as_str());

    let width = canvas_size;
    let height = canvas_size;
    let depth: usize = 0;
    let mut root = Leaf::new(0, 0, width, height, min_leaf_size, depth);
    root.generate(&mut rng);

    let mut input = Input::new(width, height);
    let mut starting_points: Vec<Position> = Vec::new();
    proof {
        crate::quadtree::lemma_leaves_of_generated(root);
    }
    root.add_start(&mut starting_points, &mut rng, density);
    proof {
        let ls = crate::quadtree::leaves_of(root);
        assert forall|q: int| 0 <= q < starting_points@.len()
            implies input.pos_in_bounds(#[trigger] starting_points@[q]) by {
            if density > 0 {
                let li = q / (density as int);
                let d = q % (density as int);
                vstd::arithmetic::div_mod::lemma_fundamental_div_mod(q, density as int);
                vstd::arithmetic::div_mod::lemma_mod_bound(q, density as int);
                assert(0 <= d < density);
                assert(q == li * (density as int) + d) by (nonlinear_arith)
                    requires
                        q == (density as int) * li + d,
                ;
                assert(0 <= li < ls.len()) by (nonlinear_arith)
                    requires
                        q == li * (density as int) + d,
                        0 <= d < density,
                        0 <= q < (density as int) * ls.len(),
                ;
                assert(crate::quadtree::in_region(ls[li],
                    starting_points@[0 + li * (density as int) + d]));
                assert(starting_points@[0 + li * (density as int) + d]
                    == starting_points@[q]);
                assert(crate::quadtree::contained(ls[li], root));
            }
        }
    }
    let ghost inp0 = input;
    let ghost unset = Seq::new((canvas_size * canvas_size) as nat, |i: int| '.');
    proof {
        assert(inp0.map@ =~= unset);
    }
    input.add_trails(&starting_points, &mut rng);
    let ghost carved = input.map@;
    let ghost overlays = choose|ts: Seq<Seq<Position>>| {
        &&& ts.len() == starting_points@.len()
        &&& forall|k: int| 0 <= k < ts.len() ==> (#[trigger] ts[k]).len() == 0
            || inp0.committed_trail(
                crate::input::overlay_trails(inp0.map@, inp0.width as int, ts.take(k)),
                ts[k], starting_points@[k])
        &&& carved == #[trigger] crate::input::overlay_trails(inp0.map@,
            inp0.width as int, ts)
        &&& ((forall|i: int| 0 <= i < inp0.map@.len() ==> inp0.map@[i] == '.')
            && inp0.map@.len() >= 10 && starting_points@.len() >= 1)
            ==> ts[0].len() == 10
    };
    proof {
        assert(overlays.len() == starting_points@.len());
        assert forall|k: int| 0 <= k < overlays.len()
            implies (#[trigger] overlays[k]).len() == 0
                || inp0.committed_trail(
                    crate::input::overlay_trails(unset, canvas_size as int,
                        overlays.take(k)),
                    overlays[k], starting_points@[k]) by {
            if overlays[k].len() != 0 {
                assert(inp0.committed_trail(
                    crate::input::overlay_trails(inp0.map@, inp0.width as int,
                        overlays.take(k)),
                    overlays[k], starting_points@[k]));
            }
        }
        assert(carved == crate::input::overlay_trails(unset, canvas_size as int, overlays));
        if canvas_size * canvas_size >= 10 && starting_points@.len() >= 1 {
            assert(inp0.map@.len() >= 10);
            assert(overlays[0].len() == 10);
        }
    }
    input.fill(&mut rng);
    let ghost filled = input.map@;

    let text = input.to_text();
    proof {
        crate::text::lemma_text_rows(input.map@, width as int, height as int);
        let rows = crate::text::rows_of(text@);
        assert forall|y: int| 0 <= y < rows.len()
            implies crate::text::trimmed(#[trigger] rows[y]) == rows[y]
                && rows[y].len() == width
                && crate::text::digits_only(rows[y]) by {
            assert(0 <= y * width as int
                && y * width as int + width as int <= input.map@.len()
                && (y + 1) * width as int == y * width as int + width as int)
                by (nonlinear_arith)
                requires
                    0 <= y < height as int,
                    input.map@.len() == width * height,
                    width >= 1,
            ;
            assert(crate::text::digits_only(rows[y])) by {
                assert(forall|k: int| 0 <= k < rows[y].len()
                    ==> #[trigger] rows[y][k] == input.map@[y * width as int + k]);
            }
            crate::text::lemma_trim_digits(rows[y]);
        }
        assert(crate::map::parse_ok(text@)) by {
            assert(crate::text::trimmed(rows[0]).len() == width);
            assert(forall|y: int| 0 <= y < rows.len()
                ==> crate::text::digits_only(crate::text::trimmed(#[trigger] rows[y])));
        }
    }
    let mut map = TrailMap::parse(text.as_str());
    proof {
        assert(map.width == width);
        assert(map.height == height);
    }
    proof {
        let w = width as int;
        assert forall|i: int| 0 <= i < map.map@.len()
            implies #[trigger] map.map@[i] == crate::text::digit_val(filled[i]) by {
            let y = i / w;
            let x = i % w;
            vstd::arithmetic::div_mod::lemma_fundamental_div_mod(i, w);
            vstd::arithmetic::div_mod::lemma_mod_bound(i, w);
            assert(map.map@.len() == width * height);
            assert(0 <= y < height as int) by (nonlinear_arith)
                requires
                    i == w * y + x,
                    0 <= x < w,
                    0 <= i < width * height,
                    w == width as int,
                    width >= 1,
                    height >= 1,
            ;
            assert(y * w + x == i) by (nonlinear_arith)
                requires
                    i == w * y + x,
            ;
            let rows = crate::text::rows_of(text@);
            assert(map.map@[y * map.width + x]
                == crate::text::digit_val(crate::text::trimmed(rows[y])[x]));
            assert(crate::text::trimmed(rows[y]) == rows[y]);
            assert(rows[y] =~= filled.subrange(y * w, (y + 1) * w));
            assert(0 <= y * w && y * w + w <= filled.len()
                && (y + 1) * w == y * w + w) by (nonlinear_arith)
                requires
                    0 <= y < height as int,
                    filled.len() == width * height,
                    w == width as int,
                    width >= 1,
            ;
            assert(rows[y][x] == filled[y * w + x]);
        }
    }
    let ghost m_pre = map;
    map.find_all_paths();
    proof {
        assert(TrailMap::paths_view(m_pre.paths@) =~= Seq::<Seq<Position>>::empty());
        assert(TrailMap::paths_view(map.paths@)
            =~= TrailMap::paths_view(m_pre.paths@) + m_pre.spec_found());
        TrailMap::lemma_found_agree(map, m_pre);
        assert(TrailMap::paths_view(map.paths@) == map.spec_found());
        assert(map.trailheads@ == crate::map::zeros_upto(map.map@, map.width as int,
            map.map@.len() as int));
    }

    let svg = Svg::new(64, 32, map.width, map.height, 2, "black", 10);
    proof {
        assert forall|t: int, q: int|
            0 <= t < map.paths@.len() && 0 <= q < map.paths@[t]@.len()
                implies svg.pos_fits(#[trigger] map.paths@[t]@[q]) by {
            let p = map.paths@[t]@[q];
            assert(map.trail_ok(map.paths@[t]@));
            assert(map.pos_in_bounds(p));
            assert(p.x as int * 64 <= (canvas_size - 1) * 64
                && p.y as int * 64 <= (canvas_size - 1) * 64) by (nonlinear_arith)
                requires
                    p.x < canvas_size,
                    p.y < canvas_size,
            ;
        }
        assert(forall|t: int| 0 <= t < map.paths@.len()
            ==> #[trigger] map.paths@[t]@.len() >= 2);
    }
    let out = svg.draw(&map);
    proof {
        assert(svg.colour@ == "black"@);
        assert(generated_from(canvas_size, min_leaf_size, density, root,
            starting_points@, inp0, overlays, carved, filled, map)) by {
            assert(starting_points@.len()
                == density * crate::quadtree::leaves_of(root).len());
            assert forall|li: int, d: int|
                0 <= li < crate::quadtree::leaves_of(root).len() && 0 <= d < density
                    implies crate::quadtree::in_region(
                        crate::quadtree::leaves_of(root)[li],
                        #[trigger] starting_points@[li * density + d]) by {
                assert(crate::quadtree::in_region(crate::quadtree::leaves_of(root)[li],
                    starting_points@[0 + li * (density as int) + d]));
            }
            assert(filled.len() == carved.len());
        }
    }
    out
}

} // verus!

