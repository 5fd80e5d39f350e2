use vstd::prelude::*;

use crate::map::{Position, TrailMap};

verus! {

use vstd::string::*;

use crate::decimal::{dec_int, dec_rep, i16_to_string, usize_to_string};

/// A compass direction on the grid: y grows southward, x grows eastward.
#[derive(Debug, PartialEq, Eq, Structural, Clone, Copy)]
pub enum Direction {
    North,
    East,
    South,
    West,
}

/// The axis of one drawing command.
#[derive(Debug, PartialEq, Eq, Structural, Clone, Copy)]
pub enum LineCommand {
    Horizontal,
    Vertical,
}

/// One relative drawing command: an axis and a signed pixel displacement.
#[derive(Debug, PartialEq, Eq, Structural, Clone, Copy)]
pub struct SvgCommand {
    pub command: LineCommand,
    pub distance: i16,
}

/// The mathematical shadow of a drawing command, free of machine widths.
pub ghost struct CmdModel {
    pub horiz: bool,
    pub dist: int,
}

pub open spec fn model(c: SvgCommand) -> CmdModel {
    CmdModel { horiz: c.command is Horizontal, dist: c.distance as int }
}

pub open spec fn models(s: Seq<SvgCommand>) -> Seq<CmdModel> {
    s.map_values(|c: SvgCommand| model(c))
}

/// Consecutive same-axis commands collapsed into one, left to right: each
/// command either merges into the last kept command or opens a new one.
pub open spec fn merged(s: Seq<CmdModel>) -> Seq<CmdModel>
    decreases s.len(),
{
    if s.len() == 0 {
        Seq::<CmdModel>::empty()
    } else {
        let prev = merged(s.drop_last());
        let c = s.last();
        if prev.len() > 0 && prev.last().horiz == c.horiz {
            prev.update(prev.len() - 1,
                CmdModel { horiz: c.horiz, dist: prev.last().dist + c.dist })
        } else {
            prev.push(c)
        }
    }
}

/// The sum of the displacements of `s[j ..= k]`.
pub open spec fn seg_sum(s: Seq<CmdModel>, j: int, k: int) -> int
    decreases k - j + 1,
{
    if j > k {
        0
    } else {
        seg_sum(s, j, k - 1) + s[k].dist
    }
}

pub open spec fn same_axis(s: Seq<CmdModel>, j: int, k: int) -> bool {
    forall|t: int| j <= t <= k ==> s[t].horiz == s[j].horiz
}

/// Every contiguous same-axis stretch sums to a displacement a 16-bit
/// distance can hold; what merging may write into one command.
pub open spec fn runs_bounded(s: Seq<CmdModel>) -> bool {
    forall|j: int, k: int| 0 <= j <= k < s.len() && same_axis(s, j, k)
        ==> i16::MIN <= #[trigger] seg_sum(s, j, k) <= i16::MAX
}

/// The sum of the displacements on one axis.
pub open spec fn axis_sum(s: Seq<CmdModel>, horiz: bool) -> int
    decreases s.len(),
{
    if s.len() == 0 {
        0
    } else {
        axis_sum(s.drop_last(), horiz) + if s.last().horiz == horiz {
            s.last().dist
        } else {
            0
        }
    }
}

/// No two neighbouring commands share an axis; the shape merging produces.
pub open spec fn no_adjacent_same_axis(s: Seq<CmdModel>) -> bool {
    forall|i: int| 0 <= i < s.len() - 1 ==> s[i].horiz != #[trigger] s[i + 1].horiz
}

/// The vector encoder: grid-to-pixel scaling and the stroke styling of the
/// emitted document.
#[derive(Debug, PartialEq)]
pub struct Svg<'a> {
    pub tile_size: usize,
    pub offset: usize,
    pub stroke_width: usize,
    pub colour: &'a str,
    pub width: usize,
    pub height: usize,
    pub end_radius: usize,
}

impl<'a> Svg<'a> {
    /// Pixel coordinate of a grid coordinate.
    pub open spec fn px(self, v: int) -> int {
        v * self.tile_size + self.offset
    }

    /// An encoder for a `map_width` by `map_height` grid: the document spans
    /// one tile per grid step plus a margin of `offset` on each side.
    pub fn new(
        tile_size: usize,
        offset: usize,
        map_width: usize,
        map_height: usize,
        stroke_width: usize,
        colour: &'a str,
        end_radius: usize,
    ) -> (r: Svg<'a>)
        requires
            map_width >= 1,
            map_height >= 1,
            (map_width - 1) * tile_size + offset * 2 <= usize::MAX,
            (map_height - 1) * tile_size + offset * 2 <= usize::MAX,
        ensures
            r.tile_size == tile_size,
            r.offset == offset,
            r.stroke_width == stroke_width,
            r.colour == colour,
            r.end_radius == end_radius,
            r.width == (map_width - 1) * tile_size + offset * 2,
            r.height == (map_height - 1) * tile_size + offset * 2,
    {
        Svg {
            tile_size,
            offset,
            stroke_width,
            colour,
            width: (map_width - 1) * tile_size + (offset * 2),
            height: (map_height - 1) * tile_size + (offset * 2),
            end_radius,
        }
    }

    /// The pixel coordinate of `point`.
    pub fn to_pixel(&self, point: usize) -> (r: usize)
        requires
            point * self.tile_size + self.offset <= usize::MAX,
        ensures
            r == self.px(point as int),
    {
        point * self.tile_size + self.offset
    }

    /// The command drawing the step from `first` to `second`: horizontal
    /// when the column changes, vertical otherwise, with the signed pixel
    /// displacement.
    pub open spec fn spec_command(self, a: Position, b: Position) -> CmdModel {
        if a.x != b.x {
            CmdModel { horiz: true, dist: self.px(b.x as int) - self.px(a.x as int) }
        } else {
            CmdModel { horiz: false, dist: self.px(b.y as int) - self.px(a.y as int) }
        }
    }

    /// A position whose pixel coordinates, widened by the marker radius on
    /// either side, fit a 16-bit distance.
    pub open spec fn pos_fits(self, p: Position) -> bool {
        &&& 0 <= self.px(p.x as int) + 2 * self.end_radius <= i16::MAX
        &&& 0 <= self.px(p.y as int) + 2 * self.end_radius <= i16::MAX
    }

    pub fn make_command(&self, first: Position, second: Position) -> (r: SvgCommand)
        requires
            self.pos_fits(first),
            self.pos_fits(second),
        ensures
            model(r) == self.spec_command(first, second),
    {
        let is_horz = first.x != second.x;
        if is_horz {
            SvgCommand {
                command: LineCommand::Horizontal,
                distance: self.to_pixel(second.x) as i16 - self.to_pixel(first.x) as i16,
            }
        } else {
            SvgCommand {
                command: LineCommand::Vertical,
                distance: self.to_pixel(second.y) as i16 - self.to_pixel(first.y) as i16,
            }
        }
    }

    /// The command sequence of a point sequence: one command per
    /// consecutive pair.
    pub open spec fn path_cmds(self, pts: Seq<Position>) -> Seq<CmdModel> {
        if pts.len() < 1 {
            Seq::<CmdModel>::empty()
        } else {
            Seq::new((pts.len() - 1) as nat, |i: int| self.spec_command(pts[i], pts[i + 1]))
        }
    }

    pub fn get_path(&self, points: &Vec<Position>) -> (r: Vec<SvgCommand>)
        requires
            forall|q: int| 0 <= q < points@.len() ==> self.pos_fits(#[trigger] points@[q]),
        ensures
            models(r@) == self.path_cmds(points@),
    {
        let mut commands: Vec<SvgCommand> = Vec::new();
        if points.len() < 1 {
            proof {
                assert(models(commands@) =~= self.path_cmds(points@));
            }
            return commands;
        }
        let mut i: usize = 0;
        while i < points.len() - 1
            invariant
                points@.len() >= 1,
                i <= points@.len() - 1,
                forall|q: int| 0 <= q < points@.len() ==> self.pos_fits(#[trigger] points@[q]),
                commands@.len() == i,
                forall|q: int| 0 <= q < i
                    ==> model(#[trigger] commands@[q]) == self.spec_command(points@[q],
                        points@[q + 1]),
            decreases points@.len() - 1 - i,
        {
            let c = self.make_command(points[i], points[i + 1]);
            commands.push(c);
            i += 1;
        }
        proof {
            assert(models(commands@) =~= self.path_cmds(points@));
        }
        commands
    }

    /// The direction of the step from `first` to `second`.  The east and
    /// west names are mirrored relative to growing x; the encoder only ever
    /// pairs a direction with its own adjustment, so the mirroring cancels.
    pub open spec fn spec_direction(a: Position, b: Position) -> Direction {
        if a.x == b.x {
            if a.y < b.y {
                Direction::South
            } else {
                Direction::North
            }
        } else if a.x < b.x {
            Direction::West
        } else {
            Direction::East
        }
    }

    pub fn get_direction(&self, first: Position, second: Position) -> (r: Direction)
        ensures
            r == Self::spec_direction(first, second),
    {
        if first.x == second.x {
            if first.y < second.y {
                Direction::South
            } else {
                Direction::North
            }
        } else if first.x < second.x {
            Direction::West
        } else {
            Direction::East
        }
    }

    /// The start marker: a circle centred on the pixel of `centre`.
    pub open spec fn start_str(self, centre: Position) -> Seq<char> {
        "<circle cx=\""@ + dec_rep(self.px(centre.x as int) as nat) + "\" cy=\""@
            + dec_rep(self.px(centre.y as int) as nat) + "\" stroke-width=\""@
            + dec_rep(self.stroke_width as nat) + "\" fill=\"transparent\" stroke=\""@
            + self.colour@ + "\" r=\""@ + dec_rep(self.end_radius as nat) + "\" />"@
    }

    pub fn start(&self, centre: Position) -> (r: String)
        requires
            self.pos_fits(centre),
    ensures
            r@ == self.start_str(centre),
    {
        let mut out = String::new();
        out.append("<circle cx=\"");
        let cx = usize_to_string(centre.x * self.tile_size + self.offset);
        out.append(cx.as_str());
        out.append("\" cy=\"");
        let cy = usize_to_string(centre.y * self.tile_size + self.offset);
        out.append(cy.as_str());
        out.append("\" stroke-width=\"");
        let sw = usize_to_string(self.stroke_width);
        out.append(sw.as_str());
        out.append("\" fill=\"transparent\" stroke=\"");
        out.append(self.colour);
        out.append("\" r=\"");
        let er = usize_to_string(self.end_radius);
        out.append(er.as_str());
        out.append("\" />");
        proof {
            assert(out@ =~= self.start_str(centre));
        }
        out
    }

    /// The end marker: a square of twice the marker radius, anchored a
    /// radius above and left of the pixel of `centre`.
    pub open spec fn end_str(self, centre: Position) -> Seq<char> {
        "<rect x=\""@ + dec_rep((self.px(centre.x as int) - self.end_radius) as nat) + "\" y=\""@
            + dec_rep((self.px(centre.y as int) - self.end_radius) as nat) + "\" width=\""@
            + dec_rep((self.end_radius * 2) as nat) + "\" height=\""@
            + dec_rep((self.end_radius * 2) as nat) + "\" stroke-width=\""@
            + dec_rep(self.stroke_width as nat) + "\" fill=\"transparent\" stroke=\""@
            + self.colour@ + "\" />"@
    }

    pub fn end(&self, centre: Position) -> (r: String)
        requires
            self.pos_fits(centre),
            self.offset >= self.end_radius,
        ensures
            r@ == self.end_str(centre),
    {
        let mut out = String::new();
        out.append("<rect x=\"");
        let rx = usize_to_string((centre.x * self.tile_size + self.offset) - self.end_radius);
        out.append(rx.as_str());
        out.append("\" y=\"");
        let ry = usize_to_string((centre.y * self.tile_size + self.offset) - self.end_radius);
        out.append(ry.as_str());
        out.append("\" width=\"");
        let wd = usize_to_string(self.end_radius * 2);
        out.append(wd.as_str());
        out.append("\" height=\"");
        let ht = usize_to_string(self.end_radius * 2);
        out.append(ht.as_str());
        out.append("\" stroke-width=\"");
        let sw = usize_to_string(self.stroke_width);
        out.append(sw.as_str());
        out.append("\" fill=\"transparent\" stroke=\"");
        out.append(self.colour);
        out.append("\" />");
        proof {
            assert(out@ =~= self.end_str(centre));
        }
        out
    }

    /// One stroked path element around the command text `d`.
    pub open spec fn path_str(self, d: Seq<char>) -> Seq<char> {
        "<path d=\""@ + d + "\" fill=\"none\" stroke=\""@ + self.colour@ + "\" stroke-width=\""@
            + dec_rep(self.stroke_width as nat) + "\" stroke-linecap=\"square\" />"@
    }

    pub fn draw_path(&self, path: &str) -> (r: String)
        ensures
            r@ == self.path_str(path@),
    {
        let mut out = String::new();
        out.append("<path d=\"");
        out.append(path);
        out.append("\" fill=\"none\" stroke=\"");
        out.append(self.colour);
        out.append("\" stroke-width=\"");
        let sw = usize_to_string(self.stroke_width);
        out.append(sw.as_str());
        out.append("\" stroke-linecap=\"square\" />");
        proof {
            assert(out@ =~= self.path_str(path@));
        }
        out
    }

    /// Collapse consecutive same-axis commands by summing their
    /// displacements, keeping first-occurrence order.
    pub fn merge_commands(&self, path: Vec<SvgCommand>) -> (r: Vec<SvgCommand>)
        requires
            runs_bounded(models(path@)),
        ensures
            models(r@) == merged(models(path@)),
    {
        let ghost s = models(path@);
        let mut output: Vec<SvgCommand> = Vec::new();
        let ghost mut run_j: int = 0;
        let mut i: usize = 0;
        while i < path.len()
            invariant
                s == models(path@),
                runs_bounded(s),
                i <= s.len(),
                models(output@) == merged(s.take(i as int)),
                i == 0 ==> output@.len() == 0,
                i > 0 ==> {
                    &&& output@.len() >= 1
                    &&& 0 <= run_j < i
                    &&& (run_j == 0 || s[run_j - 1].horiz != s[run_j].horiz)
                    &&& same_axis(s, run_j, i - 1)
                    &&& model(output@.last()).horiz == s[run_j].horiz
                    &&& model(output@.last()).dist == seg_sum(s, run_j, i - 1)
                },
            decreases s.len() - i,
        {
            let item = path[i];
            proof {
                assert(model(item) == s[i as int]);
                assert(s.take(i + 1).drop_last() =~= s.take(i as int));
            }
            if i == 0 {
                output.push(item);
                proof {
                    run_j = 0;
                    assert(models(output@) =~= merged(s.take(1)));
                    assert(seg_sum(s, 0, -1) == 0);
                    assert(seg_sum(s, 0, 0) == s[0].dist);
                }
            } else {
                let n = output.len() - 1;
                let last = output[n];
                let ghost prev = models(output@);
                if item.command == last.command {
                    proof {
                        assert(same_axis(s, run_j, i as int)) by {
                            assert(forall|t: int| run_j <= t <= i - 1
                                ==> s[t].horiz == s[run_j].horiz);
                            assert(s[i as int].horiz == model(item).horiz);
                            assert(model(last).horiz == s[run_j].horiz);
                        }
                        assert(seg_sum(s, run_j, i as int)
                            == seg_sum(s, run_j, i - 1) + s[i as int].dist);
                        assert(i16::MIN <= seg_sum(s, run_j, i as int) <= i16::MAX);
                    }
                    output[n] = SvgCommand {
                        command: last.command,
                        distance: last.distance + item.distance,
                    };
                    proof {
                        assert(models(output@) =~= prev.update(prev.len() - 1,
                            CmdModel {
                                horiz: s[i as int].horiz,
                                dist: prev.last().dist + s[i as int].dist,
                            }));
                        assert(models(output@) =~= merged(s.take(i + 1)));
                    }
                } else {
                    output.push(item);
                    proof {
                        assert(models(output@) =~= prev.push(s[i as int]));
                        assert(models(output@) =~= merged(s.take(i + 1)));
                        run_j = i as int;
                        assert(seg_sum(s, run_j, run_j - 1) == 0);
                        assert(seg_sum(s, run_j, i as int) == s[i as int].dist);
                    }
                }
            }
            i += 1;
        }
        proof {
            assert(s.take(s.len() as int) =~= s);
        }
        output
    }
}

/// The text of one command: its axis letter and its displacement.
pub open spec fn cmd_text(c: CmdModel) -> Seq<char> {
    (if c.horiz {
        "h"@
    } else {
        "v"@
    }) + dec_int(c.dist)
}

/// The text of a command list, in order.
pub open spec fn cat_cmds(s: Seq<CmdModel>) -> Seq<char>
    decreases s.len(),
{
    if s.len() == 0 {
        Seq::<char>::empty()
    } else {
        cat_cmds(s.drop_last()) + cmd_text(s.last())
    }
}

/// One command rendered as text.
pub fn cmd_string(c: SvgCommand) -> (r: String)
    ensures
        r@ == cmd_text(model(c)),
{
    let mut out = String::new();
    match c.command {
        LineCommand::Horizontal => out.append("h"),
        LineCommand::Vertical => out.append("v"),
    }
    let d = i16_to_string(c.distance);
    out.append(d.as_str());
    proof {
        assert(out@ =~= cmd_text(model(c)));
    }
    out
}

/// A command with its displacement stretched by `r` along the direction's
/// sign: outward for north and east, inward for south and west.
pub open spec fn dir_adjust(c: CmdModel, dir: Direction, r: int) -> CmdModel {
    match dir {
        Direction::North => CmdModel { horiz: c.horiz, dist: c.dist + r },
        Direction::South => CmdModel { horiz: c.horiz, dist: c.dist - r },
        Direction::East => CmdModel { horiz: c.horiz, dist: c.dist + r },
        Direction::West => CmdModel { horiz: c.horiz, dist: c.dist - r },
    }
}

/// Replacing one command changes a segment sum exactly by the change of the
/// replaced command, when it lies inside the segment.
proof fn lemma_seg_sum_update(s: Seq<CmdModel>, t: int, c: CmdModel, j: int, k: int)
    requires
        0 <= t < s.len(),
        0 <= j,
        k < s.len(),
    ensures
        seg_sum(s.update(t, c), j, k) == seg_sum(s, j, k) + if j <= t <= k {
            c.dist - s[t].dist
        } else {
            0
        },
    decreases k - j + 1,
{
    if j <= k {
        lemma_seg_sum_update(s, t, c, j, k - 1);
    }
}

impl<'a> Svg<'a> {
    /// A same-axis stretch of a trail's commands sums to the pixel distance
    /// between its two end points on that axis.
    proof fn lemma_path_seg_sum(self, pts: Seq<Position>, j: int, k: int)
        requires
            pts.len() >= 2,
            0 <= j <= k < pts.len() - 1,
            same_axis(self.path_cmds(pts), j, k),
        ensures
            self.path_cmds(pts)[j].horiz ==> seg_sum(self.path_cmds(pts), j, k)
                == self.px(pts[k + 1].x as int) - self.px(pts[j].x as int),
            !self.path_cmds(pts)[j].horiz ==> seg_sum(self.path_cmds(pts), j, k)
                == self.px(pts[k + 1].y as int) - self.px(pts[j].y as int),
        decreases k - j,
    {
        let s = self.path_cmds(pts);
        if j == k {
            assert(seg_sum(s, j, j - 1) == 0);
            assert(s[j] == self.spec_command(pts[j], pts[j + 1]));
            if !s[j].horiz {
                assert(pts[j].x == pts[j + 1].x);
            }
        } else {
            assert(same_axis(s, j, k - 1));
            self.lemma_path_seg_sum(pts, j, k - 1);
            assert(s[k].horiz == s[j].horiz);
            assert(s[k] == self.spec_command(pts[k], pts[k + 1]));
            if !s[j].horiz {
                assert(pts[k].x == pts[k + 1].x);
            }
        }
    }

    /// The commands of a trail after the marker adjustments at both ends.
    pub open spec fn adjusted_cmds(self, trail: Seq<Position>) -> Seq<CmdModel> {
        let sdir = Self::spec_direction(trail[0], trail[1]);
        let edir = Self::spec_direction(trail[trail.len() - 2], trail[trail.len() - 1]);
        let s0 = self.path_cmds(trail);
        let s1 = s0.update(s0.len() - 1,
            dir_adjust(s0.last(), edir, self.end_radius as int));
        s1.update(0, dir_adjust(s1[0], sdir, self.end_radius as int))
    }

    /// The pixel point the drawn line starts from: the first grid point,
    /// moved one marker radius against the entry direction.
    pub open spec fn adjusted_start(self, trail: Seq<Position>) -> (int, int) {
        let d = Self::spec_direction(trail[0], trail[1]);
        let x = self.px(trail[0].x as int);
        let y = self.px(trail[0].y as int);
        let r = self.end_radius as int;
        match d {
            Direction::North => (x, y - r),
            Direction::South => (x, y + r),
            Direction::East => (x - r, y),
            Direction::West => (x + r, y),
        }
    }

    /// After the end adjustments, every same-axis stretch still fits a
    /// 16-bit displacement.
    proof fn lemma_adjusted_runs_bounded(self, trail: Seq<Position>)
        requires
            trail.len() >= 2,
            self.offset >= self.end_radius,
            forall|q: int| 0 <= q < trail.len() ==> self.pos_fits(#[trigger] trail[q]),
        ensures
            runs_bounded(self.adjusted_cmds(trail)),
    {
        let r = self.end_radius as int;
        let s0 = self.path_cmds(trail);
        let ll = s0.len() - 1;
        let edir = Self::spec_direction(trail[trail.len() - 2], trail[trail.len() - 1]);
        let sdir = Self::spec_direction(trail[0], trail[1]);
        let s1 = s0.update(ll, dir_adjust(s0.last(), edir, r));
        let s2 = s1.update(0, dir_adjust(s1[0], sdir, r));
        assert(s2 == self.adjusted_cmds(trail));
        assert(forall|t: int| 0 <= t < s0.len() ==> #[trigger] s2[t].horiz == s0[t].horiz);
        assert forall|j: int, k: int| 0 <= j <= k < s2.len() && same_axis(s2, j, k)
            implies i16::MIN <= #[trigger] seg_sum(s2, j, k) <= i16::MAX by {
            assert(same_axis(s0, j, k)) by {
                assert(forall|t: int| j <= t <= k ==> #[trigger] s0[t].horiz == s2[t].horiz);
            }
            self.lemma_path_seg_sum(trail, j, k);
            assert(0 <= self.px(trail[j].x as int) <= i16::MAX - 2 * r);
            assert(0 <= self.px(trail[k + 1].x as int) <= i16::MAX - 2 * r);
            assert(0 <= self.px(trail[j].y as int) <= i16::MAX - 2 * r);
            assert(0 <= self.px(trail[k + 1].y as int) <= i16::MAX - 2 * r);
            assert(-(i16::MAX - 2 * r) <= seg_sum(s0, j, k) <= i16::MAX - 2 * r);
            lemma_seg_sum_update(s0, ll, dir_adjust(s0.last(), edir, r), j, k);
            lemma_seg_sum_update(s1, 0, dir_adjust(s1[0], sdir, r), j, k);
            assert(seg_sum(s1, j, k) <= seg_sum(s0, j, k) + r);
            assert(seg_sum(s1, j, k) >= seg_sum(s0, j, k) - r);
            assert(seg_sum(s2, j, k) <= seg_sum(s1, j, k) + r);
            assert(seg_sum(s2, j, k) >= seg_sum(s1, j, k) - r);
        }
    }

    /// The document fragment of one trail: its two markers and its merged
    /// path element.
    pub open spec fn trail_fragment(self, trail: Seq<Position>) -> Seq<char> {
        let st = self.adjusted_start(trail);
        self.start_str(trail[0]) + self.end_str(trail.last()) + self.path_str(
            "M"@ + dec_rep(st.0 as nat) + ","@ + dec_rep(st.1 as nat)
                + cat_cmds(merged(self.adjusted_cmds(trail))))
    }

    /// The opening document element, sized to the canvas.
    pub open spec fn open_str(self) -> Seq<char> {
        "<svg viewBox=\"0 0 "@ + dec_rep(self.width as nat) + " "@
            + dec_rep(self.height as nat) + "\" xmlns=\"http://www.w3.org/2000/svg\">"@
    }

    /// The fragments of the given trails, in order.
    pub open spec fn frags(self, ps: Seq<Vec<Position>>) -> Seq<char>
        decreases ps.len(),
    {
        if ps.len() == 0 {
            Seq::<char>::empty()
        } else {
            self.frags(ps.drop_last()) + self.trail_fragment(ps.last()@)
        }
    }

    /// The whole document drawn for a map: the wrapper around one fragment
    /// per discovered trail.
    pub open spec fn spec_draw(self, m: TrailMap) -> Seq<char> {
        self.open_str() + self.frags(m.paths@) + "</svg>"@
    }

    fn doc_open(&self) -> (r: String)
        ensures
            r@ == self.open_str(),
    {
        let mut out = String::new();
        out.append("<svg viewBox=\"0 0 ");
        let w = usize_to_string(self.width);
        out.append(w.as_str());
        out.append(" ");
        let h = usize_to_string(self.height);
        out.append(h.as_str());
        out.append("\" xmlns=\"http://www.w3.org/2000/svg\">");
        proof {
            assert(out@ =~= self.open_str());
        }
        out
    }

    /// Draw every discovered trail of the map as one self-contained vector
    /// document: a start circle, an end square and one merged multi-segment
    /// path per trail, inside a wrapper sized to the canvas.
    /// The document fragment of one trail: both markers, then the merged
    /// path element.
    #[verifier::rlimit(100)]
    fn trail_svg(&self, trail: &Vec<Position>) -> (r: String)
        requires
            self.offset >= self.end_radius,
            trail@.len() >= 2,
            forall|q: int| 0 <= q < trail@.len() ==> self.pos_fits(#[trigger] trail@[q]),
        ensures
            r@ == self.trail_fragment(trail@),
    {
        let ghost tv = trail@;
        let r_i16 = self.end_radius as i16;
        let start_dir = self.get_direction(trail[0], trail[1]);
        let end_dir = self.get_direction(trail[trail.len() - 2], trail[trail.len() - 1]);

        let mut path_cmds = self.get_path(trail);
        let ghost s0 = self.path_cmds(tv);
        proof {
            assert(models(path_cmds@).len() == s0.len());
            assert(s0.len() == tv.len() - 1);
            assert(s0.last() == self.spec_command(tv[tv.len() - 2], tv[tv.len() - 1]));
            assert(s0[0] == self.spec_command(tv[0], tv[1]));
        }

        // pull the trail's end back so the end marker has room
        let last_index = path_cmds.len() - 1;
        let lc = path_cmds[last_index];
        let new_last = match end_dir {
            Direction::North => lc.distance + r_i16,
            Direction::South => lc.distance - r_i16,
            Direction::East => lc.distance + r_i16,
            Direction::West => lc.distance - r_i16,
        };
        path_cmds[last_index] = SvgCommand { command: lc.command, distance: new_last };
        let ghost s1 = s0.update(s0.len() - 1,
            dir_adjust(s0.last(), Self::spec_direction(tv[tv.len() - 2],
                tv[tv.len() - 1]), self.end_radius as int));
        proof {
            assert(models(path_cmds@) =~= s1);
        }

        // pull the trail's start forward so the start marker has room
        let mut start_x = self.to_pixel(trail[0].x);
        let mut start_y = self.to_pixel(trail[0].y);
        let fc = path_cmds[0];
        match start_dir {
            Direction::North => {
                start_y -= self.end_radius;
                path_cmds[0] = SvgCommand {
                    command: fc.command,
                    distance: fc.distance + r_i16,
                };
            }
            Direction::South => {
                start_y += self.end_radius;
                path_cmds[0] = SvgCommand {
                    command: fc.command,
                    distance: fc.distance - r_i16,
                };
            }
            Direction::East => {
                start_x -= self.end_radius;
                path_cmds[0] = SvgCommand {
                    command: fc.command,
                    distance: fc.distance + r_i16,
                };
            }
            Direction::West => {
                start_x += self.end_radius;
                path_cmds[0] = SvgCommand {
                    command: fc.command,
                    distance: fc.distance - r_i16,
                };
            }
        }
        proof {
            assert(models(path_cmds@) =~= self.adjusted_cmds(tv));
            assert((start_x as int, start_y as int) == self.adjusted_start(tv));
        }

        // the start circle and the end square
        let mut out = self.start(trail[0]);
        let em = self.end(trail[trail.len() - 1]);
        out.append(em.as_str());

        // the merged path
        let mut merged_str = String::new();
        merged_str.append("M");
        let xs = usize_to_string(start_x);
        merged_str.append(xs.as_str());
        merged_str.append(",");
        let ys = usize_to_string(start_y);
        merged_str.append(ys.as_str());
        proof {
            self.lemma_adjusted_runs_bounded(tv);
        }
        let merged_cmds = self.merge_commands(path_cmds);
        let ghost mm = merged(self.adjusted_cmds(tv));
        let ghost head = "M"@ + dec_rep(start_x as nat) + ","@ + dec_rep(start_y as nat);
        proof {
            assert(merged_str@ =~= head + cat_cmds(mm.take(0)));
        }
        let mut k: usize = 0;
        while k < merged_cmds.len()
            invariant
                k <= mm.len(),
                models(merged_cmds@) == mm,
                merged_str@ == head + cat_cmds(mm.take(k as int)),
            decreases mm.len() - k,
        {
            let cs = cmd_string(merged_cmds[k]);
            merged_str.append(cs.as_str());
            proof {
                assert(mm.take(k + 1).drop_last() =~= mm.take(k as int));
                assert(cat_cmds(mm.take(k + 1))
                    == cat_cmds(mm.take(k as int)) + cmd_text(mm[k as int]));
                assert(model(merged_cmds@[k as int]) == mm[k as int]);
                assert(merged_str@ =~= head + cat_cmds(mm.take(k + 1)));
            }
            k += 1;
        }
        proof {
            assert(mm.take(mm.len() as int) =~= mm);
        }
        let pe = self.draw_path(merged_str.as_str());
        out.append(pe.as_str());
        proof {
            assert(out@ =~= self.trail_fragment(tv));
        }
        out
    }

    /// Draw every discovered trail of the map as one self-contained vector
    /// document: a start circle, an end square and one merged multi-segment
    /// path per trail, inside a wrapper sized to the canvas.
    pub fn draw(&self, map: &TrailMap) -> (r: String)
        requires
            self.offset >= self.end_radius,
            forall|t: int| 0 <= t < map.paths@.len() ==> #[trigger] map.paths@[t]@.len() >= 2,
            forall|t: int, q: int|
                0 <= t < map.paths@.len() && 0 <= q < map.paths@[t]@.len()
                    ==> self.pos_fits(#[trigger] map.paths@[t]@[q]),
        ensures
            r@ == self.spec_draw(*map),
    {
        let mut output = self.doc_open();
        let mut t: usize = 0;
        while t < map.paths.len()
            invariant
                self.offset >= self.end_radius,
                forall|tt: int| 0 <= tt < map.paths@.len()
                    ==> #[trigger] map.paths@[tt]@.len() >= 2,
                forall|tt: int, q: int|
                    0 <= tt < map.paths@.len() && 0 <= q < map.paths@[tt]@.len()
                        ==> self.pos_fits(#[trigger] map.paths@[tt]@[q]),
                t <= map.paths@.len(),
                output@ == self.open_str() + self.frags(map.paths@.take(t as int)),
            decreases map.paths@.len() - t,
        {
            let trail = &map.paths[t];
            let frag = self.trail_svg(trail);
            output.append(frag.as_str());
            proof {
                assert(map.paths@.take(t + 1).drop_last() =~= map.paths@.take(t as int));
                assert(self.frags(map.paths@.take(t + 1))
                    == self.frags(map.paths@.take(t as int))
                        + self.trail_fragment(map.paths@[t as int]@));
                assert(output@ =~= self.open_str() + self.frags(map.paths@.take(t + 1)));
            }
            t += 1;
        }
        output.append("</svg>");
        proof {
            assert(map.paths@.take(map.paths@.len() as int) =~= map.paths@);
            assert(output@ =~= self.spec_draw(*map));
        }
        output
    }
}

/// A map with no discovered trails draws as the bare document wrapper,
/// with no marker and no path element inside it.
pub proof fn lemma_draw_empty(s: Svg, m: TrailMap)
    requires
        m.paths@.len() == 0,
    ensures
        s.spec_draw(m) == s.open_str() + "</svg>"@,
{
    assert(s.frags(m.paths@) =~= Seq::<char>::empty());
    assert(s.spec_draw(m) =~= s.open_str() + "</svg>"@);
}

/// Merging never leaves two neighbouring commands on one axis, and keeps
/// the axis of the last command.
proof fn lemma_merged_props(s: Seq<CmdModel>)
    ensures
        no_adjacent_same_axis(merged(s)),
        merged(s).len() <= s.len(),
        s.len() == 0 ==> merged(s).len() == 0,
        s.len() > 0 ==> 1 <= merged(s).len() && merged(s).last().horiz == s.last().horiz,
    decreases s.len(),
{
    if s.len() > 0 {
        lemma_merged_props(s.drop_last());
        let prev = merged(s.drop_last());
        let c = s.last();
        if prev.len() > 0 && prev.last().horiz == c.horiz {
            let upd = prev.update(prev.len() - 1,
                CmdModel { horiz: c.horiz, dist: prev.last().dist + c.dist });
            assert forall|i: int| 0 <= i < upd.len() - 1
                implies upd[i].horiz != #[trigger] upd[i + 1].horiz by {
                assert(upd[i].horiz == prev[i].horiz);
                assert(upd[i + 1].horiz == prev[i + 1].horiz);
            }
        } else {
        }
    }
}

/// A command list with no neighbouring same-axis pair is already merged.
proof fn lemma_merged_identity(s: Seq<CmdModel>)
    requires
        no_adjacent_same_axis(s),
    ensures
        merged(s) == s,
    decreases s.len(),
{
    if s.len() == 0 {
        assert(merged(s) =~= s);
    } else {
        let d = s.drop_last();
        assert(no_adjacent_same_axis(d)) by {
            assert(forall|i: int| 0 <= i < d.len() - 1
                ==> d[i] == s[i] && #[trigger] d[i + 1] == s[i + 1]);
        }
        lemma_merged_identity(d);
        lemma_merged_props(d);
        if d.len() > 0 {
            assert(d.last().horiz != s.last().horiz) by {
                assert(s[s.len() - 2].horiz != s[s.len() - 2 + 1].horiz);
            }
        }
        assert(merged(s) =~= s);
    }
}

/// Merging a command list twice gives what one merge gives.
pub proof fn lemma_merge_idempotent(s: Seq<CmdModel>)
    ensures
        merged(merged(s)) == merged(s),
{
    lemma_merged_props(s);
    lemma_merged_identity(merged(s));
}

/// Merging keeps the total displacement on each axis.
pub proof fn lemma_merge_preserves_axis_sum(s: Seq<CmdModel>, horiz: bool)
    ensures
        axis_sum(merged(s), horiz) == axis_sum(s, horiz),
    decreases s.len(),
{
    if s.len() > 0 {
        lemma_merge_preserves_axis_sum(s.drop_last(), horiz);
        let prev = merged(s.drop_last());
        let c = s.last();
        if prev.len() > 0 && prev.last().horiz == c.horiz {
            let upd = prev.update(prev.len() - 1,
                CmdModel { horiz: c.horiz, dist: prev.last().dist + c.dist });
            assert(upd.drop_last() =~= prev.drop_last());
            assert(axis_sum(upd, horiz) == axis_sum(upd.drop_last(), horiz)
                + if upd.last().horiz == horiz { upd.last().dist } else { 0 });
        } else {
            let pu = prev.push(c);
            assert(pu.drop_last() =~= prev);
            assert(pu.last() == c);
            assert(axis_sum(pu, horiz) == axis_sum(prev, horiz)
                + if c.horiz == horiz { c.dist } else { 0 });
        }
    }
}

} // verus!
