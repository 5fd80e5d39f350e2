use vstd::prelude::*;

use rand::rngs::SmallRng;

use crate::is_digit_char;
use crate::map::Position;

verus! {

/// The carving grid: a row-major buffer of cells, each either the unset
/// sentinel `'.'` or a digit character laid down by a trail.
#[derive(Debug, PartialEq)]
pub struct Input {
    pub map: Vec<char>,
    pub width: usize,
    pub height: usize,
}

/// A cell the carver may enter: still unset, or already holding the digit
/// the trail needs next.
pub open spec fn cell_open(c: char, target: char) -> bool {
    c == '.' || c == target
}

/// The grid with one committed trail written onto it: the cell at trail
/// index `i` receives the digit character `i`.
pub open spec fn overlay_trail(g: Seq<char>, w: int, t: Seq<Position>) -> Seq<char>
    decreases t.len(),
{
    if t.len() == 0 {
        g
    } else {
        overlay_trail(g, w, t.drop_last()).update(
            t.last().y * w + t.last().x,
            crate::decimal::digit_char((t.len() - 1) as nat),
        )
    }
}

/// The grid with a list of committed trails written onto it in order; an
/// empty entry stands for a start point whose walk dead-ended and changed
/// nothing.
pub open spec fn overlay_trails(g: Seq<char>, w: int, ts: Seq<Seq<Position>>) -> Seq<char>
    decreases ts.len(),
{
    if ts.len() == 0 {
        g
    } else {
        overlay_trail(overlay_trails(g, w, ts.drop_last()), w, ts.last())
    }
}

/// Manhattan distance between two cells.
pub open spec fn manhattan(a: Position, b: Position) -> int {
    (if a.x <= b.x {
        b.x - a.x
    } else {
        a.x - b.x
    }) + (if a.y <= b.y {
        b.y - a.y
    } else {
        a.y - b.y
    })
}

/// A nonempty cell collection closed under in-bounds adjacency reaches
/// every cell of the grid: walk the column first, then the row.
proof fn lemma_reach(w: int, h: int, s: Seq<Position>, a: Position, p: Position)
    requires
        1 <= w,
        1 <= h,
        s.contains(a),
        a.x < w,
        a.y < h,
        p.x < w,
        p.y < h,
        forall|i: int, q: Position| 0 <= i < s.len() && q.x < w && q.y < h
            && #[trigger] crate::map::adjacent(s[i], q) ==> s.contains(q),
    ensures
        s.contains(p),
    decreases manhattan(a, p),
{
    if a == p {
    } else {
        let ia = choose|ia: int| 0 <= ia < s.len() && s[ia] == a;
        let a2 = if a.x < p.x {
            Position { x: (a.x + 1) as usize, y: a.y }
        } else if a.x > p.x {
            Position { x: (a.x - 1) as usize, y: a.y }
        } else if a.y < p.y {
            Position { x: a.x, y: (a.y + 1) as usize }
        } else {
            Position { x: a.x, y: (a.y - 1) as usize }
        };
        assert(crate::map::adjacent(s[ia], a2));
        assert(a2.x < w && a2.y < h);
        assert(s.contains(a2));
        assert(manhattan(a2, p) < manhattan(a, p));
        lemma_reach(w, h, s, a2, p);
    }
}

/// The cell at row-major index `k` of a `w`-wide grid.
pub open spec fn row_cell(w: int, k: int) -> Position {
    Position { x: (k % w) as usize, y: (k / w) as usize }
}

/// A collection holding every cell of a grid of at least ten cells holds at
/// least ten entries.
#[verifier::rlimit(100)]
proof fn lemma_cover_len(w: int, h: int, s: Seq<Position>)
    requires
        w >= 1,
        h >= 1,
        w * h >= 10,
        forall|p: Position| p.x < w && p.y < h ==> #[trigger] s.contains(p),
    ensures
        s.len() >= 10,
{
    assert forall|k: int| 0 <= k < 10 implies (row_cell(w, k).x < w && row_cell(w, k).y < h) by {
        vstd::arithmetic::div_mod::lemma_fundamental_div_mod(k, w);
        vstd::arithmetic::div_mod::lemma_mod_bound(k, w);
        assert(k / w < h) by (nonlinear_arith)
            requires
                0 <= k < 10,
                w >= 1,
                h >= 1,
                w * h >= 10,
                k == w * (k / w) + k % w,
                0 <= k % w < w,
        ;
    }
    assert forall|j: int, k: int| 0 <= j < k < 10 implies row_cell(w, j) != row_cell(w, k) by {
        vstd::arithmetic::div_mod::lemma_fundamental_div_mod(j, w);
        vstd::arithmetic::div_mod::lemma_fundamental_div_mod(k, w);
    }
    assert(s.contains(row_cell(w, 0)));
    assert(s.contains(row_cell(w, 1)));
    assert(s.contains(row_cell(w, 2)));
    assert(s.contains(row_cell(w, 3)));
    assert(s.contains(row_cell(w, 4)));
    assert(s.contains(row_cell(w, 5)));
    assert(s.contains(row_cell(w, 6)));
    assert(s.contains(row_cell(w, 7)));
    assert(s.contains(row_cell(w, 8)));
    assert(s.contains(row_cell(w, 9)));
    let i0 = choose|i: int| 0 <= i < s.len() && s[i] == row_cell(w, 0);
    let i1 = choose|i: int| 0 <= i < s.len() && s[i] == row_cell(w, 1);
    let i2 = choose|i: int| 0 <= i < s.len() && s[i] == row_cell(w, 2);
    let i3 = choose|i: int| 0 <= i < s.len() && s[i] == row_cell(w, 3);
    let i4 = choose|i: int| 0 <= i < s.len() && s[i] == row_cell(w, 4);
    let i5 = choose|i: int| 0 <= i < s.len() && s[i] == row_cell(w, 5);
    let i6 = choose|i: int| 0 <= i < s.len() && s[i] == row_cell(w, 6);
    let i7 = choose|i: int| 0 <= i < s.len() && s[i] == row_cell(w, 7);
    let i8 = choose|i: int| 0 <= i < s.len() && s[i] == row_cell(w, 8);
    let i9 = choose|i: int| 0 <= i < s.len() && s[i] == row_cell(w, 9);
    assert(s.len() >= 10);
}

impl Input {
    pub open spec fn wf(self) -> bool {
        self.map@.len() == self.width * self.height
    }

    /// Every cell is the unset sentinel or a digit.
    pub open spec fn cells_ok(self) -> bool {
        forall|i: int| 0 <= i < self.map@.len()
            ==> self.map@[i] == '.' || is_digit_char(#[trigger] self.map@[i])
    }

    pub open spec fn pos_in_bounds(self, p: Position) -> bool {
        p.x < self.width && p.y < self.height
    }

    /// The trail cell at index `i` was entered from some earlier trail
    /// cell: adjacent to it and, in the grid `g` the walk saw, unset or
    /// already holding the digit that cell's step was seeking.
    pub open spec fn entered_from(self, g: Seq<char>, t: Seq<Position>, i: int) -> bool {
        exists|j: int| 0 <= j < i
            && #[trigger] crate::map::adjacent(t[j], t[i])
            && cell_open(g[t[i].y * self.width + t[i].x],
                crate::decimal::digit_char((j + 1) as nat))
    }

    /// A trail the carver may commit for `start` against the grid `g` it
    /// walked: ten distinct in-bounds cells, the first the start point,
    /// every later one entered from an earlier trail cell.
    pub open spec fn committed_trail(
        self,
        g: Seq<char>,
        t: Seq<Position>,
        start: Position,
    ) -> bool {
        &&& t.len() == 10
        &&& t[0] == start
        &&& forall|i: int| 0 <= i < t.len() ==> self.pos_in_bounds(#[trigger] t[i])
        &&& forall|i: int, j: int| 0 <= i < j < t.len() ==> t[i] != t[j]
        &&& forall|i: int| 1 <= i < t.len() ==> #[trigger] self.entered_from(g, t, i)
    }

    /// The row-major index of an in-bounds position lies inside the buffer.
    pub proof fn lemma_coord_bounds(self, p: Position)
        requires
            self.wf(),
            self.pos_in_bounds(p),
        ensures
            0 <= self.spec_coord(p) < self.map@.len(),
    {
        assert(p.y * self.width + p.x < self.height * self.width) by (nonlinear_arith)
            requires
                p.y < self.height,
                p.x < self.width,
        ;
        assert(self.height * self.width == self.width * self.height) by (nonlinear_arith);
    }

    /// On a grid with every cell unset, every in-bounds adjacent cell is
    /// enterable, whatever digit the walk is seeking.
    proof fn lemma_unset_neighbours(self, p: Position, target: char)
        requires
            self.wf(),
            self.pos_in_bounds(p),
            forall|i: int| 0 <= i < self.map@.len() ==> self.map@[i] == '.',
        ensures
            forall|q: Position| q.x < self.width && q.y < self.height
                && #[trigger] crate::map::adjacent(p, q)
                ==> self.spec_neighbours(p, target).contains(q),
    {
        let s = self.spec_neighbours(p, target);
        let north = Position { x: p.x, y: (p.y - 1) as usize };
        let south = Position { x: p.x, y: (p.y + 1) as usize };
        let east = Position { x: (p.x + 1) as usize, y: p.y };
        let west = Position { x: (p.x - 1) as usize, y: p.y };
        assert forall|q: Position| q.x < self.width && q.y < self.height
            && #[trigger] crate::map::adjacent(p, q)
            implies s.contains(q) by {
            let has_n = p.y > 0 && cell_open(self.cell_at(north), target);
            let has_s = p.y < self.height - 1 && cell_open(self.cell_at(south), target);
            let has_e = p.x < self.width - 1 && cell_open(self.cell_at(east), target);
            if q == north {
                self.lemma_coord_bounds(north);
                assert(self.cell_at(north) == '.');
                assert(s[0] == q);
            } else if q == south {
                self.lemma_coord_bounds(south);
                assert(self.cell_at(south) == '.');
                assert(s[if has_n { 1int } else { 0int }] == q);
            } else if q == east {
                self.lemma_coord_bounds(east);
                assert(self.cell_at(east) == '.');
                assert(s[(if has_n { 1int } else { 0int })
                    + (if has_s { 1int } else { 0int })] == q);
            } else {
                assert(q == west);
                self.lemma_coord_bounds(west);
                assert(self.cell_at(west) == '.');
                assert(s[(if has_n { 1int } else { 0int })
                    + (if has_s { 1int } else { 0int })
                    + (if has_e { 1int } else { 0int })] == q);
            }
        }
    }

    pub open spec fn spec_coord(self, p: Position) -> int {
        p.y * self.width + p.x
    }

    pub open spec fn cell_at(self, p: Position) -> char {
        self.map@[self.spec_coord(p)]
    }

    /// A fresh grid with every cell unset.
    pub fn new(width: usize, height: usize) -> (r: Input)
        requires
            width * height <= usize::MAX,
        ensures
            r.width == width,
            r.height == height,
            r.wf(),
            r.cells_ok(),
            forall|i: int| 0 <= i < r.map@.len() ==> r.map@[i] == '.',
    {
        let len = width * height;
        let map = vec!['.'; len];
        proof {
            assert(forall|i: int| 0 <= i < map@.len() ==> map@[i] == '.');
        }
        Input { map, width, height }
    }

    /// Row-major index of a position.
    pub fn coord(&self, pos: &Position) -> (i: usize)
        requires
            self.wf(),
            self.pos_in_bounds(*pos),
        ensures
            i == self.spec_coord(*pos),
            i < self.map@.len(),
    {
        let len = self.map.len();
        proof {
            assert(pos.y * self.width + pos.x < self.height * self.width) by (nonlinear_arith)
                requires
                    pos.y < self.height,
                    pos.x < self.width,
            ;
            assert(self.height * self.width == self.width * self.height) by (nonlinear_arith);
        }
        (pos.y * self.width) + pos.x
    }

    /// The cardinal neighbours of `pos`, in North, South, East, West order,
    /// that the carver may enter for the digit `target`.
    pub open spec fn spec_neighbours(self, pos: Position, target: char) -> Seq<Position> {
        let north = Position { x: pos.x, y: (pos.y - 1) as usize };
        let south = Position { x: pos.x, y: (pos.y + 1) as usize };
        let east = Position { x: (pos.x + 1) as usize, y: pos.y };
        let west = Position { x: (pos.x - 1) as usize, y: pos.y };
        (if pos.y > 0 && cell_open(self.cell_at(north), target) {
            seq![north]
        } else {
            Seq::<Position>::empty()
        }) + (if pos.y < self.height - 1 && cell_open(self.cell_at(south), target) {
            seq![south]
        } else {
            Seq::<Position>::empty()
        }) + (if pos.x < self.width - 1 && cell_open(self.cell_at(east), target) {
            seq![east]
        } else {
            Seq::<Position>::empty()
        }) + (if pos.x > 0 && cell_open(self.cell_at(west), target) {
            seq![west]
        } else {
            Seq::<Position>::empty()
        })
    }

    fn neighbours(&self, pos: &Position, target: char) -> (r: Vec<Position>)
        requires
            self.wf(),
            self.pos_in_bounds(*pos),
        ensures
            r@ == self.spec_neighbours(*pos, target),
            forall|q: int| 0 <= q < r@.len() ==> self.pos_in_bounds(#[trigger] r@[q]),
    {
        let mut neighbours: Vec<Position> = Vec::new();

        if pos.y > 0 {
            let n = Position { x: pos.x, y: pos.y - 1 };
            let c = self.map[self.coord(&n)];
            if c == '.' || c == target {
                neighbours.push(n);
            }
        }
        if pos.y < self.height - 1 {
            let n = Position { x: pos.x, y: pos.y + 1 };
            let c = self.map[self.coord(&n)];
            if c == '.' || c == target {
                neighbours.push(n);
            }
        }
        if pos.x < self.width - 1 {
            let n = Position { x: pos.x + 1, y: pos.y };
            let c = self.map[self.coord(&n)];
            if c == '.' || c == target {
                neighbours.push(n);
            }
        }
        if pos.x > 0 {
            let n = Position { x: pos.x - 1, y: pos.y };
            let c = self.map[self.coord(&n)];
            if c == '.' || c == target {
                neighbours.push(n);
            }
        }
        proof {
            assert(neighbours@ =~= self.spec_neighbours(*pos, target));
        }
        neighbours
    }

    proof fn lemma_carve_neighbour(self, pos: Position, target: char, q: int)
        requires
            self.pos_in_bounds(pos),
            0 <= q < self.spec_neighbours(pos, target).len(),
        ensures
            self.pos_in_bounds(self.spec_neighbours(pos, target)[q]),
            crate::map::adjacent(pos, self.spec_neighbours(pos, target)[q]),
            cell_open(self.cell_at(self.spec_neighbours(pos, target)[q]), target),
    {
    }

    /// Every cell the walk could enter from the trail cell at index `i` is
    /// already on the trail: a walk that stopped short did so for want of
    /// an open cell.
    pub open spec fn walk_exhausted_at(self, t: Seq<Position>, i: int) -> bool {
        forall|q: int| 0 <= q < self.spec_neighbours(t[i],
            crate::decimal::digit_char((i + 1) as nat)).len()
            ==> t.contains(#[trigger] self.spec_neighbours(t[i],
                crate::decimal::digit_char((i + 1) as nat))[q])
    }

    /// The trail cell at index `i` was entered from some earlier trail
    /// cell: adjacent to it, and open for the digit that cell's step was
    /// seeking.
    pub open spec fn walk_entered(self, t: Seq<Position>, i: int) -> bool {
        exists|j: int| 0 <= j < i
            && #[trigger] crate::map::adjacent(t[j], t[i])
            && cell_open(self.cell_at(t[i]),
                crate::decimal::digit_char((j + 1) as nat))
    }

    /// One constrained, non-backtracking depth-first step of the carver: put
    /// the current cell on the trail, and while the trail is short of ten
    /// cells, walk on through openable neighbours in a shuffled order.  The
    /// trail only grows, stays inside the grid, never exceeds ten cells, and
    /// every cell after the start was entered from an earlier trail cell;
    /// if the walk ends short of ten cells, every cell enterable from any
    /// new trail cell is already on the trail.
    fn depth_first(&self, trail: &mut Vec<Position>, current: &Position, rng: &mut SmallRng)
        requires
            self.wf(),
            old(trail)@.len() <= 9,
            self.pos_in_bounds(*current),
            forall|q: int| 0 <= q < old(trail)@.len()
                ==> self.pos_in_bounds(#[trigger] old(trail)@[q]),
            forall|i: int, j: int| 0 <= i < j < old(trail)@.len()
                ==> old(trail)@[i] != old(trail)@[j],
            !old(trail)@.contains(*current),
        ensures
            old(trail)@.is_prefix_of(final(trail)@),
            final(trail)@[old(trail)@.len() as int] == *current,
            final(trail)@.len() > old(trail)@.len(),
            final(trail)@.len() <= 10,
            forall|q: int| 0 <= q < final(trail)@.len()
                ==> self.pos_in_bounds(#[trigger] final(trail)@[q]),
            forall|i: int, j: int| 0 <= i < j < final(trail)@.len()
                ==> final(trail)@[i] != final(trail)@[j],
            final(trail)@.len() < 10 ==> forall|i: int|
                old(trail)@.len() <= i < final(trail)@.len()
                    ==> #[trigger] self.walk_exhausted_at(final(trail)@, i),
            forall|i: int| old(trail)@.len() < i < final(trail)@.len()
                ==> #[trigger] self.walk_entered(final(trail)@, i),
        decreases 10 - old(trail)@.len(),
    {
        let ghost t0 = old(trail)@;
        let current_val = trail.len();
        trail.push(*current);
        proof {
            assert(t0.is_prefix_of(trail@)) by {
                assert(t0 =~= trail@.subrange(0, t0.len() as int));
            }
            assert forall|i: int, j: int| 0 <= i < j < trail@.len()
                implies trail@[i] != trail@[j] by {
                if j == trail@.len() - 1 {
                    assert(!t0.contains(*current));
                    assert(t0[i] == trail@[i]);
                }
            }
        }
        if trail.len() == 10 {
            return;
        }

        let target = crate::digit_to_char((current_val + 1) as u32);
        let ghost tgt = crate::decimal::digit_char((t0.len() + 1) as nat);
        let mut neighbours = self.neighbours(current, target);
        crate::rng::shuffle_positions(&mut neighbours, rng);
        proof {
            assert(target == tgt);
            assert forall|q: int| 0 <= q < neighbours@.len()
                implies self.pos_in_bounds(#[trigger] neighbours@[q])
                    && crate::map::adjacent(*current, neighbours@[q])
                    && cell_open(self.cell_at(neighbours@[q]), tgt) by {
                assert(neighbours@.contains(neighbours@[q]));
                let s = self.spec_neighbours(*current, tgt);
                assert(s.contains(neighbours@[q]));
                let k = choose|k: int| 0 <= k < s.len() && s[k] == neighbours@[q];
                self.lemma_carve_neighbour(*current, tgt, k);
            }
        }

        let ghost t1 = trail@;
        let mut j: usize = 0;
        while j < neighbours.len()
            invariant
                t0 == old(trail)@,
                self.wf(),
                t0.len() <= 8,
                current_val == t0.len(),
                tgt == crate::decimal::digit_char((t0.len() + 1) as nat),
                forall|q: int| 0 <= q < neighbours@.len()
                    ==> self.pos_in_bounds(#[trigger] neighbours@[q])
                        && crate::map::adjacent(*current, neighbours@[q])
                        && cell_open(self.cell_at(neighbours@[q]), tgt),
                forall|p: Position| neighbours@.contains(p)
                    <==> self.spec_neighbours(*current, tgt).contains(p),
                t1.is_prefix_of(trail@),
                trail@.len() > t0.len(),
                t1.len() == t0.len() + 1,
                trail@[t0.len() as int] == *current,
                trail@.len() <= 10,
                forall|q: int| 0 <= q < trail@.len()
                    ==> self.pos_in_bounds(#[trigger] trail@[q]),
                forall|i: int, jj: int| 0 <= i < jj < trail@.len()
                    ==> trail@[i] != trail@[jj],
                trail@.len() < 10 ==> forall|q: int| 0 <= q < j
                    ==> trail@.contains(#[trigger] neighbours@[q]),
                trail@.len() < 10 ==> forall|i: int| t1.len() <= i < trail@.len()
                    ==> #[trigger] self.walk_exhausted_at(trail@, i),
                forall|i: int| t1.len() <= i < trail@.len()
                    ==> #[trigger] self.walk_entered(trail@, i),
            decreases neighbours@.len() - j,
        {
            let pos = neighbours[j];
            if !crate::map::contains_pos(trail, &pos) && current_val < 9 && trail.len() < 10 {
                let ghost t2 = trail@;
                self.depth_first(trail, &pos, rng);
                proof {
                    crate::map::lemma_prefix_trans(t1, t2, trail@);
                    crate::map::lemma_prefix_index(t2, trail@);
                    crate::map::lemma_prefix_contains(t2, trail@);
                    assert(trail@[t0.len() as int] == t2[t0.len() as int]);
                    assert(trail@[t2.len() as int] == pos);
                    assert(trail@.contains(neighbours@[j as int]));
                    // the cells that stood before this step keep their facts
                    if trail@.len() < 10 {
                        assert forall|q: int| 0 <= q < j
                            implies trail@.contains(#[trigger] neighbours@[q]) by {
                            assert(t2.contains(neighbours@[q]));
                        }
                        assert forall|i: int| t1.len() <= i < trail@.len()
                            implies #[trigger] self.walk_exhausted_at(trail@, i) by {
                            if i < t2.len() {
                                assert(self.walk_exhausted_at(t2, i));
                                assert(trail@[i] == t2[i]);
                                assert forall|q: int| 0 <= q < self.spec_neighbours(trail@[i],
                                    crate::decimal::digit_char((i + 1) as nat)).len()
                                    implies trail@.contains(
                                        #[trigger] self.spec_neighbours(trail@[i],
                                            crate::decimal::digit_char((i + 1) as nat))[q]) by {
                                    assert(t2.contains(self.spec_neighbours(t2[i],
                                        crate::decimal::digit_char((i + 1) as nat))[q]));
                                }
                            }
                        }
                    }
                    // the step's own cell was entered from this call's cell
                    assert forall|i: int| t1.len() <= i < trail@.len()
                        implies #[trigger] self.walk_entered(trail@, i) by {
                        if i < t2.len() {
                            assert(self.walk_entered(t2, i));
                            let jj = choose|jj: int| 0 <= jj < i
                                && #[trigger] crate::map::adjacent(t2[jj], t2[i])
                                && cell_open(self.cell_at(t2[i]),
                                    crate::decimal::digit_char((jj + 1) as nat));
                            assert(trail@[jj] == t2[jj] && trail@[i] == t2[i]);
                            assert(crate::map::adjacent(trail@[jj], trail@[i]));
                        } else if i == t2.len() {
                            assert(trail@[i] == pos);
                            assert(crate::map::adjacent(trail@[t0.len() as int], trail@[i]));
                            assert(cell_open(self.cell_at(trail@[i]),
                                crate::decimal::digit_char((t0.len() + 1) as nat)));
                        }
                    }
                }
            }
            j += 1;
        }
        proof {
            crate::map::lemma_prefix_trans(t0, t1, trail@);
            if trail@.len() < 10 {
                assert forall|i: int| t0.len() <= i < trail@.len()
                    implies #[trigger] self.walk_exhausted_at(trail@, i) by {
                    if i == t0.len() {
                        assert(trail@[i] == *current);
                        assert forall|q: int| 0 <= q < self.spec_neighbours(trail@[i],
                            crate::decimal::digit_char((i + 1) as nat)).len()
                            implies trail@.contains(
                                #[trigger] self.spec_neighbours(trail@[i],
                                    crate::decimal::digit_char((i + 1) as nat))[q]) by {
                            let s = self.spec_neighbours(*current, tgt);
                            assert(s.contains(s[q]));
                            assert(neighbours@.contains(s[q]));
                            let k = choose|k: int| 0 <= k < neighbours@.len()
                                && neighbours@[k] == s[q];
                            assert(trail@.contains(neighbours@[k]));
                        }
                    }
                }
            }
        }
    }

    /// For each start point in order, attempt one carving walk; only a walk
    /// that reaches the full ten cells is committed, writing the digits 0
    /// through 9 along it; a shorter walk is discarded and changes nothing
    /// for that start point.  The final grid is exactly the old grid with
    /// one committed-or-empty overlay per start point, in order: no cell
    /// off those trails changes.
    #[verifier::rlimit(100)]
    #[verifier::spinoff_prover]
    pub fn add_trails(&mut self, starting_points: &[Position], rng: &mut SmallRng)
        requires
            old(self).wf(),
            old(self).cells_ok(),
            forall|q: int| 0 <= q < starting_points@.len()
                ==> old(self).pos_in_bounds(#[trigger] starting_points@[q]),
        ensures
            final(self).width == old(self).width,
            final(self).height == old(self).height,
            final(self).map@.len() == old(self).map@.len(),
            final(self).wf(),
            final(self).cells_ok(),
            forall|i: int| 0 <= i < final(self).map@.len()
                ==> final(self).map@[i] == old(self).map@[i]
                    || is_digit_char(#[trigger] final(self).map@[i]),
            exists|ts: Seq<Seq<Position>>| {
                &&& ts.len() == starting_points@.len()
                &&& forall|k: int| 0 <= k < ts.len() ==> (#[trigger] ts[k]).len() == 0
                    || old(self).committed_trail(
                        overlay_trails(old(self).map@, old(self).width as int, ts.take(k)),
                        ts[k], starting_points@[k])
                &&& final(self).map@ == #[trigger] overlay_trails(old(self).map@,
                    old(self).width as int, ts)
                &&& ((forall|i: int| 0 <= i < old(self).map@.len()
                        ==> old(self).map@[i] == '.')
                    && old(self).map@.len() >= 10 && starting_points@.len() >= 1)
                    ==> ts[0].len() == 10
            },
    {
        let ghost m0 = *old(self);
        let ghost mut ts: Seq<Seq<Position>> = Seq::<Seq<Position>>::empty();
        let mut si: usize = 0;
        while si < starting_points.len()
            invariant
                m0 == *old(self),
                self.width == m0.width,
                self.height == m0.height,
                self.map@.len() == m0.map@.len(),
                self.wf(),
                self.cells_ok(),
                forall|q: int| 0 <= q < starting_points@.len()
                    ==> m0.pos_in_bounds(#[trigger] starting_points@[q]),
                forall|i: int| 0 <= i < self.map@.len()
                    ==> self.map@[i] == m0.map@[i] || is_digit_char(#[trigger] self.map@[i]),
                si <= starting_points@.len(),
                ts.len() == si,
                forall|k: int| 0 <= k < ts.len() ==> (#[trigger] ts[k]).len() == 0
                    || m0.committed_trail(
                        overlay_trails(m0.map@, m0.width as int, ts.take(k)),
                        ts[k], starting_points@[k]),
                self.map@ == overlay_trails(m0.map@, m0.width as int, ts),
                ((forall|i: int| 0 <= i < m0.map@.len() ==> m0.map@[i] == '.')
                    && m0.map@.len() >= 10 && ts.len() >= 1)
                    ==> ts[0].len() == 10,
            decreases starting_points@.len() - si,
        {
            let mut trail: Vec<Position> = Vec::new();
            self.depth_first(&mut trail, &starting_points[si], rng);
            let ghost pre = self.map@;
            proof {
                assert(ts.take(si as int) =~= ts);
                assert(pre == overlay_trails(m0.map@, m0.width as int, ts.take(si as int)));
            }
            if trail.len() == 10 {
                proof {
                    assert(trail@[0] == starting_points@[si as int]);
                    assert(trail@.len() == 10);
                    assert forall|q: int| 0 <= q < trail@.len()
                        implies m0.pos_in_bounds(#[trigger] trail@[q]) by {
                        assert(self.pos_in_bounds(trail@[q]));
                    }
                    assert(forall|i: int, j: int| 0 <= i < j < trail@.len()
                        ==> trail@[i] != trail@[j]);
                    assert forall|i: int| 1 <= i < trail@.len()
                        implies #[trigger] m0.entered_from(pre, trail@, i) by {
                        assert(self.walk_entered(trail@, i));
                        let jj = choose|jj: int| 0 <= jj < i
                            && #[trigger] crate::map::adjacent(trail@[jj], trail@[i])
                            && cell_open(self.cell_at(trail@[i]),
                                crate::decimal::digit_char((jj + 1) as nat));
                        assert(self.width == m0.width);
                        assert(pre == self.map@);
                        assert(self.spec_coord(trail@[i])
                            == trail@[i].y * m0.width + trail@[i].x);
                        assert(self.cell_at(trail@[i])
                            == pre[trail@[i].y * m0.width + trail@[i].x]);
                        assert(crate::map::adjacent(trail@[jj], trail@[i])
                            && cell_open(pre[trail@[i].y * m0.width + trail@[i].x],
                                crate::decimal::digit_char((jj + 1) as nat)));
                    }
                    assert(m0.committed_trail(pre, trail@, starting_points@[si as int]));
                    assert(self.map@ =~= overlay_trail(pre, m0.width as int, trail@.take(0)));
                }
                let mut idx: usize = 0;
                while idx < trail.len()
                    invariant
                        self.width == m0.width,
                        self.height == m0.height,
                        self.map@.len() == m0.map@.len(),
                        self.wf(),
                        trail@.len() == 10,
                        idx <= 10,
                        forall|q: int| 0 <= q < trail@.len()
                            ==> self.pos_in_bounds(#[trigger] trail@[q]),
                        forall|i: int| 0 <= i < self.map@.len()
                            ==> self.map@[i] == pre[i] || is_digit_char(#[trigger] self.map@[i]),
                        self.map@ == overlay_trail(pre, m0.width as int,
                            trail@.take(idx as int)),
                    decreases trail@.len() - idx,
                {
                    let c = self.coord(&trail[idx]);
                    let ghost before = self.map@;
                    self.map[c] = crate::digit_to_char(idx as u32);
                    proof {
                        assert(trail@.take(idx + 1).drop_last() =~= trail@.take(idx as int));
                        assert(trail@.take(idx + 1).last() == trail@[idx as int]);
                        assert(overlay_trail(pre, m0.width as int, trail@.take(idx + 1))
                            == before.update(
                                trail@[idx as int].y * m0.width + trail@[idx as int].x,
                                crate::decimal::digit_char(idx as nat)));
                        assert(self.map@ =~= overlay_trail(pre, m0.width as int,
                            trail@.take(idx + 1)));
                    }
                    idx += 1;
                }
                proof {
                    assert(self.cells_ok()) by {
                        assert(forall|i: int| 0 <= i < self.map@.len()
                            ==> self.map@[i] == pre[i] || is_digit_char(#[trigger] self.map@[i]));
                    }
                    assert(trail@.take(10) =~= trail@);
                    let ghost ts_old = ts;
                    ts = ts.push(trail@);
                    assert(ts.drop_last() =~= ts_old);
                    assert(overlay_trails(m0.map@, m0.width as int, ts)
                        == overlay_trail(overlay_trails(m0.map@, m0.width as int,
                            ts_old), m0.width as int, trail@));
                    assert forall|k: int| 0 <= k < ts.len()
                        implies (#[trigger] ts[k]).len() == 0
                            || m0.committed_trail(
                                overlay_trails(m0.map@, m0.width as int, ts.take(k)),
                                ts[k], starting_points@[k]) by {
                        assert(ts.take(k) =~= ts_old.take(k));
                        if k < ts_old.len() {
                            assert(ts[k] == ts_old[k]);
                        } else {
                            assert(ts[k] == trail@);
                            assert(ts.take(k) =~= ts_old);
                        }
                    }
                }
            } else {
                proof {
                    if si == 0 && (forall|i: int| 0 <= i < m0.map@.len()
                        ==> m0.map@[i] == '.') && m0.map@.len() >= 10 {
                        // a walk on a fresh grid cannot dead-end: it stops
                        // only when the whole connected grid is on the trail
                        let w = m0.width as int;
                        let h = m0.height as int;
                        assert(w >= 1 && h >= 1) by (nonlinear_arith)
                            requires
                                w == m0.width as int,
                                h == m0.height as int,
                                m0.map@.len() == m0.width * m0.height,
                                m0.map@.len() >= 10,
                        ;
                        assert(pre == m0.map@);
                        assert forall|i: int, q: Position| 0 <= i < trail@.len()
                            && q.x < w && q.y < h
                            && #[trigger] crate::map::adjacent(trail@[i], q)
                            implies trail@.contains(q) by {
                            let tg = crate::decimal::digit_char((i + 1) as nat);
                            self.lemma_unset_neighbours(trail@[i], tg);
                            let sn = self.spec_neighbours(trail@[i], tg);
                            assert(sn.contains(q));
                            let k = choose|k: int| 0 <= k < sn.len() && sn[k] == q;
                            assert(self.walk_exhausted_at(trail@, i));
                            assert(trail@.contains(sn[k]));
                        }
                        assert(trail@.contains(trail@[0]));
                        assert forall|p: Position| p.x < w && p.y < h
                            implies #[trigger] trail@.contains(p) by {
                            lemma_reach(w, h, trail@, trail@[0], p);
                        }
                        lemma_cover_len(w, h, trail@);
                        assert(false);
                    }
                    let ghost ts_old = ts;
                    ts = ts.push(Seq::<Position>::empty());
                    assert(ts.drop_last() =~= ts_old);
                    assert(overlay_trails(m0.map@, m0.width as int, ts)
                        == overlay_trail(overlay_trails(m0.map@, m0.width as int,
                            ts_old), m0.width as int, Seq::<Position>::empty()));
                    assert(overlay_trail(overlay_trails(m0.map@, m0.width as int,
                        ts_old), m0.width as int, Seq::<Position>::empty())
                        == overlay_trails(m0.map@, m0.width as int, ts_old));
                    assert forall|k: int| 0 <= k < ts.len()
                        implies (#[trigger] ts[k]).len() == 0
                            || m0.committed_trail(
                                overlay_trails(m0.map@, m0.width as int, ts.take(k)),
                                ts[k], starting_points@[k]) by {
                        assert(ts.take(k) =~= ts_old.take(k));
                        if k < ts_old.len() {
                            assert(ts[k] == ts_old[k]);
                        }
                    }
                }
            }
            si += 1;
        }
        proof {
            assert(ts.len() == starting_points@.len());
            assert(final(self).map@ == overlay_trails(old(self).map@,
                old(self).width as int, ts));
        }
    }

    /// The grid as text: each row's cells in order, every row closed by a
    /// newline.
    pub open spec fn spec_text(self) -> Seq<char> {
        crate::text::rows_text(self.map@, self.width as int, self.height as int)
    }

    pub fn to_text(&self) -> (r: String)
        requires
            self.wf(),
            self.width >= 1,
            self.cells_ok(),
        ensures
            r@ == self.spec_text(),
    {
        let ghost w = self.width as int;
        let mut out = String::new();
        let mut y: usize = 0;
        proof {
            assert(out@ =~= crate::text::rows_text(self.map@, w, 0));
        }
        while y < self.height
            invariant
                self.wf(),
                self.width >= 1,
                self.cells_ok(),
                w == self.width as int,
                y <= self.height,
                out@ == crate::text::rows_text(self.map@, w, y as int),
            decreases self.height - y,
        {
            let mut x: usize = 0;
            proof {
                assert(0 <= y as int * w && y as int * w + w <= self.map@.len())
                    by (nonlinear_arith)
                    requires
                        0 <= y < self.height,
                        w == self.width as int,
                        w >= 1,
                        self.map@.len() == self.width * self.height,
                ;
                assert(self.map@.subrange(y as int * w, y as int * w + 0) =~= Seq::<char>::empty());
                assert(out@ =~= crate::text::rows_text(self.map@, w, y as int)
                    + self.map@.subrange(y as int * w, y as int * w + 0));
            }
            while x < self.width
                invariant
                    self.wf(),
                    self.width >= 1,
                    self.cells_ok(),
                    w == self.width as int,
                    y < self.height,
                    x <= self.width,
                    0 <= y as int * w && y as int * w + w <= self.map@.len(),
                    out@ == crate::text::rows_text(self.map@, w, y as int)
                        + self.map@.subrange(y as int * w, y as int * w + x as int),
                decreases self.width - x,
            {
                let ci = self.coord(&Position { x, y });
                let c = self.map[ci];
                out.append(cell_str(c));
                proof {
                    assert(self.map@.subrange(y as int * w, y as int * w + x as int + 1)
                        =~= self.map@.subrange(y as int * w, y as int * w + x as int)
                            + seq![self.map@[y as int * w + x as int]]);
                    assert(out@ =~= crate::text::rows_text(self.map@, w, y as int)
                        + self.map@.subrange(y as int * w, y as int * w + (x + 1) as int));
                }
                x += 1;
            }
            out.append("\n");
            proof {
                assert((y + 1) as int * w == y as int * w + w) by (nonlinear_arith);
                assert(out@ =~= crate::text::rows_text(self.map@, w, y as int + 1));
            }
            y += 1;
        }
        out
    }

    /// Replace every cell still unset with an independently drawn random
    /// digit; committed cells are untouched, and a grid with no unset cell
    /// is returned unchanged with the generator not consulted.  Afterwards
    /// every cell is a digit character.
    pub fn fill(&mut self, rng: &mut SmallRng)
        requires
            old(self).wf(),
            old(self).cells_ok(),
        ensures
            final(self).width == old(self).width,
            final(self).height == old(self).height,
            final(self).wf(),
            final(self).cells_ok(),
            forall|i: int| 0 <= i < final(self).map@.len()
                ==> is_digit_char(#[trigger] final(self).map@[i]),
            forall|i: int| 0 <= i < final(self).map@.len() && old(self).map@[i] != '.'
                ==> final(self).map@[i] == old(self).map@[i],
            (forall|i: int| 0 <= i < old(self).map@.len() ==> old(self).map@[i] != '.')
                ==> final(self).map@ == old(self).map@ && *final(rng) == *old(rng),
    {
        let ghost m0 = *old(self);
        let len = self.map.len();
        let mut i: usize = 0;
        while i < len
            invariant
                self.width == m0.width,
                self.height == m0.height,
                self.map@.len() == m0.map@.len(),
                len == m0.map@.len(),
                m0.cells_ok(),
                i <= len,
                forall|q: int| 0 <= q < i ==> is_digit_char(#[trigger] self.map@[q]),
                forall|q: int| i <= q < len ==> #[trigger] self.map@[q] == m0.map@[q],
                forall|q: int| 0 <= q < len && m0.map@[q] != '.'
                    ==> #[trigger] self.map@[q] == m0.map@[q],
                (forall|q: int| 0 <= q < m0.map@.len() ==> m0.map@[q] != '.')
                    ==> self.map@ == m0.map@ && *rng == *old(rng),
            decreases len - i,
        {
            let c = self.map[i];
            if c == '.' {
                let d = crate::rng::rng_digit(rng);
                self.map[i] = crate::digit_to_char(d);
            } else {
                proof {
                    assert(is_digit_char(m0.map@[i as int]));
                }
            }
            i += 1;
        }
    }
}

/// The one-character string for a grid cell.
pub fn cell_str(c: char) -> (r: &'static str)
    requires
        c == '.' || is_digit_char(c),
    ensures
        r@ == seq![c],
{
    if c == '.' {
        proof {
            reveal_strlit(".");
            assert("."@ =~= seq!['.']);
        }
        "."
    } else {
        let d = c as u32 - 48;
        let r = crate::decimal::digit_str(d);
        proof {
            assert(crate::decimal::digit_char(d as nat) == c);
            assert(r@ =~= seq![c]);
        }
        r
    }
}

} // verus!
