use vstd::prelude::*;

verus! {

/// A cell of the grid, addressed by column `x` and row `y`, both 0-indexed.
#[derive(Debug, PartialEq, Eq, Hash, Copy, Clone, Structural)]
pub struct Position {
    pub x: usize,
    pub y: usize,
}

/// Two positions are adjacent when they differ by one step along exactly one axis.
pub open spec fn adjacent(a: Position, b: Position) -> bool {
    ||| (a.x == b.x && (b.y == a.y + 1 || a.y == b.y + 1))
    ||| (a.y == b.y && (b.x == a.x + 1 || a.x == b.x + 1))
}

/// A parsed digit grid together with its trailheads and the trails found on it.
#[derive(Debug, PartialEq)]
pub struct TrailMap {
    pub map: Vec<u8>,
    pub width: usize,
    pub height: usize,
    pub trailheads: Vec<Position>,
    pub paths: Vec<Vec<Position>>,
}

impl TrailMap {
    /// The shape every parsed grid satisfies: positive dimensions, a row-major
    /// buffer of exactly `width * height` cells, every cell a digit value.
    pub open spec fn wf(self) -> bool {
        &&& self.width >= 1
        &&& self.height >= 1
        &&& self.map@.len() == self.width * self.height
        &&& forall|i: int| 0 <= i < self.map@.len() ==> self.map@[i] <= 9
    }

    pub open spec fn pos_in_bounds(self, p: Position) -> bool {
        p.x < self.width && p.y < self.height
    }

    pub open spec fn spec_coord(self, p: Position) -> int {
        p.y * self.width + p.x
    }

    pub open spec fn value_at(self, p: Position) -> u8 {
        self.map@[self.spec_coord(p)]
    }

    /// Every trailhead is an in-bounds cell holding the digit 0.
    pub open spec fn trailheads_wf(self) -> bool {
        forall|i: int| 0 <= i < self.trailheads@.len()
            ==> self.pos_in_bounds(#[trigger] self.trailheads@[i])
                && self.value_at(self.trailheads@[i]) == 0
    }

    /// Row-major index of a position.
    pub fn coord(&self, pos: &Position) -> (i: usize)
        requires
            self.wf(),
            self.pos_in_bounds(*pos),
        ensures
            i == self.spec_coord(*pos),
            i < self.map@.len(),
    {
        let len = self.map.len();
        proof {
            assert(pos.y * self.width + pos.x < self.height * self.width) by (nonlinear_arith)
                requires
                    pos.y < self.height,
                    pos.x < self.width,
            ;
            assert(self.height * self.width == self.width * self.height) by (nonlinear_arith);
        }
        (pos.y * self.width) + pos.x
    }

    /// The cardinal neighbours of `pos` that fall inside the grid, in
    /// North, South, East, West order.
    pub open spec fn spec_neighbours(self, pos: Position) -> Seq<Position> {
        let north = if pos.y > 0 {
            seq![Position { x: pos.x, y: (pos.y - 1) as usize }]
        } else {
            Seq::<Position>::empty()
        };
        let south = if pos.y < self.height - 1 {
            seq![Position { x: pos.x, y: (pos.y + 1) as usize }]
        } else {
            Seq::<Position>::empty()
        };
        let east = if pos.x < self.width - 1 {
            seq![Position { x: (pos.x + 1) as usize, y: pos.y }]
        } else {
            Seq::<Position>::empty()
        };
        let west = if pos.x > 0 {
            seq![Position { x: (pos.x - 1) as usize, y: pos.y }]
        } else {
            Seq::<Position>::empty()
        };
        north + south + east + west
    }

    pub fn neighbours(&self, pos: &Position) -> (r: Vec<Position>)
        requires
            self.width >= 1,
            self.height >= 1,
        ensures
            r@ == self.spec_neighbours(*pos),
    {
        let mut neighbours: Vec<Position> = Vec::new();

        if pos.y > 0 {
            neighbours.push(Position { x: pos.x, y: pos.y - 1 });
        }
        if pos.y < self.height - 1 {
            neighbours.push(Position { x: pos.x, y: pos.y + 1 });
        }
        if pos.x < self.width - 1 {
            neighbours.push(Position { x: pos.x + 1, y: pos.y });
        }
        if pos.x > 0 {
            neighbours.push(Position { x: pos.x - 1, y: pos.y });
        }
        proof {
            assert(neighbours@ =~= self.spec_neighbours(*pos));
        }
        neighbours
    }
}

impl TrailMap {
    /// One legal step of a trail: stay inside the grid, move to an adjacent
    /// cell, and climb by exactly one digit.
    pub open spec fn step_ok(self, a: Position, b: Position) -> bool {
        &&& self.pos_in_bounds(b)
        &&& adjacent(a, b)
        &&& self.value_at(b) == self.value_at(a) + 1
    }

    /// A partial trail: inside the grid, no repeated position, every
    /// consecutive pair a legal step.
    pub open spec fn chain_ok(self, p: Seq<Position>) -> bool {
        &&& forall|i: int| 0 <= i < p.len() ==> self.pos_in_bounds(#[trigger] p[i])
        &&& forall|i: int, j: int| 0 <= i < j < p.len() ==> p[i] != p[j]
        &&& forall|i: int| 0 <= i < p.len() - 1 ==> self.step_ok(#[trigger] p[i], p[i + 1])
    }

    /// A trail recorded while extending the partial trail `vis`: a legal
    /// chain that starts where `vis` starts and ends on the digit `end`.
    pub open spec fn recorded_from(self, vis: Seq<Position>, p: Seq<Position>, end: u8) -> bool {
        &&& self.chain_ok(p)
        &&& p.len() >= 2
        &&& vis.len() >= 1 && p.len() >= 1 && p[0] == vis[0]
        &&& self.value_at(p.last()) == end
    }

    /// A complete discovered trail: a legal chain from a 0-cell to a 9-cell.
    pub open spec fn trail_ok(self, p: Seq<Position>) -> bool {
        &&& self.chain_ok(p)
        &&& p.len() >= 2
        &&& self.value_at(p[0]) == 0
        &&& self.value_at(p.last()) == 9
    }

    /// The row-major index of an in-bounds position lies inside the buffer,
    /// so its cell holds a digit value.
    pub proof fn lemma_coord_bounds(self, p: Position)
        requires
            self.wf(),
            self.pos_in_bounds(p),
        ensures
            0 <= self.spec_coord(p) < self.map@.len(),
            self.value_at(p) <= 9,
    {
        assert(p.y * self.width + p.x < self.height * self.width) by (nonlinear_arith)
            requires
                p.y < self.height,
                p.x < self.width,
        ;
        assert(self.height * self.width == self.width * self.height) by (nonlinear_arith);
    }

    proof fn lemma_neighbour_step(self, c: Position, j: int)
        requires
            self.pos_in_bounds(c),
            0 <= j < self.spec_neighbours(c).len(),
        ensures
            self.pos_in_bounds(self.spec_neighbours(c)[j]),
            adjacent(c, self.spec_neighbours(c)[j]),
    {
    }

    /// The recorded paths as position sequences.
    pub open spec fn paths_view(ps: Seq<Vec<Position>>) -> Seq<Seq<Position>> {
        ps.map_values(|v: Vec<Position>| v@)
    }

    /// The first neighbour from index `i` on, in scan order, that is not on
    /// the trail yet and whose digit both continues the climb and equals
    /// `end`: the one finishing step the search records directly.
    pub open spec fn found_finish(
        self,
        vis: Seq<Position>,
        ns: Seq<Position>,
        val: u8,
        end: u8,
        i: int,
    ) -> Option<Position>
        decreases ns.len() - i,
    {
        if i < 0 || i >= ns.len() {
            None
        } else if !vis.contains(ns[i]) && self.value_at(ns[i]) == val + 1
            && self.value_at(ns[i]) == end {
            Some(ns[i])
        } else {
            self.found_finish(vis, ns, val, end, i + 1)
        }
    }

    /// Every path the search records while the trail `vis` is on the stack:
    /// the direct finishing step, if any, then the recordings of each
    /// continuing, non-terminal neighbour in scan order.
    pub open spec fn search_paths(self, vis: Seq<Position>, end: u8) -> Seq<Seq<Position>>
        decreases 9 - self.value_at(vis.last()), 2nat, 0nat
        when vis.len() >= 1 && self.value_at(vis.last()) <= 9
    {
        let cur = vis.last();
        let val = self.value_at(cur);
        let ns = self.spec_neighbours(cur);
        (match self.found_finish(vis, ns, val, end, 0) {
            Some(p) => seq![vis.push(p)],
            None => Seq::<Seq<Position>>::empty(),
        }) + self.search_list(vis, ns, end, 0)
    }

    pub open spec fn search_list(
        self,
        vis: Seq<Position>,
        ns: Seq<Position>,
        end: u8,
        i: int,
    ) -> Seq<Seq<Position>>
        decreases 9 - self.value_at(vis.last()), 1nat, ns.len() - i
        when vis.len() >= 1 && self.value_at(vis.last()) <= 9
    {
        let val = self.value_at(vis.last());
        if i < 0 || i >= ns.len() {
            Seq::<Seq<Position>>::empty()
        } else {
            (if !vis.contains(ns[i]) && self.value_at(ns[i]) != end
                && self.value_at(ns[i]) == val + 1 && self.value_at(ns[i]) <= 9 {
                self.search_paths(vis.push(ns[i]), end)
            } else {
                Seq::<Seq<Position>>::empty()
            }) + self.search_list(vis, ns, end, i + 1)
        }
    }

    /// Every path the whole search records: the recordings from each
    /// trailhead from index `i` on, in order.
    pub open spec fn found_from(self, i: int) -> Seq<Seq<Position>>
        decreases self.trailheads@.len() - i
        when self.trailheads_wf()
    {
        if i < 0 || i >= self.trailheads@.len() {
            Seq::<Seq<Position>>::empty()
        } else {
            self.search_paths(seq![self.trailheads@[i]], 9) + self.found_from(i + 1)
        }
    }

    /// What the search appends to `paths`, as position sequences.
    pub open spec fn spec_found(self) -> Seq<Seq<Position>> {
        self.found_from(0)
    }

    /// The search reads only the grid, never the recorded paths or the
    /// trailhead list, so two maps over the same grid record the same paths.
    proof fn lemma_search_agree(m1: TrailMap, m2: TrailMap, vis: Seq<Position>, end: u8)
        requires
            m1.map@ == m2.map@,
            m1.width == m2.width,
            m1.height == m2.height,
            vis.len() >= 1,
            m1.value_at(vis.last()) <= 9,
        ensures
            m1.search_paths(vis, end) == m2.search_paths(vis, end),
        decreases 9 - m1.value_at(vis.last()), 2nat, 0nat,
    {
        let cur = vis.last();
        let val = m1.value_at(cur);
        let ns = m1.spec_neighbours(cur);
        assert(m2.spec_neighbours(cur) == ns);
        assert(forall|p: Position| m1.value_at(p) == m2.value_at(p));
        Self::lemma_finish_agree(m1, m2, vis, ns, val, end, 0);
        Self::lemma_search_list_agree(m1, m2, vis, ns, end, 0);
    }

    proof fn lemma_finish_agree(
        m1: TrailMap,
        m2: TrailMap,
        vis: Seq<Position>,
        ns: Seq<Position>,
        val: u8,
        end: u8,
        i: int,
    )
        requires
            m1.map@ == m2.map@,
            m1.width == m2.width,
            m1.height == m2.height,
        ensures
            m1.found_finish(vis, ns, val, end, i) == m2.found_finish(vis, ns, val, end, i),
        decreases ns.len() - i,
    {
        if 0 <= i < ns.len() {
            assert(m1.value_at(ns[i]) == m2.value_at(ns[i]));
            Self::lemma_finish_agree(m1, m2, vis, ns, val, end, i + 1);
        }
    }

    proof fn lemma_search_list_agree(
        m1: TrailMap,
        m2: TrailMap,
        vis: Seq<Position>,
        ns: Seq<Position>,
        end: u8,
        i: int,
    )
        requires
            m1.map@ == m2.map@,
            m1.width == m2.width,
            m1.height == m2.height,
            vis.len() >= 1,
            m1.value_at(vis.last()) <= 9,
        ensures
            m1.search_list(vis, ns, end, i) == m2.search_list(vis, ns, end, i),
        decreases 9 - m1.value_at(vis.last()), 1nat, ns.len() - i,
    {
        if 0 <= i < ns.len() {
            let val = m1.value_at(vis.last());
            assert(m2.value_at(vis.last()) == val);
            assert(m1.value_at(ns[i]) == m2.value_at(ns[i]));
            if !vis.contains(ns[i]) && m1.value_at(ns[i]) != end
                && m1.value_at(ns[i]) == val + 1 && m1.value_at(ns[i]) <= 9 {
                Self::lemma_search_agree(m1, m2, vis.push(ns[i]), end);
            }
            Self::lemma_search_list_agree(m1, m2, vis, ns, end, i + 1);
        }
    }

    /// The whole search reads only the grid and the trailhead list, never
    /// the recorded paths, so two maps equal on those record the same paths.
    pub proof fn lemma_found_agree(m1: TrailMap, m2: TrailMap)
        requires
            m1.map@ == m2.map@,
            m1.width == m2.width,
            m1.height == m2.height,
            m1.trailheads@ == m2.trailheads@,
            m1.trailheads_wf(),
        ensures
            m1.spec_found() == m2.spec_found(),
    {
        assert(m2.trailheads_wf()) by {
            assert(forall|i: int| 0 <= i < m2.trailheads@.len()
                ==> m2.pos_in_bounds(#[trigger] m2.trailheads@[i])
                    && m2.value_at(m2.trailheads@[i]) == 0);
        }
        Self::lemma_found_from_agree(m1, m2, 0);
    }

    proof fn lemma_found_from_agree(m1: TrailMap, m2: TrailMap, i: int)
        requires
            m1.map@ == m2.map@,
            m1.width == m2.width,
            m1.height == m2.height,
            m1.trailheads@ == m2.trailheads@,
            m1.trailheads_wf(),
            m2.trailheads_wf(),
        ensures
            m1.found_from(i) == m2.found_from(i),
        decreases m1.trailheads@.len() - i,
    {
        if 0 <= i < m1.trailheads@.len() {
            let th = m1.trailheads@[i];
            assert(m1.value_at(th) == 0);
            Self::lemma_search_agree(m1, m2, seq![th], 9);
            Self::lemma_found_from_agree(m1, m2, i + 1);
        }
    }

    /// A direct finishing step returned by the scan satisfies the scan's
    /// own conditions.
    proof fn lemma_found_finish_props(
        self,
        vis: Seq<Position>,
        ns: Seq<Position>,
        val: u8,
        end: u8,
        i: int,
    )
        requires
            self.found_finish(vis, ns, val, end, i) is Some,
        ensures
            ({
                let p = self.found_finish(vis, ns, val, end, i)->0;
                &&& ns.contains(p)
                &&& !vis.contains(p)
                &&& self.value_at(p) == val + 1
                &&& self.value_at(p) == end
            }),
        decreases ns.len() - i,
    {
        if 0 <= i < ns.len() {
            if !vis.contains(ns[i]) && self.value_at(ns[i]) == val + 1
                && self.value_at(ns[i]) == end {
            } else {
                self.lemma_found_finish_props(vis, ns, val, end, i + 1);
            }
        }
    }

    /// Every path the search records while `vis` is on the stack is a legal
    /// chain from the start of `vis` to a cell valued `end`.
    proof fn lemma_search_sound(self, vis: Seq<Position>, end: u8)
        requires
            self.wf(),
            vis.len() >= 1,
            self.chain_ok(vis),
            self.value_at(vis.last()) <= 9,
        ensures
            forall|k: int| 0 <= k < self.search_paths(vis, end).len()
                ==> self.recorded_from(vis, #[trigger] self.search_paths(vis, end)[k], end),
        decreases 9 - self.value_at(vis.last()), 2nat, 0nat,
    {
        let cur = vis.last();
        let val = self.value_at(cur);
        let ns = self.spec_neighbours(cur);
        let base = (match self.found_finish(vis, ns, val, end, 0) {
            Some(p) => seq![vis.push(p)],
            None => Seq::<Seq<Position>>::empty(),
        });
        if self.found_finish(vis, ns, val, end, 0) is Some {
            let p = self.found_finish(vis, ns, val, end, 0)->0;
            self.lemma_found_finish_props(vis, ns, val, end, 0);
            let j = choose|j: int| 0 <= j < ns.len() && ns[j] == p;
            self.lemma_neighbour_step(cur, j);
            assert(forall|q: int| 0 <= q < vis.len() ==> vis.push(p)[q] == vis[q]);
            assert(self.chain_ok(vis.push(p)));
            assert(self.recorded_from(vis, vis.push(p), end));
        }
        self.lemma_search_list_sound(vis, ns, end, 0);
        assert forall|k: int| 0 <= k < self.search_paths(vis, end).len()
            implies self.recorded_from(vis, #[trigger] self.search_paths(vis, end)[k],
                end) by {
            assert(self.search_paths(vis, end)
                == base + self.search_list(vis, ns, end, 0));
            if k < base.len() {
                assert(self.search_paths(vis, end)[k] == base[k]);
            } else {
                assert(self.search_paths(vis, end)[k]
                    == self.search_list(vis, ns, end, 0)[k - base.len()]);
            }
        }
    }

    proof fn lemma_search_list_sound(self, vis: Seq<Position>, ns: Seq<Position>, end: u8, i: int)
        requires
            self.wf(),
            vis.len() >= 1,
            self.chain_ok(vis),
            self.value_at(vis.last()) <= 9,
            ns == self.spec_neighbours(vis.last()),
        ensures
            forall|k: int| 0 <= k < self.search_list(vis, ns, end, i).len()
                ==> self.recorded_from(vis,
                    #[trigger] self.search_list(vis, ns, end, i)[k], end),
        decreases 9 - self.value_at(vis.last()), 1nat, ns.len() - i,
    {
        let val = self.value_at(vis.last());
        if 0 <= i < ns.len() {
            let head = (if !vis.contains(ns[i]) && self.value_at(ns[i]) != end
                && self.value_at(ns[i]) == val + 1 && self.value_at(ns[i]) <= 9 {
                self.search_paths(vis.push(ns[i]), end)
            } else {
                Seq::<Seq<Position>>::empty()
            });
            if !vis.contains(ns[i]) && self.value_at(ns[i]) != end
                && self.value_at(ns[i]) == val + 1 && self.value_at(ns[i]) <= 9 {
                self.lemma_neighbour_step(vis.last(), i);
                assert(forall|q: int| 0 <= q < vis.len()
                    ==> vis.push(ns[i])[q] == vis[q]);
                assert(self.chain_ok(vis.push(ns[i])));
                self.lemma_search_sound(vis.push(ns[i]), end);
            }
            self.lemma_search_list_sound(vis, ns, end, i + 1);
            assert forall|k: int| 0 <= k < self.search_list(vis, ns, end, i).len()
                implies self.recorded_from(vis,
                    #[trigger] self.search_list(vis, ns, end, i)[k], end) by {
                assert(self.search_list(vis, ns, end, i)
                    == head + self.search_list(vis, ns, end, i + 1));
                if k < head.len() {
                    assert(head[k] == self.search_paths(vis.push(ns[i]), end)[k]);
                    assert(self.recorded_from(vis.push(ns[i]), head[k], end));
                    assert(head[k][0] == vis.push(ns[i])[0]);
                } else {
                    assert(self.search_list(vis, ns, end, i)[k]
                        == self.search_list(vis, ns, end, i + 1)[k - head.len()]);
                }
            }
        }
    }

    /// Record, for the first in-scan-order neighbour of the trail's tip whose
    /// digit both continues the climb and equals `end`, the finished trail;
    /// then extend the climb recursively through every other continuing
    /// neighbour.  Every path pushed onto `self.paths` is a legal chain from
    /// the start of `visited` to a cell valued `end`.
    #[verifier::rlimit(100)]
    fn get_paths(&mut self, visited: &mut Vec<Position>, end: u8)
        requires
            old(self).wf(),
            old(visited)@.len() >= 1,
            old(self).chain_ok(old(visited)@),
        ensures
            final(self).map@ == old(self).map@,
            final(self).width == old(self).width,
            final(self).height == old(self).height,
            final(self).trailheads@ == old(self).trailheads@,
            final(visited)@ == old(visited)@,
            old(self).paths@.is_prefix_of(final(self).paths@),
            forall|k: int| old(self).paths@.len() <= k < final(self).paths@.len()
                ==> old(self).recorded_from(old(visited)@, final(self).paths@[k]@, end),
            Self::paths_view(final(self).paths@)
                == Self::paths_view(old(self).paths@)
                    + old(self).search_paths(old(visited)@, end),
        decreases 9 - old(self).value_at(old(visited)@.last()),
    {
        let ghost m = *old(self);
        let ghost vis0 = old(visited)@;
        let current: Position = visited[visited.len() - 1];
        let ci = self.coord(&current);
        let val: u8 = self.map[ci];
        proof {
            assert(val == m.value_at(current));
            assert(val <= 9);
        }
        let neighbours = self.neighbours(&current);

        // check for a finishing step
        let mut finish: Option<Position> = None;
        let mut j: usize = 0;
        proof {
            assert(m.found_finish(vis0, neighbours@, val, end,
                neighbours@.len() as int) is None);
        }
        while j < neighbours.len()
            invariant_except_break
                j <= neighbours@.len(),
                finish is None,
                m.found_finish(vis0, neighbours@, val, end, 0)
                    == m.found_finish(vis0, neighbours@, val, end, j as int),
            invariant
                *self == m,
                visited@ == vis0,
                neighbours@ == m.spec_neighbours(current),
                m.pos_in_bounds(current),
                val == m.value_at(current),
                val <= 9,
                m.wf(),
                m.chain_ok(vis0),
                vis0.len() >= 1,
                current == vis0.last(),
                m.found_finish(vis0, neighbours@, val, end,
                    neighbours@.len() as int) is None,
                finish is Some ==> {
                    &&& m.pos_in_bounds(finish->0)
                    &&& adjacent(current, finish->0)
                    &&& !vis0.contains(finish->0)
                    &&& m.value_at(finish->0) == val + 1
                    &&& m.value_at(finish->0) == end
                    &&& m.found_finish(vis0, neighbours@, val, end, 0) == finish
                },
            ensures
                *self == m,
                visited@ == vis0,
                finish is Some ==> {
                    &&& m.pos_in_bounds(finish->0)
                    &&& adjacent(current, finish->0)
                    &&& !vis0.contains(finish->0)
                    &&& m.value_at(finish->0) == val + 1
                    &&& m.value_at(finish->0) == end
                    &&& m.found_finish(vis0, neighbours@, val, end, 0) == finish
                },
                finish is None
                    ==> m.found_finish(vis0, neighbours@, val, end, 0) is None,
            decreases neighbours@.len() - j,
        {
            let pos = neighbours[j];
            proof {
                m.lemma_neighbour_step(current, j as int);
            }
            if !contains_pos(visited, &pos) {
                let nvi = self.coord(&pos);
                let nv = self.map[nvi];
                proof {
                    assert(nv == m.value_at(pos));
                }
                if nv == val + 1 && nv == end {
                    finish = Some(pos);
                    proof {
                        assert(m.found_finish(vis0, neighbours@, val, end, j as int)
                            == Some(pos));
                    }
                    break;
                }
            }
            proof {
                assert(m.found_finish(vis0, neighbours@, val, end, j as int)
                    == m.found_finish(vis0, neighbours@, val, end, j + 1));
            }
            j += 1;
        }
        let ghost base = (match m.found_finish(vis0, neighbours@, val, end, 0) {
            Some(p) => seq![vis0.push(p)],
            None => Seq::<Seq<Position>>::empty(),
        });
        if let Some(pos) = finish {
            visited.push(pos);
            let done = visited.clone();
            proof {
                assert(done@ =~= vis0.push(pos));
                assert(forall|i: int| 0 <= i < vis0.len() ==> vis0.push(pos)[i] == vis0[i]);
                assert(m.chain_ok(vis0.push(pos)));
            }
            self.paths.push(done);
            let _ = visited.pop();
            proof {
                assert(visited@ =~= vis0);
                assert(self.paths@ == m.paths@.push(done));
                assert(m.paths@.is_prefix_of(self.paths@)) by {
                    assert(m.paths@ =~= self.paths@.subrange(0, m.paths@.len() as int));
                }
                assert(Self::paths_view(self.paths@)
                    =~= Self::paths_view(m.paths@) + base);
            }
        }
        proof {
            assert(m.paths@.is_prefix_of(self.paths@)) by {
                assert(m.paths@ =~= self.paths@.subrange(0, m.paths@.len() as int));
            }
            if finish is None {
                assert(m.found_finish(vis0, neighbours@, val, end,
                    neighbours@.len() as int) is None);
                assert(Self::paths_view(self.paths@)
                    =~= Self::paths_view(m.paths@) + base);
            }
        }

        // recurse into every continuing, non-terminal neighbour
        let mut j2: usize = 0;
        while j2 < neighbours.len()
            invariant
                m == *old(self),
                vis0 == old(visited)@,
                self.map@ == m.map@,
                self.width == m.width,
                self.height == m.height,
                self.trailheads@ == m.trailheads@,
                visited@ == vis0,
                neighbours@ == m.spec_neighbours(current),
                m.pos_in_bounds(current),
                val == m.value_at(current),
                val <= 9,
                m.wf(),
                m.chain_ok(vis0),
                vis0.len() >= 1,
                current == vis0.last(),
                m.paths@.is_prefix_of(self.paths@),
                base == (match m.found_finish(vis0, neighbours@, val, end, 0) {
                    Some(p) => seq![vis0.push(p)],
                    None => Seq::<Seq<Position>>::empty(),
                }),
                Self::paths_view(self.paths@) + m.search_list(vis0, neighbours@, end, j2 as int)
                    == Self::paths_view(m.paths@) + base
                        + m.search_list(vis0, neighbours@, end, 0),
            decreases neighbours@.len() - j2,
        {
            let pos = neighbours[j2];
            proof {
                m.lemma_neighbour_step(current, j2 as int);
            }
            let ghost skipped = !(
                !vis0.contains(neighbours@[j2 as int])
                && m.value_at(neighbours@[j2 as int]) != end
                && m.value_at(neighbours@[j2 as int]) == val + 1
                && m.value_at(neighbours@[j2 as int]) <= 9
            );
            proof {
                assert(m.search_list(vis0, neighbours@, end, j2 as int)
                    == (if !skipped {
                        m.search_paths(vis0.push(neighbours@[j2 as int]), end)
                    } else {
                        Seq::<Seq<Position>>::empty()
                    }) + m.search_list(vis0, neighbours@, end, j2 + 1));
            }
            if !contains_pos(visited, &pos) {
                let nvi = self.coord(&pos);
                let nv = self.map[nvi];
                proof {
                    assert(nv == m.value_at(pos));
                    assert(nv <= 9);
                }
                if nv != end && nv == val + 1 {
                    let ghost pre_paths = self.paths@;
                    visited.push(pos);
                    proof {
                        assert(visited@ =~= vis0.push(pos));
                        assert(forall|i: int| 0 <= i < vis0.len()
                            ==> vis0.push(pos)[i] == vis0[i]);
                        assert(m.chain_ok(vis0.push(pos)));
                    }
                    proof {
                        assert(visited@.last() == pos);
                        assert(nv <= 9);
                        assert(self.value_at(pos) == val + 1);
                        assert(m.value_at(vis0.last()) == val);
                        assert(0 <= 9 - self.value_at(visited@.last()) < 9 - m.value_at(vis0.last()));
                    }
                    let ghost m_call = *self;
                    self.get_paths(visited, end);
                    let _ = visited.pop();
                    proof {
                        assert(visited@ =~= vis0);
                        assert(!skipped);
                        Self::lemma_search_agree(m_call, m, vis0.push(pos), end);
                        assert(Self::paths_view(self.paths@)
                            == Self::paths_view(pre_paths)
                                + m.search_paths(vis0.push(pos), end));
                        assert((Self::paths_view(pre_paths)
                                + m.search_paths(vis0.push(pos), end))
                            + m.search_list(vis0, neighbours@, end, j2 + 1)
                            =~= Self::paths_view(pre_paths)
                                + (m.search_paths(vis0.push(pos), end)
                                    + m.search_list(vis0, neighbours@, end, j2 + 1)));
                        lemma_prefix_trans(m.paths@, pre_paths, self.paths@);
                    }
                } else {
                    proof {
                        assert(skipped);
                        assert(Seq::<Seq<Position>>::empty()
                            + m.search_list(vis0, neighbours@, end, j2 + 1)
                            =~= m.search_list(vis0, neighbours@, end, j2 + 1));
                    }
                }
            } else {
                proof {
                    assert(skipped);
                    assert(Seq::<Seq<Position>>::empty()
                        + m.search_list(vis0, neighbours@, end, j2 + 1)
                        =~= m.search_list(vis0, neighbours@, end, j2 + 1));
                }
            }
            j2 += 1;
        }
        proof {
            assert(m.search_list(vis0, neighbours@, end, neighbours@.len() as int)
                =~= Seq::<Seq<Position>>::empty());
            assert(Self::paths_view(self.paths@)
                + m.search_list(vis0, neighbours@, end, neighbours@.len() as int)
                =~= Self::paths_view(self.paths@));
            assert(m.search_paths(vis0, end)
                == base + m.search_list(vis0, neighbours@, end, 0));
            assert(Self::paths_view(self.paths@)
                =~= Self::paths_view(m.paths@) + m.search_paths(vis0, end));
            m.lemma_search_sound(vis0, end);
            assert forall|k: int| m.paths@.len() <= k < self.paths@.len()
                implies m.recorded_from(vis0, #[trigger] self.paths@[k]@, end) by {
                assert(Self::paths_view(self.paths@)[k] == self.paths@[k]@);
                assert(Self::paths_view(self.paths@)[k]
                    == m.search_paths(vis0, end)[k - m.paths@.len()]);
            }
        }
    }

    /// Every path the whole search records is a complete trail.
    proof fn lemma_found_from_sound(self, i: int)
        requires
            self.wf(),
            self.trailheads_wf(),
        ensures
            forall|k: int| 0 <= k < self.found_from(i).len()
                ==> self.trail_ok(#[trigger] self.found_from(i)[k]),
        decreases self.trailheads@.len() - i,
    {
        if 0 <= i < self.trailheads@.len() {
            let th = self.trailheads@[i];
            let vis = seq![th];
            assert(self.pos_in_bounds(th) && self.value_at(th) == 0);
            assert(vis.last() == th);
            assert(self.chain_ok(vis));
            self.lemma_search_sound(vis, 9);
            self.lemma_found_from_sound(i + 1);
            assert forall|k: int| 0 <= k < self.found_from(i).len()
                implies self.trail_ok(#[trigger] self.found_from(i)[k]) by {
                assert(self.found_from(i)
                    == self.search_paths(vis, 9) + self.found_from(i + 1));
                let hl = self.search_paths(vis, 9).len() as int;
                if k < hl {
                    assert(self.found_from(i)[k] == self.search_paths(vis, 9)[k]);
                    assert(self.recorded_from(vis, self.search_paths(vis, 9)[k], 9));
                    assert(self.search_paths(vis, 9)[k][0] == th);
                } else {
                    assert(self.found_from(i)[k] == self.found_from(i + 1)[k - hl]);
                }
            }
        }
    }

    /// Search from every trailhead; every path appended to `self.paths` is a
    /// legal chain of adjacent cells climbing 0 through 9 with no repeats.
    pub fn find_all_paths(&mut self)
        requires
            old(self).wf(),
            old(self).trailheads_wf(),
        ensures
            final(self).map@ == old(self).map@,
            final(self).width == old(self).width,
            final(self).height == old(self).height,
            final(self).trailheads@ == old(self).trailheads@,
            old(self).paths@.is_prefix_of(final(self).paths@),
            forall|k: int| old(self).paths@.len() <= k < final(self).paths@.len()
                ==> old(self).trail_ok(final(self).paths@[k]@),
            Self::paths_view(final(self).paths@)
                == Self::paths_view(old(self).paths@) + old(self).spec_found(),
    {
        let ghost m = *old(self);
        proof {
            assert(m.found_from(m.trailheads@.len() as int)
                =~= Seq::<Seq<Position>>::empty());
        }
        let starts = self.trailheads.clone();
        proof {
            assert(starts@ =~= m.trailheads@);
        }
        let mut visited: Vec<Position> = Vec::new();
        let mut t: usize = 0;
        let ghost mut added: Seq<Seq<Position>> = Seq::<Seq<Position>>::empty();
        proof {
            assert(Self::paths_view(self.paths@) =~= Self::paths_view(m.paths@) + added);
            assert(added + m.found_from(0) =~= m.found_from(0));
        }
        while t < starts.len()
            invariant
                m == *old(self),
                self.map@ == m.map@,
                self.width == m.width,
                self.height == m.height,
                self.trailheads@ == m.trailheads@,
                starts@ == m.trailheads@,
                visited@.len() == 0,
                m.wf(),
                m.trailheads_wf(),
                m.paths@.is_prefix_of(self.paths@),
                Self::paths_view(self.paths@) == Self::paths_view(m.paths@) + added,
                added + m.found_from(t as int) == m.found_from(0),
            decreases starts@.len() - t,
        {
            let start = starts[t];
            proof {
                assert(start == m.trailheads@[t as int]);
                assert(m.pos_in_bounds(start) && m.value_at(start) == 0);
            }
            let ghost pre_paths = self.paths@;
            visited.push(start);
            proof {
                assert(visited@ =~= Seq::<Position>::empty().push(start));
                assert(m.chain_ok(visited@));
            }
            let ghost vis1 = visited@;
            let ghost m_call = *self;
            self.get_paths(&mut visited, 9);
            visited.truncate(0);
            proof {
                assert(visited@ =~= Seq::<Position>::empty());
                assert(vis1 =~= seq![m.trailheads@[t as int]]);
                assert(m.value_at(vis1.last()) == 0);
                Self::lemma_search_agree(m_call, m, vis1, 9);
                assert(m.found_from(t as int)
                    == m.search_paths(seq![m.trailheads@[t as int]], 9)
                        + m.found_from(t + 1));
                assert(Self::paths_view(self.paths@)
                    == (Self::paths_view(m.paths@) + added)
                        + m.search_paths(vis1, 9));
                assert((Self::paths_view(m.paths@) + added) + m.search_paths(vis1, 9)
                    =~= Self::paths_view(m.paths@) + (added + m.search_paths(vis1, 9)));
                assert((added + m.search_paths(vis1, 9)) + m.found_from(t + 1)
                    =~= added + (m.search_paths(vis1, 9) + m.found_from(t + 1)));
                added = added + m.search_paths(vis1, 9);
                lemma_prefix_trans(m.paths@, pre_paths, self.paths@);
            }
            t += 1;
        }
        proof {
            assert(added =~= m.found_from(0)) by {
                assert(m.found_from(t as int) =~= Seq::<Seq<Position>>::empty());
                assert(added + m.found_from(t as int) =~= added);
            }
            m.lemma_found_from_sound(0);
            assert forall|k: int| m.paths@.len() <= k < self.paths@.len()
                implies m.trail_ok(#[trigger] self.paths@[k]@) by {
                assert(Self::paths_view(self.paths@)[k] == self.paths@[k]@);
                assert(Self::paths_view(self.paths@)[k]
                    == added[k - m.paths@.len()]);
                assert(added[k - m.paths@.len()]
                    == m.found_from(0)[k - m.paths@.len()]);
            }
        }
    }
}


impl TrailMap {
    /// Parse grid text: one row per line, surrounding whitespace trimmed,
    /// every character a decimal digit.  Cells are stored row-major; every
    /// 0-cell is recorded as a trailhead in scan order; no paths yet.
    #[verifier::rlimit(100)]
    pub fn parse(input: &str) -> (r: TrailMap)
        requires
            parse_ok(input@),
        ensures
            r.wf(),
            r.trailheads_wf(),
            r.height == crate::text::rows_of(input@).len(),
            r.width == crate::text::trimmed(crate::text::rows_of(input@)[0]).len(),
            forall|y: int, x: int| 0 <= y < r.height && 0 <= x < r.width
                ==> #[trigger] r.map@[y * r.width + x]
                    == crate::text::digit_val(crate::text::trimmed(crate::text::rows_of(input@)[y])[x]),
            r.trailheads@ == zeros_upto(r.map@, r.width as int, r.map@.len() as int),
            r.paths@ == Seq::<Vec<Position>>::empty(),
    {
        let chars = crate::text::str_chars(input);
        let n = chars.len();
        let ghost s = input@;
        let ghost rows = crate::text::rows_of(s);
        let ghost w: int = crate::text::trimmed(rows[0]).len() as int;
        proof {
            crate::text::lemma_split_len(s);
            if s.len() > 0 && s.last() == '\n' {
                crate::text::lemma_split_trailing_newline(s);
            }
            assert(rows.len() >= 1);
            assert(n > 0) by {
                if s.len() == 0 {
                    assert(crate::text::split_lines(s) == seq![Seq::<char>::empty()]);
                    assert(rows[0] =~= Seq::<char>::empty());
                    assert(crate::text::trimmed(rows[0]).len() == 0);
                }
            }
            assert(s.skip(0) =~= s);
        }
        let mut grid: Vec<u8> = Vec::new();
        let mut trailheads: Vec<Position> = Vec::new();
        let mut height: usize = 0;
        let mut width: usize = 0;
        let mut i: usize = 0;

        while i < n
            invariant_except_break
                i <= n,
                i == n ==> height as int == rows.len(),
                height <= i,
                crate::text::split_lines(s.skip(i as int))
                    == crate::text::split_lines(s).skip(height as int),
            invariant
                chars@ == s,
                n == s.len(),
                n > 0,
                parse_ok(s),
                rows == crate::text::rows_of(s),
                w == crate::text::trimmed(rows[0]).len(),
                w >= 1,
                rows.len() >= 1,
                height as int <= rows.len(),
                height >= 1 ==> width as int == w,
                grid@.len() == height as int * w,
                forall|y: int, x: int| 0 <= y < height && 0 <= x < w
                    ==> #[trigger] grid@[y * w + x]
                        == crate::text::digit_val(crate::text::trimmed(rows[y])[x]),
                forall|q: int| 0 <= q < grid@.len() ==> #[trigger] grid@[q] <= 9,
                trailheads@ == zeros_upto(grid@, w, grid@.len() as int),
            ensures
                height as int == rows.len(),
                height >= 1,
                width as int == w,
                grid@.len() == height as int * w,
                forall|y: int, x: int| 0 <= y < height && 0 <= x < w
                    ==> #[trigger] grid@[y * w + x]
                        == crate::text::digit_val(crate::text::trimmed(rows[y])[x]),
                forall|q: int| 0 <= q < grid@.len() ==> #[trigger] grid@[q] <= 9,
                trailheads@ == zeros_upto(grid@, w, grid@.len() as int),
            decreases n - i,
        {
            // find the end of the current line
            let mut e = i;
            while e < n && chars[e] != '\n'
                invariant
                    chars@ == s,
                    n == s.len(),
                    i <= e <= n,
                    forall|j: int| i <= j < e ==> s[j] != '\n',
                decreases n - e,
            {
                e += 1;
            }
            proof {
                let su = s.skip(i as int);
                assert(forall|j: int| 0 <= j < e - i ==> su[j] != '\n');
                crate::text::lemma_split_scan(su, e - i);
                crate::text::lemma_split_len(s.skip(e + 1));
                assert(su.take(e - i) =~= s.subrange(i as int, e as int));
                if e < n {
                    assert(su[e - i] == s[e as int]);
                    assert(su.skip(e - i + 1) =~= s.skip(e + 1));
                }
            }
            let ghost piece = s.subrange(i as int, e as int);
            proof {
                let sl = crate::text::split_lines(s);
                if e == n {
                    assert(s.skip(i as int) =~= piece);
                    assert(crate::text::split_lines(s.skip(i as int)) == seq![piece]);
                    assert(s[n - 1] != '\n');
                    assert(s.last() != '\n');
                    assert(rows == sl);
                    assert(sl.skip(height as int).len() == 1);
                    assert((height as int) < rows.len());
                    assert(sl.skip(height as int)[0] == piece);
                    assert(rows[height as int] == piece);
                } else {
                    assert(crate::text::split_lines(s.skip(i as int))
                        == seq![piece] + crate::text::split_lines(s.skip(e + 1)));
                    assert(sl.skip(height as int).len() >= 2);
                    assert(height as int + 2 <= sl.len());
                    if s.len() > 0 && s.last() == '\n' {
                        assert(rows.len() == sl.len() - 1);
                    } else {
                        assert(rows.len() == sl.len());
                    }
                    assert((height as int) < rows.len());
                    assert(sl.skip(height as int)[0] == piece);
                    assert(rows[height as int] == piece);
                }
            }
            // trim the line
            let mut a = i;
            while a < e && crate::text::is_space_char(chars[a])
                invariant
                    chars@ == s,
                    n == s.len(),
                    i <= a <= e <= n,
                    forall|j: int| i <= j < a ==> crate::text::is_space(s[j]),
                decreases e - a,
            {
                a += 1;
            }
            let mut b = e;
            while b > a && crate::text::is_space_char(chars[b - 1])
                invariant
                    chars@ == s,
                    n == s.len(),
                    i <= a <= b <= e <= n,
                    forall|j: int| b <= j < e ==> crate::text::is_space(s[j]),
                decreases b - a,
            {
                b -= 1;
            }
            let ghost trow = crate::text::trimmed(rows[height as int]);
            proof {
                crate::text::lemma_trim_front_scan(piece, a - i);
                assert(piece.skip(a - i) =~= s.subrange(a as int, e as int));
                let fr = s.subrange(a as int, e as int);
                crate::text::lemma_trim_back_scan(fr, b - a);
                assert(fr.take(b - a) =~= s.subrange(a as int, b as int));
                assert(trow == s.subrange(a as int, b as int));
                assert(trow.len() == w);
                assert(b - a == w);
                assert(crate::text::digits_only(trow));
            }
            if height == 0 {
                width = b - a;
            }
            // store the row's digits
            let mut k = a;
            while k < b
                invariant
                    chars@ == s,
                    n == s.len(),
                    i <= a <= k <= b <= n,
                    b - a == w,
                    w >= 1,
                    trow == s.subrange(a as int, b as int),
                    crate::text::digits_only(trow),
                    rows == crate::text::rows_of(s),
                    trow == crate::text::trimmed(rows[height as int]),
                    (height as int) < rows.len(),
                    w == crate::text::trimmed(rows[0]).len(),
                    grid@.len() == height as int * w + (k - a),
                    forall|y: int, x: int| 0 <= y < height && 0 <= x < w
                        ==> #[trigger] grid@[y * w + x]
                            == crate::text::digit_val(crate::text::trimmed(rows[y])[x]),
                    forall|x: int| 0 <= x < k - a
                        ==> grid@[height as int * w + x] == crate::text::digit_val(#[trigger] trow[x]),
                    forall|q: int| 0 <= q < grid@.len() ==> #[trigger] grid@[q] <= 9,
                    trailheads@ == zeros_upto(grid@, w, grid@.len() as int),
                decreases b - k,
            {
                let c = chars[k];
                proof {
                    assert(c == trow[k - a]);
                    assert(crate::is_digit_char(c));
                }
                let cv = c as u32;
                let val = (cv - 48) as u8;
                proof {
                    assert(val == crate::text::digit_val(c));
                    assert(val <= 9);
                }
                if val == 0 {
                    trailheads.push(Position { x: k - a, y: height });
                }
                let ghost g0 = grid@;
                grid.push(val);
                proof {
                    let idx = height as int * w + (k - a);
                    lemma_zeros_agree(g0, grid@, w, idx);
                    assert(zeros_upto(grid@, w, idx + 1) == zeros_upto(grid@, w, idx)
                        + if grid@[idx] == 0 {
                            seq![Position { x: (idx % w) as usize, y: (idx / w) as usize }]
                        } else {
                            Seq::<Position>::empty()
                        });
                    vstd::arithmetic::div_mod::lemma_fundamental_div_mod_converse(
                        idx, w, height as int, k - a);
                    assert(idx % w == k - a && idx / w == height as int);
                    assert forall|y: int, x: int| 0 <= y < height && 0 <= x < w
                        implies #[trigger] grid@[y * w + x]
                            == crate::text::digit_val(crate::text::trimmed(rows[y])[x])
                    by {
                        assert(y * w + x < height as int * w) by (nonlinear_arith)
                            requires
                                0 <= y < height as int,
                                0 <= x < w,
                        ;
                        assert(grid@[y * w + x] == g0[y * w + x]);
                    }
                    if val == 0 {
                        assert(trailheads@ =~= zeros_upto(grid@, w, idx + 1));
                    } else {
                        assert(trailheads@ =~= zeros_upto(grid@, w, idx + 1));
                    }
                }
                k += 1;
            }
            height += 1;
            proof {
                assert(grid@.len() == height as int * w) by (nonlinear_arith)
                    requires
                        grid@.len() == (height as int - 1) * w + w,
                ;
                assert forall|y: int, x: int| 0 <= y < height && 0 <= x < w
                    implies #[trigger] grid@[y * w + x]
                        == crate::text::digit_val(crate::text::trimmed(rows[y])[x])
                by {
                    if y == height as int - 1 {
                        assert(trow == crate::text::trimmed(rows[y]));
                        assert(grid@[y * w + x] == crate::text::digit_val(trow[x]));
                    }
                }
            }
            if e < n {
                i = e + 1;
                proof {
                    let sl = crate::text::split_lines(s);
                    assert(crate::text::split_lines(s.skip(i as int))
                        == sl.skip(height as int - 1).drop_first());
                    assert(sl.skip(height as int - 1).drop_first()
                        =~= sl.skip(height as int));
                    if i == n {
                        assert(s[n - 1] == '\n');
                        assert(s.last() == '\n');
                        assert(s.skip(n as int) =~= Seq::<char>::empty());
                        assert(crate::text::split_lines(Seq::<char>::empty())
                            == seq![Seq::<char>::empty()]);
                        assert(sl.skip(height as int).len() == 1);
                        assert(rows.len() == sl.len() - 1);
                        assert(height as int == rows.len());
                    }
                }
            } else {
                proof {
                    let sl = crate::text::split_lines(s);
                    assert(sl.skip(height as int - 1).len() == 1);
                    assert(rows.len() == sl.len());
                    assert(height as int == rows.len());
                }
                break;
            }
        }

        let r = TrailMap {
            map: grid,
            width,
            height,
            trailheads,
            paths: Vec::new(),
        };
        proof {
            assert(r.map@.len() == r.width * r.height) by (nonlinear_arith)
                requires
                    r.map@.len() == r.height as int * w,
                    r.width as int == w,
            ;
            lemma_zeros_props(r.map@, w, r.height as int, r.map@.len() as int);
            assert(r.trailheads_wf()) by {
                assert(forall|q: int| 0 <= q < r.trailheads@.len()
                    ==> r.pos_in_bounds(#[trigger] r.trailheads@[q])
                        && r.value_at(r.trailheads@[q]) == 0);
            }
        }
        r
    }
}

impl TrailMap {
    /// The number of distinct complete climbs from `p` up to a 9-cell:
    /// one when `p` already holds 9, else the counts over every neighbour
    /// holding the next digit.  No visited set is needed: values strictly
    /// climb, so no climb revisits a cell.
    pub open spec fn count_from(self, p: Position) -> nat
        decreases 9 - self.value_at(p), 2nat, 0nat
        when self.value_at(p) <= 9
    {
        if self.value_at(p) == 9 {
            1
        } else {
            self.count_list(self.spec_neighbours(p), self.value_at(p))
        }
    }

    /// The climbs through the candidates of `s` whose value is `v + 1`.
    pub open spec fn count_list(self, s: Seq<Position>, v: u8) -> nat
        decreases 9 - v, 1nat, s.len()
        when v < 9
    {
        if s.len() == 0 {
            0
        } else {
            (if self.pos_in_bounds(s[0]) && self.value_at(s[0]) == v + 1 {
                self.count_from(s[0])
            } else {
                0
            }) + self.count_list(s.drop_first(), v)
        }
    }

    /// The rating of the map: the number of distinct complete trails,
    /// summed over every trailhead, without the scan-order bias of
    /// `find_all_paths`.
    pub open spec fn spec_rating(self) -> nat {
        self.rating_list(self.trailheads@)
    }

    pub open spec fn rating_list(self, ths: Seq<Position>) -> nat
        decreases ths.len(),
    {
        if ths.len() == 0 {
            0
        } else {
            self.count_from(ths[0]) + self.rating_list(ths.drop_first())
        }
    }

    /// Each cell opens at most four ways, and a climb takes at most nine
    /// steps, so the count from one cell is bounded.
    proof fn lemma_count_from_bound(self, p: Position)
        requires
            self.wf(),
            self.pos_in_bounds(p),
        ensures
            self.count_from(p) <= four_pow((9 - self.value_at(p)) as nat),
            self.count_from(p) <= 262144,
        decreases 9 - self.value_at(p), 2nat, 0nat,
    {
        self.lemma_coord_bounds(p);
        let v = self.value_at(p);
        assert(v <= 9);
        if v == 9 {
        } else {
            self.lemma_count_list_bound(self.spec_neighbours(p), v);
            let f = four_pow((9 - v - 1) as nat);
            assert(self.spec_neighbours(p).len() <= 4);
            assert(self.count_list(self.spec_neighbours(p), v)
                <= self.spec_neighbours(p).len() * f);
            assert(self.spec_neighbours(p).len() * f <= 4 * f) by (nonlinear_arith)
                requires
                    self.spec_neighbours(p).len() <= 4,
                    f >= 0,
            ;
            assert(four_pow((9 - v) as nat) == 4 * f);
        }
        lemma_four_pow_le((9 - self.value_at(p)) as nat, 9nat);
        assert(four_pow(9nat) == 262144) by {
            reveal_with_fuel(four_pow, 10);
        }
    }

    proof fn lemma_count_list_bound(self, s: Seq<Position>, v: u8)
        requires
            self.wf(),
            v < 9,
        ensures
            self.count_list(s, v) <= s.len() * four_pow((9 - v - 1) as nat),
        decreases 9 - v, 1nat, s.len(),
    {
        let f = four_pow((9 - v - 1) as nat);
        if s.len() == 0 {
        } else {
            self.lemma_count_list_bound(s.drop_first(), v);
            if self.pos_in_bounds(s[0]) && self.value_at(s[0]) == v + 1 {
                self.lemma_coord_bounds(s[0]);
                self.lemma_count_from_bound(s[0]);
                assert(self.count_from(s[0]) <= four_pow((9 - v - 1) as nat));
            }
            assert(s.len() * f == (s.len() - 1) * f + f) by (nonlinear_arith);
        }
    }

    /// Count the climbs from `pos`, recursively.
    fn count_paths_from(&self, pos: &Position) -> (r: u64)
        requires
            self.wf(),
            self.pos_in_bounds(*pos),
        ensures
            r == self.count_from(*pos),
        decreases 9 - self.value_at(*pos),
    {
        let v = self.map[self.coord(pos)];
        if v == 9 {
            return 1;
        }
        let neighbours = self.neighbours(pos);
        let mut total: u64 = 0;
        let mut j: usize = 0;
        proof {
            self.lemma_count_from_bound(*pos);
            assert(neighbours@.skip(0) =~= neighbours@);
        }
        while j < neighbours.len()
            invariant
                self.wf(),
                self.pos_in_bounds(*pos),
                v == self.value_at(*pos),
                v < 9,
                neighbours@ == self.spec_neighbours(*pos),
                j <= neighbours@.len(),
                total + self.count_list(neighbours@.skip(j as int), v)
                    == self.count_from(*pos),
                total <= self.count_from(*pos),
                self.count_from(*pos) <= 262144,
            decreases neighbours@.len() - j,
        {
            let pos2 = neighbours[j];
            proof {
                self.lemma_neighbour_step(*pos, j as int);
                assert(neighbours@.skip(j as int).drop_first() =~= neighbours@.skip(j + 1));
                assert(neighbours@.skip(j as int)[0] == neighbours@[j as int]);
            }
            let nv = self.map[self.coord(&pos2)];
            proof {
                assert(self.count_list(neighbours@.skip(j as int), v)
                    == (if self.pos_in_bounds(pos2) && self.value_at(pos2) == v + 1 {
                        self.count_from(pos2)
                    } else {
                        0
                    }) + self.count_list(neighbours@.skip(j + 1), v));
            }
            if nv == v + 1 {
                let c = self.count_paths_from(&pos2);
                proof {
                    assert(total + c <= self.count_from(*pos));
                }
                total += c;
            }
            j += 1;
        }
        proof {
            assert(neighbours@.skip(neighbours@.len() as int) =~= Seq::<Position>::empty());
        }
        total
    }

    /// The map's rating: how many distinct complete trails climb from its
    /// trailheads, every one counted, with no scan-order bias.
    pub fn rating(&self) -> (r: u64)
        requires
            self.wf(),
            self.trailheads_wf(),
            self.trailheads@.len() * 262144 <= u64::MAX,
        ensures
            r == self.spec_rating(),
    {
        let mut total: u64 = 0;
        let mut t: usize = 0;
        proof {
            assert(self.trailheads@.skip(0) =~= self.trailheads@);
        }
        while t < self.trailheads.len()
            invariant
                self.wf(),
                self.trailheads_wf(),
                self.trailheads@.len() * 262144 <= u64::MAX,
                t <= self.trailheads@.len(),
                total + self.rating_list(self.trailheads@.skip(t as int))
                    == self.spec_rating(),
                total <= t * 262144,
            decreases self.trailheads@.len() - t,
        {
            let th = self.trailheads[t];
            proof {
                assert(th == self.trailheads@[t as int]);
                self.lemma_count_from_bound(th);
                assert(self.trailheads@.skip(t as int).drop_first()
                    =~= self.trailheads@.skip(t + 1));
                assert(self.trailheads@.skip(t as int)[0] == self.trailheads@[t as int]);
                assert((t + 1) * 262144 == t * 262144 + 262144) by (nonlinear_arith);
                assert((t + 1) * 262144 <= self.trailheads@.len() * 262144)
                    by (nonlinear_arith)
                    requires
                        t + 1 <= self.trailheads@.len(),
                ;
            }
            let c = self.count_paths_from(&th);
            total += c;
            t += 1;
        }
        proof {
            assert(self.trailheads@.skip(self.trailheads@.len() as int)
                =~= Seq::<Position>::empty());
        }
        total
    }

    /// Values along a legal chain climb by exactly one per step, so a
    /// complete trail from 0 to 9 visits exactly ten cells.
    #[verifier::rlimit(60)]
    pub proof fn lemma_chain_values(self, p: Seq<Position>)
        requires
            self.chain_ok(p),
            p.len() >= 1,
        ensures
            forall|i: int| 0 <= i < p.len()
                ==> self.value_at(#[trigger] p[i]) == self.value_at(p[0]) + i,
        decreases p.len(),
    {
        if p.len() > 1 {
            let d = p.drop_last();
            assert(self.chain_ok(d)) by {
                assert(forall|i: int| 0 <= i < d.len() ==> #[trigger] d[i] == p[i]);
                assert(forall|i: int| 0 <= i < d.len() - 1
                    ==> self.step_ok(#[trigger] d[i], d[i + 1]));
            }
            self.lemma_chain_values(d);
            assert(self.step_ok(p[p.len() - 2], p[p.len() - 1]));
            assert forall|i: int| 0 <= i < p.len()
                implies self.value_at(#[trigger] p[i]) == self.value_at(p[0]) + i by {
                assert(d[0] == p[0]);
                if i < p.len() - 1 {
                    assert(p[i] == d[i]);
                    assert(self.value_at(d[i]) == self.value_at(d[0]) + i);
                } else {
                    assert(p[i - 1] == d[i - 1]);
                    assert(self.value_at(d[i - 1]) == self.value_at(d[0]) + (i - 1));
                    assert(self.step_ok(p[i - 1], p[i]));
                }
            }
        }
    }

    /// A complete trail has exactly ten positions, one for each digit.
    pub proof fn lemma_trail_len(self, p: Seq<Position>)
        requires
            self.trail_ok(p),
        ensures
            p.len() == 10,
    {
        self.lemma_chain_values(p);
        assert(self.value_at(p[p.len() - 1]) == self.value_at(p[0]) + (p.len() - 1));
    }
}

impl TrailMap {
    /// Decide whether the text is a well-formed grid: at least one line,
    /// every line trimming to the same positive number of digits.
    #[verifier::rlimit(100)]
    pub fn check_grid_text(input: &str) -> (b: bool)
        ensures
            b == parse_ok(input@),
    {
        let chars = crate::text::str_chars(input);
        let n = chars.len();
        let ghost s = input@;
        let ghost rows = crate::text::rows_of(s);
        proof {
            crate::text::lemma_split_len(s);
            if s.len() > 0 && s.last() == '\n' {
                crate::text::lemma_split_trailing_newline(s);
            }
            assert(rows.len() >= 1);
        }
        if n == 0 {
            proof {
                assert(crate::text::split_lines(s) == seq![Seq::<char>::empty()]);
                assert(rows[0] =~= Seq::<char>::empty());
                assert(crate::text::trimmed(rows[0]).len() == 0);
            }
            return false;
        }
        let mut height: usize = 0;
        let mut width: usize = 0;
        let mut i: usize = 0;
        proof {
            assert(s.skip(0) =~= s);
        }

        while i < n
            invariant_except_break
                i <= n,
                i == n ==> height as int == rows.len(),
                height <= i,
                crate::text::split_lines(s.skip(i as int))
                    == crate::text::split_lines(s).skip(height as int),
            invariant
                s == input@,
                chars@ == s,
                n == s.len(),
                n > 0,
                rows == crate::text::rows_of(s),
                rows.len() >= 1,
                height as int <= rows.len(),
                height >= 1 ==> width >= 1,
                forall|y: int| 0 <= y < height ==> {
                    &&& crate::text::trimmed(#[trigger] rows[y]).len() == width
                    &&& crate::text::digits_only(crate::text::trimmed(rows[y]))
                },
            ensures
                height as int == rows.len(),
                height >= 1,
                width >= 1,
                forall|y: int| 0 <= y < height ==> {
                    &&& crate::text::trimmed(#[trigger] rows[y]).len() == width
                    &&& crate::text::digits_only(crate::text::trimmed(rows[y]))
                },
            decreases n - i,
        {
            // find the end of the current line
            let mut e = i;
            while e < n && chars[e] != '\n'
                invariant
                    chars@ == s,
                    n == s.len(),
                    i <= e <= n,
                    forall|j: int| i <= j < e ==> s[j] != '\n',
                decreases n - e,
            {
                e += 1;
            }
            proof {
                let su = s.skip(i as int);
                assert(forall|j: int| 0 <= j < e - i ==> su[j] != '\n');
                crate::text::lemma_split_scan(su, e - i);
                crate::text::lemma_split_len(s.skip(e + 1));
                assert(su.take(e - i) =~= s.subrange(i as int, e as int));
                if e < n {
                    assert(su[e - i] == s[e as int]);
                    assert(su.skip(e - i + 1) =~= s.skip(e + 1));
                }
            }
            let ghost piece = s.subrange(i as int, e as int);
            proof {
                let sl = crate::text::split_lines(s);
                if e == n {
                    assert(s.skip(i as int) =~= piece);
                    assert(crate::text::split_lines(s.skip(i as int)) == seq![piece]);
                    assert(s[n - 1] != '\n');
                    assert(s.last() != '\n');
                    assert(rows == sl);
                    assert(sl.skip(height as int).len() == 1);
                    assert((height as int) < rows.len());
                    assert(sl.skip(height as int)[0] == piece);
                    assert(rows[height as int] == piece);
                } else {
                    assert(crate::text::split_lines(s.skip(i as int))
                        == seq![piece] + crate::text::split_lines(s.skip(e + 1)));
                    assert(sl.skip(height as int).len() >= 2);
                    assert(height as int + 2 <= sl.len());
                    if s.len() > 0 && s.last() == '\n' {
                        assert(rows.len() == sl.len() - 1);
                    } else {
                        assert(rows.len() == sl.len());
                    }
                    assert((height as int) < rows.len());
                    assert(sl.skip(height as int)[0] == piece);
                    assert(rows[height as int] == piece);
                }
            }
            // trim the line
            let mut a = i;
            while a < e && crate::text::is_space_char(chars[a])
                invariant
                    chars@ == s,
                    n == s.len(),
                    i <= a <= e <= n,
                    forall|j: int| i <= j < a ==> crate::text::is_space(s[j]),
                decreases e - a,
            {
                a += 1;
            }
            let mut b = e;
            while b > a && crate::text::is_space_char(chars[b - 1])
                invariant
                    chars@ == s,
                    n == s.len(),
                    i <= a <= b <= e <= n,
                    forall|j: int| b <= j < e ==> crate::text::is_space(s[j]),
                decreases b - a,
            {
                b -= 1;
            }
            let ghost trow = crate::text::trimmed(rows[height as int]);
            proof {
                crate::text::lemma_trim_front_scan(piece, a - i);
                assert(piece.skip(a - i) =~= s.subrange(a as int, e as int));
                let fr = s.subrange(a as int, e as int);
                crate::text::lemma_trim_back_scan(fr, b - a);
                assert(fr.take(b - a) =~= s.subrange(a as int, b as int));
                assert(trow == s.subrange(a as int, b as int));
            }
            if height == 0 {
                if b == a {
                    proof {
                        assert(crate::text::trimmed(rows[0]).len() == 0);
                    }
                    return false;
                }
                width = b - a;
            } else if b - a != width {
                proof {
                    assert(crate::text::trimmed(rows[height as int]).len() != width);
                    assert(crate::text::trimmed(rows[0]).len() == width);
                }
                return false;
            }
            // every character of the trimmed line must be a digit
            let mut k = a;
            while k < b
                invariant
                    s == input@,
                    chars@ == s,
                    n == s.len(),
                    rows == crate::text::rows_of(s),
                    (height as int) < rows.len(),
                    i <= a <= k <= b <= n,
                    trow == s.subrange(a as int, b as int),
                    trow == crate::text::trimmed(rows[height as int]),
                    forall|q: int| 0 <= q < k - a
                        ==> crate::is_digit_char(#[trigger] trow[q]),
                decreases b - k,
            {
                let c = chars[k];
                if c < '0' || c > '9' {
                    proof {
                        assert(trow[k - a] == c);
                        assert(!crate::text::digits_only(trow));
                        assert(!crate::text::digits_only(
                            crate::text::trimmed(rows[height as int])));
                    }
                    return false;
                }
                proof {
                    assert(trow[k - a] == c);
                }
                k += 1;
            }
            proof {
                assert(crate::text::digits_only(trow));
                assert(trow.len() == width);
            }
            height += 1;
            if e < n {
                i = e + 1;
                proof {
                    let sl = crate::text::split_lines(s);
                    assert(crate::text::split_lines(s.skip(i as int))
                        == sl.skip(height as int - 1).drop_first());
                    assert(sl.skip(height as int - 1).drop_first()
                        =~= sl.skip(height as int));
                    if i == n {
                        assert(s[n - 1] == '\n');
                        assert(s.last() == '\n');
                        assert(s.skip(n as int) =~= Seq::<char>::empty());
                        assert(crate::text::split_lines(Seq::<char>::empty())
                            == seq![Seq::<char>::empty()]);
                        assert(sl.skip(height as int).len() == 1);
                        assert(rows.len() == sl.len() - 1);
                        assert(height as int == rows.len());
                    }
                }
            } else {
                proof {
                    let sl = crate::text::split_lines(s);
                    assert(sl.skip(height as int - 1).len() == 1);
                    assert(rows.len() == sl.len());
                    assert(height as int == rows.len());
                }
                break;
            }
        }
        proof {
            assert(parse_ok(s));
        }
        true
    }

    /// Parse the text if it is a well-formed grid; report the malformed
    /// input otherwise.
    pub fn try_parse(input: &str) -> (r: Option<TrailMap>)
        ensures
            r is Some <==> parse_ok(input@),
            r is Some ==> {
                let m = r->0;
                &&& m.wf()
                &&& m.trailheads_wf()
                &&& m.height == crate::text::rows_of(input@).len()
                &&& m.width == crate::text::trimmed(crate::text::rows_of(input@)[0]).len()
                &&& forall|y: int, x: int| 0 <= y < m.height && 0 <= x < m.width
                    ==> #[trigger] m.map@[y * m.width + x]
                        == crate::text::digit_val(
                            crate::text::trimmed(crate::text::rows_of(input@)[y])[x])
                &&& m.trailheads@ == zeros_upto(m.map@, m.width as int, m.map@.len() as int)
                &&& m.paths@ == Seq::<Vec<Position>>::empty()
            },
    {
        if Self::check_grid_text(input) {
            Some(TrailMap::parse(input))
        } else {
            None
        }
    }
}

/// Four to the given power, the branching bound of one climbing step.
pub open spec fn four_pow(n: nat) -> nat
    decreases n,
{
    if n == 0 {
        1
    } else {
        4 * four_pow((n - 1) as nat)
    }
}

proof fn lemma_four_pow_le(a: nat, b: nat)
    requires
        a <= b,
    ensures
        four_pow(a) <= four_pow(b),
        four_pow(a) >= 1,
    decreases b,
{
    if b > 0 {
        if a == b {
            lemma_four_pow_le((a - 1) as nat, (b - 1) as nat);
        } else {
            lemma_four_pow_le(a, (b - 1) as nat);
        }
    }
}

/// The trailheads of a grid prefix: one position for each cell before `n`
/// that holds 0, in row-major scan order.
pub open spec fn zeros_upto(g: Seq<u8>, w: int, n: int) -> Seq<Position>
    decreases n,
{
    if n <= 0 {
        Seq::<Position>::empty()
    } else {
        zeros_upto(g, w, n - 1) + if g[n - 1] == 0 {
            seq![Position { x: ((n - 1) % w) as usize, y: ((n - 1) / w) as usize }]
        } else {
            Seq::<Position>::empty()
        }
    }
}

/// Grid text a map can be parsed from: at least one line, every line trimming
/// to the same positive number of digit characters.
pub open spec fn parse_ok(s: Seq<char>) -> bool {
    let rows = crate::text::rows_of(s);
    &&& crate::text::trimmed(rows[0]).len() >= 1
    &&& forall|y: int| 0 <= y < rows.len()
        ==> crate::text::trimmed(#[trigger] rows[y]).len() == crate::text::trimmed(rows[0]).len()
    &&& forall|y: int| 0 <= y < rows.len()
        ==> crate::text::digits_only(crate::text::trimmed(#[trigger] rows[y]))
}

/// The zero positions depend only on the cells before `n`.
proof fn lemma_zeros_agree(g1: Seq<u8>, g2: Seq<u8>, w: int, n: int)
    requires
        forall|j: int| 0 <= j < n ==> g1[j] == g2[j],
    ensures
        zeros_upto(g1, w, n) == zeros_upto(g2, w, n),
    decreases n,
{
    if n > 0 {
        lemma_zeros_agree(g1, g2, w, n - 1);
    }
}

/// Every recorded zero position points back at a 0-cell of the grid prefix.
proof fn lemma_zeros_props(g: Seq<u8>, w: int, h: int, n: int)
    requires
        w >= 1,
        h >= 1,
        w <= usize::MAX,
        h <= usize::MAX,
        n <= w * h,
    ensures
        forall|q: int| 0 <= q < zeros_upto(g, w, n).len() ==> {
            let p = #[trigger] zeros_upto(g, w, n)[q];
            &&& p.x < w
            &&& p.y < h
            &&& p.y * w + p.x < n
            &&& g[p.y * w + p.x] == 0
        },
    decreases n,
{
    if n > 0 {
        lemma_zeros_props(g, w, h, n - 1);
        if g[n - 1] == 0 {
            let x = (n - 1) % w;
            let y = (n - 1) / w;
            vstd::arithmetic::div_mod::lemma_fundamental_div_mod(n - 1, w);
            assert(0 <= x < w) by {
                vstd::arithmetic::div_mod::lemma_mod_bound(n - 1, w);
            }
            assert(y < h) by (nonlinear_arith)
                requires
                    n - 1 == w * y + x,
                    0 <= x < w,
                    n <= w * h,
                    w >= 1,
                    h >= 1,
            ;
            assert(y >= 0) by (nonlinear_arith)
                requires
                    n - 1 == w * y + x,
                    0 <= x < w,
                    n >= 1,
                    w >= 1,
            ;
            assert(y * w + x == n - 1) by (nonlinear_arith)
                requires
                    n - 1 == w * y + x,
            ;
            let p = Position { x: x as usize, y: y as usize };
            assert(zeros_upto(g, w, n) == zeros_upto(g, w, n - 1) + seq![p]);
            assert(p.x == x && p.y == y);
            assert(p.y * w + p.x == n - 1);
            assert forall|q: int| 0 <= q < zeros_upto(g, w, n).len() implies {
                let pp = #[trigger] zeros_upto(g, w, n)[q];
                &&& pp.x < w
                &&& pp.y < h
                &&& pp.y * w + pp.x < n
                &&& g[pp.y * w + pp.x] == 0
            } by {
                if q < zeros_upto(g, w, n - 1).len() {
                    assert(zeros_upto(g, w, n)[q] == zeros_upto(g, w, n - 1)[q]);
                } else {
                    assert(zeros_upto(g, w, n)[q] == p);
                }
            }
        } else {
            assert(zeros_upto(g, w, n) == zeros_upto(g, w, n - 1) + Seq::<Position>::empty());
            assert(zeros_upto(g, w, n) =~= zeros_upto(g, w, n - 1));
        }
    }
}

pub proof fn lemma_prefix_index<A>(a: Seq<A>, b: Seq<A>)
    requires
        a.is_prefix_of(b),
    ensures
        forall|i: int| 0 <= i < a.len() ==> a[i] == #[trigger] b[i],
{
    assert forall|i: int| 0 <= i < a.len() implies a[i] == #[trigger] b[i] by {
        assert(a[i] == b.subrange(0, a.len() as int)[i]);
    }
}

/// What a prefix holds, the whole sequence holds.
pub proof fn lemma_prefix_contains<A>(a: Seq<A>, b: Seq<A>)
    requires
        a.is_prefix_of(b),
    ensures
        forall|x: A| a.contains(x) ==> #[trigger] b.contains(x),
{
    lemma_prefix_index(a, b);
    assert forall|x: A| a.contains(x) implies #[trigger] b.contains(x) by {
        let i = choose|i: int| 0 <= i < a.len() && a[i] == x;
        assert(b[i] == x);
    }
}

pub proof fn lemma_prefix_trans<A>(a: Seq<A>, b: Seq<A>, c: Seq<A>)
    requires
        a.is_prefix_of(b),
        b.is_prefix_of(c),
    ensures
        a.is_prefix_of(c),
{
    lemma_prefix_index(a, b);
    lemma_prefix_index(b, c);
    assert(a =~= c.subrange(0, a.len() as int));
}

/// Whether the vector holds the given position.
pub fn contains_pos(v: &Vec<Position>, p: &Position) -> (r: bool)
    ensures
        r == v@.contains(*p),
{
    let mut i: usize = 0;
    while i < v.len()
        invariant
            i <= v@.len(),
            forall|j: int| 0 <= j < i ==> v@[j] != *p,
        decreases v@.len() - i,
    {
        if v[i].x == p.x && v[i].y == p.y {
            return true;
        }
        i += 1;
    }
    false
}

} // verus!
