use vstd::prelude::*;

use rand::rngs::SmallRng;

use crate::map::Position;

verus! {

broadcast use vstd::std_specs::vec::axiom_vec_index_decreases;

/// A node of the spatial partition: a region of the canvas, either undivided
/// (a leaf, no children) or split into exactly four quadrant children.
#[derive(Debug, PartialEq)]
pub struct Leaf {
    pub depth: usize,
    pub min_size: usize,
    pub x: usize,
    pub y: usize,
    pub width: usize,
    pub height: usize,
    pub children: Vec<Leaf>,
}

/// The region a node covers, as the set of its cells.
pub open spec fn region(x: int, y: int, w: int, h: int) -> Set<(int, int)> {
    Set::new(|p: (int, int)| x <= p.0 < x + w && y <= p.1 < y + h)
}

/// Both halves of the node still reach the minimum size, so a split is legal.
pub open spec fn size_splittable(l: Leaf) -> bool {
    l.width / 2 >= l.min_size && l.height / 2 >= l.min_size
}

pub open spec fn frame_is(c: Leaf, x: int, y: int, w: int, h: int, ms: int, d: int) -> bool {
    c.x == x && c.y == y && c.width == w && c.height == h && c.min_size == ms && c.depth == d
}

/// The given sequence holds the node's four quadrant children in NW, NE,
/// SE, SW order, each of half width and half height, one level deeper.
pub open spec fn quadrant_frames_seq(l: Leaf, cs: Seq<Leaf>) -> bool {
    let w2 = l.width as int / 2;
    let h2 = l.height as int / 2;
    &&& cs.len() == 4
    &&& frame_is(cs[0], l.x as int, l.y as int, w2, h2, l.min_size as int, l.depth + 1)
    &&& frame_is(cs[1], l.x + w2, l.y as int, w2, h2, l.min_size as int, l.depth + 1)
    &&& frame_is(cs[2], l.x + w2, l.y + h2, w2, h2, l.min_size as int, l.depth + 1)
    &&& frame_is(cs[3], l.x as int, l.y + h2, w2, h2, l.min_size as int, l.depth + 1)
}

/// The four children cover the node's quadrants in NW, NE, SE, SW order.
pub open spec fn quadrant_frames(l: Leaf) -> bool {
    quadrant_frames_seq(l, l.children@)
}

/// A fully generated subtree: every inner node is split into its four
/// quadrants, and every leaf either lies deeper than the always-split levels
/// or is too small for a further legal split.
pub open spec fn well_split(l: Leaf) -> bool
    decreases l,
{
    if l.children@.len() == 0 {
        l.depth > 2 || !size_splittable(l)
    } else {
        &&& size_splittable(l)
        &&& quadrant_frames(l)
        &&& forall|i: int| 0 <= i < l.children@.len() ==> well_split(#[trigger] l.children[i])
    }
}

/// The leaves of the subtree, left to right.
pub open spec fn leaves_of(l: Leaf) -> Seq<Leaf>
    decreases l, l.children@.len() + 1,
{
    if l.children@.len() == 0 {
        seq![l]
    } else {
        leaves_from(l, 0)
    }
}

/// The leaves contributed by the children of `l` from index `i` on.
pub open spec fn leaves_from(l: Leaf, i: int) -> Seq<Leaf>
    decreases l, l.children@.len() - i,
{
    if i < 0 || i >= l.children@.len() {
        Seq::<Leaf>::empty()
    } else {
        leaves_of(l.children[i]) + leaves_from(l, i + 1)
    }
}

/// A node a start point can be drawn from: a non-empty region whose far edge
/// still fits the address space.
pub open spec fn leaf_sized(c: Leaf) -> bool {
    &&& c.width >= 1
    &&& c.height >= 1
    &&& c.x + c.width <= usize::MAX
    &&& c.y + c.height <= usize::MAX
}

pub open spec fn leaves_sized(l: Leaf) -> bool {
    forall|i: int| 0 <= i < leaves_of(l).len() ==> leaf_sized(#[trigger] leaves_of(l)[i])
}

/// `p` lies inside the region of `c`.
pub open spec fn in_region(c: Leaf, p: Position) -> bool {
    c.x <= p.x < c.x + c.width && c.y <= p.y < c.y + c.height
}

pub open spec fn leaf_region(c: Leaf) -> Set<(int, int)> {
    region(c.x as int, c.y as int, c.width as int, c.height as int)
}

/// The region of `c` lies inside the region of `l`.
pub open spec fn contained(c: Leaf, l: Leaf) -> bool {
    &&& l.x <= c.x
    &&& c.x + c.width <= l.x + l.width
    &&& l.y <= c.y
    &&& c.y + c.height <= l.y + l.height
}

/// The four children of a split node carve its region into disjoint
/// quadrants: no cell lies in two children, and together the children cover
/// the parent's region up to the odd last column and row that integer
/// halving leaves out — exactly the parent's region when both sides are
/// even.
pub proof fn lemma_children_tile(l: Leaf)
    requires
        quadrant_frames(l),
    ensures
        forall|i: int, k: int| 0 <= i < k < 4
            ==> leaf_region(#[trigger] l.children[i]).disjoint(
                leaf_region(#[trigger] l.children[k])),
        leaf_region(l.children[0]) + leaf_region(l.children[1]) + leaf_region(l.children[2])
            + leaf_region(l.children[3])
            =~= region(l.x as int, l.y as int, 2 * (l.width as int / 2),
                2 * (l.height as int / 2)),
        l.width % 2 == 0 && l.height % 2 == 0
            ==> leaf_region(l.children[0]) + leaf_region(l.children[1])
                + leaf_region(l.children[2]) + leaf_region(l.children[3])
                =~= leaf_region(l),
{
    let w2 = l.width as int / 2;
    let h2 = l.height as int / 2;
    assert forall|i: int, k: int| 0 <= i < k < 4
        implies leaf_region(#[trigger] l.children[i]).disjoint(
            leaf_region(#[trigger] l.children[k])) by {
        assert forall|p: (int, int)| leaf_region(l.children[i]).contains(p)
            implies !leaf_region(l.children[k]).contains(p) by {}
    }
    assert(leaf_region(l.children[0]) + leaf_region(l.children[1])
        + leaf_region(l.children[2]) + leaf_region(l.children[3])
        =~= region(l.x as int, l.y as int, 2 * w2, 2 * h2));
    if l.width % 2 == 0 && l.height % 2 == 0 {
        assert(2 * w2 == l.width as int);
        assert(2 * h2 == l.height as int);
    }
}

/// Generation goes to the end: every leaf of a generated tree is undivided
/// and either lies below the always-split depths or is too small for a
/// further legal split.
pub proof fn lemma_generation_final(l: Leaf)
    requires
        well_split(l),
    ensures
        forall|i: int| 0 <= i < leaves_of(l).len() ==> {
            let c = #[trigger] leaves_of(l)[i];
            &&& c.children@.len() == 0
            &&& c.depth > 2 || !size_splittable(c)
        },
    decreases l, l.children@.len() + 1,
{
    if l.children@.len() == 0 {
        assert(leaves_of(l) == seq![l]);
    } else {
        lemma_generation_final_from(l, 0);
        assert(leaves_of(l) == leaves_from(l, 0));
    }
}

proof fn lemma_generation_final_from(l: Leaf, i: int)
    requires
        well_split(l),
        l.children@.len() > 0,
    ensures
        forall|q: int| 0 <= q < leaves_from(l, i).len() ==> {
            let c = #[trigger] leaves_from(l, i)[q];
            &&& c.children@.len() == 0
            &&& c.depth > 2 || !size_splittable(c)
        },
    decreases l, l.children@.len() - i,
{
    if 0 <= i < l.children@.len() {
        let c = l.children[i];
        assert(well_split(c));
        lemma_generation_final(c);
        lemma_generation_final_from(l, i + 1);
        assert forall|q: int| 0 <= q < leaves_from(l, i).len() implies {
            let cc = #[trigger] leaves_from(l, i)[q];
            &&& cc.children@.len() == 0
            &&& cc.depth > 2 || !size_splittable(cc)
        } by {
            if q < leaves_of(c).len() {
                assert(leaves_from(l, i)[q] == leaves_of(c)[q]);
            } else {
                assert(leaves_from(l, i)[q]
                    == leaves_from(l, i + 1)[q - leaves_of(c).len()]);
            }
        }
    }
}

/// In a generated tree with a positive minimum size, every leaf's region is
/// a non-empty part of the root's region.
pub proof fn lemma_leaves_of_generated(l: Leaf)
    requires
        well_split(l),
        l.min_size >= 1,
        l.width >= 1,
        l.height >= 1,
        l.x + l.width <= usize::MAX,
        l.y + l.height <= usize::MAX,
    ensures
        forall|i: int| 0 <= i < leaves_of(l).len() ==> {
            &&& leaf_sized(#[trigger] leaves_of(l)[i])
            &&& contained(leaves_of(l)[i], l)
        },
        leaves_sized(l),
    decreases l, l.children@.len() + 1,
{
    if l.children@.len() == 0 {
        assert(leaves_of(l) == seq![l]);
    } else {
        lemma_leaves_of_generated_from(l, 0);
        assert(leaves_of(l) == leaves_from(l, 0));
    }
}

proof fn lemma_leaves_of_generated_from(l: Leaf, i: int)
    requires
        well_split(l),
        l.children@.len() > 0,
        l.min_size >= 1,
        l.width >= 1,
        l.height >= 1,
        l.x + l.width <= usize::MAX,
        l.y + l.height <= usize::MAX,
    ensures
        forall|q: int| 0 <= q < leaves_from(l, i).len() ==> {
            &&& leaf_sized(#[trigger] leaves_from(l, i)[q])
            &&& contained(leaves_from(l, i)[q], l)
        },
    decreases l, l.children@.len() - i,
{
    if 0 <= i < l.children@.len() {
        let c = l.children[i];
        assert(well_split(c));
        assert(size_splittable(l));
        assert(l.width as int / 2 + l.width as int / 2 <= l.width as int);
        assert(l.height as int / 2 + l.height as int / 2 <= l.height as int);
        assert(c.min_size == l.min_size && c.width == l.width as int / 2
            && c.height == l.height as int / 2);
        assert(contained(c, l));
        lemma_leaves_of_generated(c);
        lemma_leaves_of_generated_from(l, i + 1);
        assert forall|q: int| 0 <= q < leaves_from(l, i).len() implies {
            &&& leaf_sized(#[trigger] leaves_from(l, i)[q])
            &&& contained(leaves_from(l, i)[q], l)
        } by {
            if q < leaves_of(c).len() {
                assert(leaves_from(l, i)[q] == leaves_of(c)[q]);
                assert(contained(leaves_of(c)[q], c));
            } else {
                assert(leaves_from(l, i)[q]
                    == leaves_from(l, i + 1)[q - leaves_of(c).len()]);
            }
        }
    }
}

impl Leaf {
    /// An undivided node over the given region.
    pub fn new(x: usize, y: usize, width: usize, height: usize, min_size: usize, depth: usize)
        -> (r: Leaf)
        ensures
            r.x == x,
            r.y == y,
            r.width == width,
            r.height == height,
            r.min_size == min_size,
            r.depth == depth,
            r.children@.len() == 0,
    {
        Leaf { depth, x, y, width, height, min_size, children: Vec::new() }
    }

    fn can_split(&self) -> (r: bool)
        ensures
            r == (self.children@.len() == 0),
    {
        self.children.is_empty()
    }

    /// Attempt one split: shallow nodes always try, deeper ones by a biased
    /// coin; the split happens only if both halves stay legal.  On a split
    /// the node gains exactly its four quadrant children, themselves leaves.
    fn split(&mut self, rng: &mut SmallRng) -> (r: bool)
        requires
            old(self).children@.len() == 0,
            old(self).min_size >= 1,
            old(self).x + old(self).width <= usize::MAX,
            old(self).y + old(self).height <= usize::MAX,
            old(self).depth + old(self).width <= usize::MAX,
        ensures
            final(self).x == old(self).x,
            final(self).y == old(self).y,
            final(self).width == old(self).width,
            final(self).height == old(self).height,
            final(self).min_size == old(self).min_size,
            final(self).depth == old(self).depth,
            !r ==> *final(self) == *old(self),
            !r ==> old(self).depth > 2 || !size_splittable(*old(self)),
            r ==> size_splittable(*old(self)),
            r ==> quadrant_frames(*final(self)),
            r ==> forall|i: int| 0 <= i < final(self).children@.len()
                ==> #[trigger] final(self).children[i].children@.len() == 0,
    {
        // the coin is drawn first, also when the node is too small to split
        let should_split = if self.depth > 2 {
            crate::rng::rng_ratio(rng, 17, 20)
        } else {
            true
        };
        if should_split && self.width / 2 >= self.min_size && self.height / 2 >= self.min_size {
            let horz_mid = self.width / 2;
            let vert_mid = self.height / 2;
            let north_west = Leaf::new(self.x, self.y, horz_mid, vert_mid, self.min_size,
                self.depth + 1);
            let north_east = Leaf::new(self.x + horz_mid, self.y, horz_mid, vert_mid,
                self.min_size, self.depth + 1);
            let south_east = Leaf::new(self.x + horz_mid, self.y + vert_mid, horz_mid, vert_mid,
                self.min_size, self.depth + 1);
            let south_west = Leaf::new(self.x, self.y + vert_mid, horz_mid, vert_mid,
                self.min_size, self.depth + 1);

            self.children.push(north_west);
            self.children.push(north_east);
            self.children.push(south_east);
            self.children.push(south_west);

            true
        } else {
            false
        }
    }

    /// Generate the partition below this node: a node that already has
    /// children is left alone and the generator is not consulted; a leaf is
    /// split (subject to depth, chance and the minimum size) and generation
    /// recurses into the four children with the same generator.  Afterwards a previously undivided node is fully
    /// generated: no leaf of it admits a further split at the always-split
    /// depths.
    pub fn generate(&mut self, rng: &mut SmallRng)
        requires
            old(self).min_size >= 1,
            old(self).x + old(self).width <= usize::MAX,
            old(self).y + old(self).height <= usize::MAX,
            old(self).depth + old(self).width <= usize::MAX,
        ensures
            final(self).x == old(self).x,
            final(self).y == old(self).y,
            final(self).width == old(self).width,
            final(self).height == old(self).height,
            final(self).min_size == old(self).min_size,
            final(self).depth == old(self).depth,
            old(self).children@.len() != 0 ==> *final(self) == *old(self),
            old(self).children@.len() != 0 ==> *final(rng) == *old(rng),
            old(self).children@.len() == 0 ==> well_split(*final(self)),
        decreases old(self).width,
    {
        let ghost l0 = *old(self);
        if !self.can_split() {
            return;
        }
        if self.split(rng) {
            let ghost split_children = self.children@;
            proof {
                assert(size_splittable(l0));
                assert(l0.width / 2 >= 1 && l0.width / 2 < l0.width);
            }
            let mut idx: usize = 0;
            while idx < 4
                invariant
                    l0 == *old(self),
                    idx <= 4,
                    self.children@.len() == 4,
                    self.x == l0.x,
                    self.y == l0.y,
                    self.width == l0.width,
                    self.height == l0.height,
                    self.min_size == l0.min_size,
                    self.depth == l0.depth,
                    l0.min_size >= 1,
                    l0.x + l0.width <= usize::MAX,
                    l0.y + l0.height <= usize::MAX,
                    l0.depth + l0.width <= usize::MAX,
                    l0.width / 2 < l0.width,
                    l0.width / 2 >= 1,
                    size_splittable(l0),
                    quadrant_frames_seq(l0, split_children),
                    forall|j: int| 0 <= j < 4
                        ==> #[trigger] split_children[j].children@.len() == 0,
                    // the first 4 - idx entries are the still-unprocessed
                    // quadrants, rotated left by idx; the last idx entries
                    // are generated subtrees of the earlier quadrants
                    forall|j: int| 0 <= j < 4 - idx
                        ==> #[trigger] self.children[j] == split_children[j + idx],
                    forall|j: int| 4 - idx <= j < 4 ==> {
                        let c = #[trigger] self.children[j];
                        let orig = split_children[j - (4 - idx)];
                        &&& c.x == orig.x
                        &&& c.y == orig.y
                        &&& c.width == orig.width
                        &&& c.height == orig.height
                        &&& c.min_size == orig.min_size
                        &&& c.depth == orig.depth
                        &&& well_split(c)
                    },
                decreases 4 - idx,
            {
                let mut child = self.children.remove(0);
                proof {
                    assert(child == split_children[idx as int]);
                    assert(child.width == l0.width / 2);
                    assert(child.children@.len() == 0);
                    assert(l0.width as int / 2 + l0.width as int / 2 <= l0.width as int);
                    assert(child.x + child.width <= l0.x + l0.width);
                    assert(child.y + child.height <= l0.y + l0.height);
                    assert(child.depth + child.width <= l0.depth + l0.width);
                }
                child.generate(rng);
                self.children.push(child);
                idx += 1;
            }
            proof {
                assert(quadrant_frames(*self));
                assert(well_split(*self));
            }
        }
    }

    /// Sample start points: at every leaf of the subtree, in left-to-right
    /// leaf order, draw `density` positions uniformly inside the leaf's
    /// region and append them to the caller's list.
    pub fn add_start(&self, starting_points: &mut Vec<Position>, rng: &mut SmallRng, density: u8)
        requires
            leaves_sized(*self),
        ensures
            old(starting_points)@.is_prefix_of(final(starting_points)@),
            final(starting_points)@.len()
                == old(starting_points)@.len() + density * leaves_of(*self).len(),
            forall|li: int, d: int|
                0 <= li < leaves_of(*self).len() && 0 <= d < density
                    ==> in_region(
                        leaves_of(*self)[li],
                        #[trigger] final(starting_points)@[
                            old(starting_points)@.len() + li * density + d],
                    ),
        decreases *self,
    {
        let ghost base = old(starting_points)@.len() as int;
        let ghost ls = leaves_of(*self);
        if !self.children.is_empty() {
            proof {
                assert(ls == leaves_from(*self, 0));
                assert(ls.take(0) =~= Seq::<Leaf>::empty());
                assert(ls =~= ls.take(0) + leaves_from(*self, 0));
            }
            let mut j: usize = 0;
            let ghost mut done: int = 0;
            while j < self.children.len()
                invariant
                    leaves_sized(*self),
                    self.children@.len() > 0,
                    j <= self.children@.len(),
                    0 <= done,
                    base == old(starting_points)@.len(),
                    ls == leaves_of(*self),
                    done + leaves_from(*self, j as int).len() == ls.len(),
                    ls == ls.take(done) + leaves_from(*self, j as int),
                    old(starting_points)@.is_prefix_of(starting_points@),
                    starting_points@.len() == base + density * done,
                    forall|li: int, d: int|
                        0 <= li < done && 0 <= d < density
                            ==> in_region(ls[li],
                                #[trigger] starting_points@[base + li * density + d]),
                decreases self.children@.len() - j,
            {
                let ghost pre = starting_points@;
                let child = &self.children[j];
                proof {
                    assert(leaves_from(*self, j as int)
                        == leaves_of(*child) + leaves_from(*self, j + 1));
                    assert forall|q: int| 0 <= q < leaves_of(*child).len()
                        implies leaf_sized(#[trigger] leaves_of(*child)[q]) by {
                        assert(leaves_of(*child)[q]
                            == (leaves_of(*child) + leaves_from(*self, j + 1))[q]);
                        assert(ls[done + q]
                            == (ls.take(done) + leaves_from(*self, j as int))[done + q]);
                        assert(ls[done + q] == leaves_from(*self, j as int)[q]);
                        assert(ls[done + q] == leaves_of(*self)[done + q]);
                    }
                }
                child.add_start(starting_points, rng, density);
                proof {
                    let cl = leaves_of(*child).len() as int;
                    crate::map::lemma_prefix_trans(
                        old(starting_points)@, pre, starting_points@);
                    crate::map::lemma_prefix_index(pre, starting_points@);
                    assert(starting_points@.len() == base + density * done + density * cl);
                    assert(density * (done + cl) == density * done + density * cl)
                        by (nonlinear_arith);
                    assert forall|li: int, d: int|
                        0 <= li < done + cl && 0 <= d < density
                            implies in_region(ls[li],
                                #[trigger] starting_points@[base + li * density + d]) by {
                        if li < done {
                            assert(0 <= base + li * density + d < pre.len()) by (nonlinear_arith)
                                requires
                                    0 <= li < done,
                                    0 <= d < density,
                                    base >= 0,
                                    pre.len() == base + density * done,
                            ;
                            assert(starting_points@[base + li * density + d]
                                == pre[base + li * density + d]);
                        } else {
                            let lc = li - done;
                            assert(in_region(leaves_of(*child)[lc],
                                starting_points@[pre.len() as int + lc * density + d]));
                            assert(leaves_of(*child)[lc]
                                == (leaves_of(*child) + leaves_from(*self, j + 1))[lc]);
                            assert(ls[li]
                                == (ls.take(done) + leaves_from(*self, j as int))[li]);
                            assert(ls[li] == leaves_from(*self, j as int)[lc]);
                            assert(pre.len() + lc * density + d == base + li * density + d)
                                by (nonlinear_arith)
                                requires
                                    pre.len() == base + density * done,
                                    li == lc + done,
                            ;
                        }
                    }
                    assert(ls =~= ls.take(done + cl) + leaves_from(*self, j + 1)) by {
                        assert forall|q: int| 0 <= q < ls.len()
                            implies ls[q] == (ls.take(done + cl)
                                + leaves_from(*self, j + 1))[q] by {
                            if q >= done + cl {
                                assert(ls[q]
                                    == (ls.take(done) + leaves_from(*self, j as int))[q]);
                                assert(ls[q] == leaves_from(*self, j as int)[q - done]);
                                assert(leaves_from(*self, j as int)[q - done]
                                    == (leaves_of(*child) + leaves_from(*self, j + 1))[q - done]);
                            }
                        }
                    }
                    done = done + cl;
                }
                j += 1;
            }
            proof {
                assert(leaves_from(*self, self.children@.len() as int).len() == 0);
            }
        } else {
            proof {
                assert(ls == seq![*self]);
                assert(ls[0] == *self);
                assert(leaf_sized(*self));
            }
            let mut d: u8 = 0;
            while d < density
                invariant
                    leaf_sized(*self),
                    d <= density,
                    base == old(starting_points)@.len(),
                    old(starting_points)@.is_prefix_of(starting_points@),
                    starting_points@.len() == base + d,
                    forall|dd: int| 0 <= dd < d
                        ==> in_region(*self, #[trigger] starting_points@[base + dd]),
                decreases density - d,
            {
                let ghost pre = starting_points@;
                let x = crate::rng::rng_below(rng, self.x, self.x + self.width);
                let y = crate::rng::rng_below(rng, self.y, self.y + self.height);
                starting_points.push(Position { x, y });
                proof {
                    crate::map::lemma_prefix_trans(old(starting_points)@, pre, starting_points@);
                }
                d += 1;
            }
            proof {
                assert forall|li: int, dd: int|
                    0 <= li < ls.len() && 0 <= dd < density
                        implies in_region(ls[li],
                            #[trigger] starting_points@[base + li * density + dd]) by {
                    assert(li == 0);
                    assert(li * density == 0);
                }
            }
        }
    }
}

/// All coordinates of the subtree can be scaled by the drawing tile size
/// without leaving the address space.
pub open spec fn scaled_ok(l: Leaf, t: int) -> bool
    decreases l,
{
    &&& l.x * t <= usize::MAX
    &&& l.y * t <= usize::MAX
    &&& l.width * t <= usize::MAX
    &&& l.height * t <= usize::MAX
    &&& forall|i: int| 0 <= i < l.children@.len() ==> scaled_ok(#[trigger] l.children[i], t)
}

/// The rectangle element drawn for one undivided node.
pub open spec fn rect_text(c: Leaf, t: int) -> Seq<char> {
    "\n          <rect x=\""@ + crate::decimal::dec_rep((c.x * t) as nat) + "\" y=\""@
        + crate::decimal::dec_rep((c.y * t) as nat) + "\" width=\""@
        + crate::decimal::dec_rep((c.width * t) as nat) + "\" height=\""@
        + crate::decimal::dec_rep((c.height * t) as nat)
        + "\" stroke-width=\"2\" fill=\"transparent\" stroke=\"black\" />"@
}

/// The rectangles of the undivided descendants below `l`: a rectangle for
/// each childless child, the child's own leaves otherwise.
pub open spec fn leaves_text(l: Leaf, t: int) -> Seq<char>
    decreases l, l.children@.len() + 1,
{
    leaves_text_from(l, 0, t)
}

pub open spec fn leaves_text_from(l: Leaf, i: int, t: int) -> Seq<char>
    decreases l, l.children@.len() - i,
{
    if i < 0 || i >= l.children@.len() {
        Seq::<char>::empty()
    } else {
        (if l.children[i].children@.len() == 0 {
            rect_text(l.children[i], t)
        } else {
            leaves_text(l.children[i], t)
        }) + leaves_text_from(l, i + 1, t)
    }
}

impl Leaf {
    /// The rectangles of the undivided descendants, one per leaf below a
    /// split child; an undivided root draws nothing.
    pub fn draw_leaves(&self, tile_size: usize) -> (r: String)
        requires
            scaled_ok(*self, tile_size as int),
        ensures
            r@ == leaves_text(*self, tile_size as int),
        decreases *self,
    {
        let ghost t = tile_size as int;
        let mut out = String::new();
        let mut j: usize = 0;
        proof {
            assert(out@ =~= Seq::<char>::empty());
        }
        while j < self.children.len()
            invariant
                scaled_ok(*self, t),
                t == tile_size as int,
                j <= self.children@.len(),
                leaves_text(*self, t) == out@ + leaves_text_from(*self, j as int, t),
            decreases self.children@.len() - j,
        {
            let child = &self.children[j];
            proof {
                assert(scaled_ok(*child, t));
            }
            if child.can_split() {
                let mut rect = String::new();
                rect.append("\n          <rect x=\"");
                let xs = crate::decimal::usize_to_string(child.x * tile_size);
                rect.append(xs.as_str());
                rect.append("\" y=\"");
                let ys = crate::decimal::usize_to_string(child.y * tile_size);
                rect.append(ys.as_str());
                rect.append("\" width=\"");
                let ws = crate::decimal::usize_to_string(child.width * tile_size);
                rect.append(ws.as_str());
                rect.append("\" height=\"");
                let hs = crate::decimal::usize_to_string(child.height * tile_size);
                rect.append(hs.as_str());
                rect.append("\" stroke-width=\"2\" fill=\"transparent\" stroke=\"black\" />");
                proof {
                    assert(rect@ =~= rect_text(*child, t));
                }
                out.append(rect.as_str());
            } else {
                let sub = child.draw_leaves(tile_size);
                out.append(sub.as_str());
            }
            proof {
                assert(leaves_text_from(*self, j as int, t)
                    == (if self.children[j as int].children@.len() == 0 {
                        rect_text(self.children[j as int], t)
                    } else {
                        leaves_text(self.children[j as int], t)
                    }) + leaves_text_from(*self, j + 1, t));
            }
            j += 1;
        }
        proof {
            assert(leaves_text_from(*self, self.children@.len() as int, t)
                =~= Seq::<char>::empty());
            assert(out@ =~= leaves_text(*self, t));
        }
        out
    }

    /// The partition drawn for inspection: a document scaled 64 pixels per
    /// cell, holding one rectangle per undivided descendant.
    pub fn draw(&self) -> (r: String)
        requires
            scaled_ok(*self, 64),
            self.width * 64 <= usize::MAX,
            self.height * 64 <= usize::MAX,
        ensures
            r@ == "<svg viewBox=\"0 0 "@ + crate::decimal::dec_rep((self.width * 64) as nat)
                + " "@ + crate::decimal::dec_rep((self.height * 64) as nat)
                + "\" xmlns=\"http://www.w3.org/2000/svg\">"@ + leaves_text(*self, 64)
                + "</svg>"@,
    {
        let tile_size: usize = 64;
        let mut output = String::new();
        output.append("<svg viewBox=\"0 0 ");
        let ws = crate::decimal::usize_to_string(self.width * tile_size);
        output.append(ws.as_str());
        output.append(" ");
        let hs = crate::decimal::usize_to_string(self.height * tile_size);
        output.append(hs.as_str());
        output.append("\" xmlns=\"http://www.w3.org/2000/svg\">");

        let body = self.draw_leaves(tile_size);
        output.append(body.as_str());

        output.append("</svg>");
        proof {
            assert(output@ =~= "<svg viewBox=\"0 0 "@
                + crate::decimal::dec_rep((self.width * 64) as nat) + " "@
                + crate::decimal::dec_rep((self.height * 64) as nat)
                + "\" xmlns=\"http://www.w3.org/2000/svg\">"@ + leaves_text(*self, 64)
                + "</svg>"@);
        }
        output
    }
}

} // verus!
