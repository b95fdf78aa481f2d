use vstd::prelude::*;

use crate::region::{
    common_point, encloses, extent_fits, holds_point, lemma_common_point_quadrant,
    lemma_quadrant_fits, lemma_quadrants_cover, meets, quadrant, well_formed, Region,
};
use crate::slot_map::{lemma_slot_id_eq, SlotId, SlotMap};
use crate::{MAX_CELL_SIZE, MAX_DEPTH};

verus! {

broadcast use lemma_slot_id_eq;

/// Every occupied slot of `s1` is occupied in `s2` by the same region.
pub open spec fn keeps_slots(s1: Seq<Option<Region>>, s2: Seq<Option<Region>>) -> bool {
    forall|h: u64| occupied_in(s1, h) ==> #[trigger] occupied_in(s2, h) && s2[h as int] == s1[h as int]
}

/// The slot positions named by a list of handles.
pub open spec fn ids(v: Seq<SlotId>) -> Seq<u64> {
    v.map_values(|h: SlotId| h@)
}

/// `h` names an occupied slot of `s`.
pub open spec fn occupied_in(s: Seq<Option<Region>>, h: u64) -> bool {
    h < s.len() && s[h as int] is Some
}

/// The region stored in the slot `h` of `s`.
pub open spec fn stored(s: Seq<Option<Region>>, h: u64) -> Region {
    s[h as int].unwrap()
}

/// `h` is named by one of the handles of `exclude`.
pub open spec fn excluded(exclude: Seq<SlotId>, h: u64) -> bool {
    ids(exclude).contains(h)
}

#[derive(Debug)]
enum NodeType {
    Leaf(Vec<SlotId>),
    Parent(Box<Quadrants>),
}

#[derive(Debug)]
struct Quadrants {
    top_left: QuadNode,
    top_right: QuadNode,
    bottom_left: QuadNode,
    bottom_right: QuadNode,
}

/// A cell of the quadtree: a leaf holding a list of handles, or a parent of
/// four cells that split its region (see [`Region::quad_divide`]).
///
/// A handle is held by every leaf whose region meets the handle's stored
/// region, so it may appear in several leaves.
#[derive(Debug)]
pub struct QuadNode {
    region: Region,
    depth: usize,
    node_type: NodeType,
}

impl QuadNode {
    /// The region of this cell.
    pub closed spec fn bounds(self) -> Region {
        self.region
    }

    /// How many subdivisions lie above this cell.
    pub closed spec fn level(self) -> nat {
        self.depth as nat
    }

    pub closed spec fn is_leaf(self) -> bool {
        self.node_type is Leaf
    }

    /// The slot positions held by the leaves below this cell.
    pub closed spec fn handles(self) -> Set<u64>
        decreases self,
    {
        match self.node_type {
            NodeType::Leaf(v) => ids(v@).to_set(),
            NodeType::Parent(q) => q.top_left.handles() + q.top_right.handles()
                + q.bottom_left.handles() + q.bottom_right.handles(),
        }
    }

    /// The lists of the leaves below this cell, one after another, quadrants in
    /// the order top-left, top-right, bottom-left, bottom-right.
    pub closed spec fn listing(self) -> Seq<SlotId>
        decreases self,
    {
        match self.node_type {
            NodeType::Leaf(v) => v@,
            NodeType::Parent(q) => q.top_left.listing() + q.top_right.listing()
                + q.bottom_left.listing() + q.bottom_right.listing(),
        }
    }

    /// The regions of the leaves below this cell, in the order of `listing`.
    pub closed spec fn leaf_regions(self) -> Seq<Region>
        decreases self,
    {
        match self.node_type {
            NodeType::Leaf(_) => seq![self.region],
            NodeType::Parent(q) => q.top_left.leaf_regions() + q.top_right.leaf_regions()
                + q.bottom_left.leaf_regions() + q.bottom_right.leaf_regions(),
        }
    }

    /// The number of entries in the leaves below this cell, repeats included.
    pub open spec fn count(self) -> nat {
        self.listing().len()
    }

    /// `c` is the quadrant `i` of this cell one level down, and holds exactly
    /// the handles of this cell whose stored region meets its own.
    closed spec fn holds_child(self, c: QuadNode, i: int, s: Seq<Option<Region>>) -> bool {
        &&& c.region == quadrant(self.region, i)
        &&& c.depth == self.depth + 1
        &&& forall|h: u64| #[trigger] c.handles().contains(h)
            <==> (self.handles().contains(h) && meets(stored(s, h), c.region))
    }

    /// The cell's invariant over the region slots `s`: its region is well formed
    /// and can be split, each handle below it names a slot of `s` holding a well
    /// formed region, and a parent sits above the depth limit with four
    /// quadrants that hold what `holds_child` says.
    pub closed spec fn wf(self, s: Seq<Option<Region>>) -> bool
        decreases self,
    {
        &&& well_formed(self.region)
        &&& extent_fits(self.region)
        &&& forall|h: u64| #[trigger] self.handles().contains(h)
            ==> occupied_in(s, h) && well_formed(stored(s, h))
        &&& match self.node_type {
            NodeType::Leaf(_) => true,
            NodeType::Parent(q) => {
                &&& self.depth < MAX_DEPTH
                &&& self.holds_child(q.top_left, 0, s)
                &&& self.holds_child(q.top_right, 1, s)
                &&& self.holds_child(q.bottom_left, 2, s)
                &&& self.holds_child(q.bottom_right, 3, s)
                &&& q.top_left.wf(s)
                &&& q.top_right.wf(s)
                &&& q.bottom_left.wf(s)
                &&& q.bottom_right.wf(s)
            },
        }
    }

    /// The region of a valid cell is well formed and can be split.
    pub proof fn lemma_wf_bounds(self, s: Seq<Option<Region>>)
        requires
            self.wf(s),
        ensures
            well_formed(self.bounds()),
            extent_fits(self.bounds()),
    {
    }

    /// The leaf regions of a valid cell lie in its region and together cover
    /// every point of it; there are `1 + 3k` of them, since each split turns
    /// one leaf into four; a leaf's only leaf region is its own region.
    pub proof fn lemma_leaf_regions(self, s: Seq<Option<Region>>)
        requires
            self.wf(s),
        ensures
            self.is_leaf() ==> self.leaf_regions() == seq![self.bounds()],
            self.leaf_regions().len() % 3 == 1,
            forall|i: int| 0 <= i < self.leaf_regions().len()
                ==> encloses(self.bounds(), #[trigger] self.leaf_regions()[i]),
            forall|x: int, y: int| #[trigger] holds_point(self.bounds(), x, y)
                ==> exists|i: int| 0 <= i < self.leaf_regions().len()
                    && holds_point(#[trigger] self.leaf_regions()[i], x, y),
        decreases self,
    {
        match self.node_type {
            NodeType::Leaf(_) => {
                assert forall|x: int, y: int| #[trigger] holds_point(self.bounds(), x, y) implies
                    exists|i: int| 0 <= i < self.leaf_regions().len()
                        && holds_point(#[trigger] self.leaf_regions()[i], x, y) by {
                    assert(self.leaf_regions()[0] == self.bounds());
                }
            },
            NodeType::Parent(q) => {
                q.top_left.lemma_leaf_regions(s);
                q.top_right.lemma_leaf_regions(s);
                q.bottom_left.lemma_leaf_regions(s);
                q.bottom_right.lemma_leaf_regions(s);
                lemma_quadrants_cover(self.region);
                let a = q.top_left.leaf_regions();
                let b = q.top_right.leaf_regions();
                let c = q.bottom_left.leaf_regions();
                let d = q.bottom_right.leaf_regions();
                let all = self.leaf_regions();
                assert(all == a + b + c + d);
                assert((a.len() + b.len() + c.len() + d.len()) % 3 == 1) by {
                    assert(a.len() % 3 == 1 && b.len() % 3 == 1 && c.len() % 3 == 1 && d.len() % 3 == 1);
                }
                assert(encloses(self.region, quadrant(self.region, 0)));
                assert(encloses(self.region, quadrant(self.region, 1)));
                assert(encloses(self.region, quadrant(self.region, 2)));
                assert(encloses(self.region, quadrant(self.region, 3)));
                assert forall|i: int| 0 <= i < all.len() implies encloses(self.bounds(), #[trigger] all[i]) by {
                    if i < a.len() {
                        assert(all[i] == a[i]);
                        assert(encloses(q.top_left.bounds(), a[i]));
                    } else if i < a.len() + b.len() {
                        assert(all[i] == b[i - a.len()]);
                        assert(encloses(q.top_right.bounds(), b[i - a.len()]));
                    } else if i < a.len() + b.len() + c.len() {
                        assert(all[i] == c[i - a.len() - b.len()]);
                        assert(encloses(q.bottom_left.bounds(), c[i - a.len() - b.len()]));
                    } else {
                        assert(all[i] == d[i - a.len() - b.len() - c.len()]);
                        assert(encloses(q.bottom_right.bounds(), d[i - a.len() - b.len() - c.len()]));
                    }
                }
                assert forall|x: int, y: int| #[trigger] holds_point(self.bounds(), x, y) implies
                    exists|i: int| 0 <= i < all.len() && holds_point(#[trigger] all[i], x, y) by {
                    let k = choose|k: int| 0 <= k < 4 && holds_point(#[trigger] quadrant(self.region, k), x, y);
                    if k == 0 {
                        assert(holds_point(q.top_left.bounds(), x, y));
                        let j = choose|j: int| 0 <= j < a.len() && holds_point(#[trigger] a[j], x, y);
                        assert(all[j] == a[j]);
                    } else if k == 1 {
                        assert(holds_point(q.top_right.bounds(), x, y));
                        let j = choose|j: int| 0 <= j < b.len() && holds_point(#[trigger] b[j], x, y);
                        assert(all[a.len() + j] == b[j]);
                    } else if k == 2 {
                        assert(holds_point(q.bottom_left.bounds(), x, y));
                        let j = choose|j: int| 0 <= j < c.len() && holds_point(#[trigger] c[j], x, y);
                        assert(all[a.len() + b.len() + j] == c[j]);
                    } else {
                        assert(holds_point(q.bottom_right.bounds(), x, y));
                        let j = choose|j: int| 0 <= j < d.len() && holds_point(#[trigger] d[j], x, y);
                        assert(all[a.len() + b.len() + c.len() + j] == d[j]);
                    }
                }
            },
        }
    }

    /// A handle set is the set of the positions that the listing names.
    pub proof fn lemma_listing_handles(self)
        ensures
            ids(self.listing()).to_set() == self.handles(),
        decreases self,
    {
        match self.node_type {
            NodeType::Leaf(_) => {},
            NodeType::Parent(q) => {
                q.top_left.lemma_listing_handles();
                q.top_right.lemma_listing_handles();
                q.bottom_left.lemma_listing_handles();
                q.bottom_right.lemma_listing_handles();
                let (a, b, c, d) = (q.top_left.listing(), q.top_right.listing(),
                    q.bottom_left.listing(), q.bottom_right.listing());
                assert(ids(a + b + c + d) =~= ids(a) + ids(b) + ids(c) + ids(d));
                lemma_to_set_concat(ids(a), ids(b));
                lemma_to_set_concat(ids(a) + ids(b), ids(c));
                lemma_to_set_concat(ids(a) + ids(b) + ids(c), ids(d));
            },
        }
    }

    /// The invariant holds over any slots that keep the regions of this cell's
    /// handles.
    pub proof fn lemma_wf_frame(self, s1: Seq<Option<Region>>, s2: Seq<Option<Region>>)
        requires
            self.wf(s1),
            keeps_slots(s1, s2),
        ensures
            self.wf(s2),
        decreases self,
    {
        match self.node_type {
            NodeType::Leaf(_) => {},
            NodeType::Parent(q) => {
                q.top_left.lemma_wf_frame(s1, s2);
                q.top_right.lemma_wf_frame(s1, s2);
                q.bottom_left.lemma_wf_frame(s1, s2);
                q.bottom_right.lemma_wf_frame(s1, s2);
                assert forall|h: u64| #[trigger] self.handles().contains(h) implies
                    stored(s1, h) == stored(s2, h) by {
                    assert(occupied_in(s1, h));
                    assert(occupied_in(s2, h));
                }
            },
        }
    }
}

/// The slot positions named by a list of borrowed handles.
pub open spec fn ref_ids(v: Seq<&SlotId>) -> Seq<u64> {
    v.map_values(|h: &SlotId| h@)
}

/// Whether one of `exclude` names the slot of `id`.
fn listed(exclude: &Vec<SlotId>, id: &SlotId) -> (r: bool)
    ensures
        r == excluded(exclude@, id@),
{
    let mut j: usize = 0;
    while j < exclude.len()
        invariant
            j <= exclude@.len(),
            forall|k: int| 0 <= k < j ==> exclude@[k]@ != id@,
        decreases exclude@.len() - j,
    {
        if exclude[j] == *id {
            assert(ids(exclude@)[j as int] == id@);
            return true;
        }
        j = j + 1;
    }
    assert forall|k: int| 0 <= k < ids(exclude@).len() implies ids(exclude@)[k] != id@ by {
        assert(exclude@[k]@ != id@);
    }
    false
}

impl QuadNode {
    /// An empty leaf over `region` at `depth`.
    pub fn new(region: Region, depth: usize) -> (r: QuadNode)
        ensures
            r.bounds() == region,
            r.level() == depth,
            r.is_leaf(),
            r.handles() == Set::<u64>::empty(),
            r.listing() == Seq::<SlotId>::empty(),
            r.leaf_regions() == seq![region],
            well_formed(region) && extent_fits(region) ==> forall|s: Seq<Option<Region>>| #[trigger] r.wf(s),
    {
        let r = QuadNode { region, depth, node_type: NodeType::Leaf(Vec::new()) };
        r
    }

    /// The region of this cell.
    pub fn size(&self) -> (r: &Region)
        ensures
            *r == self.bounds(),
    {
        &self.region
    }

    /// Turns this cell back into an empty leaf over the same region.
    pub fn clear(&mut self)
        ensures
            final(self).bounds() == old(self).bounds(),
            final(self).level() == old(self).level(),
            final(self).is_leaf(),
            final(self).handles() == Set::<u64>::empty(),
            final(self).listing() == Seq::<SlotId>::empty(),
            final(self).leaf_regions() == seq![old(self).bounds()],
            well_formed(old(self).bounds()) && extent_fits(old(self).bounds())
                ==> forall|s: Seq<Option<Region>>| #[trigger] final(self).wf(s),
    {
        self.node_type = NodeType::Leaf(Vec::new());
        proof {
            assert(ids(Seq::<SlotId>::empty()).to_set() =~= Set::<u64>::empty());
        }
    }

    /// The handles below this cell whose stored region meets `region` and which
    /// `exclude` does not name, descending only into quadrants that meet
    /// `region`. A handle held by several leaves may come more than once.
    ///
    /// Every handle returned qualifies; every qualifying handle whose stored
    /// region shares a point with `region` inside this cell's region is
    /// returned.
    pub fn query<'a>(
        &'a self,
        region: &Region,
        region_store: &SlotMap<Region>,
        exclude: &Vec<SlotId>,
    ) -> (r: Vec<&'a SlotId>)
        requires
            self.wf(region_store.slots()),
        ensures
            forall|i: int| 0 <= i < r@.len() ==> {
                let h = #[trigger] ref_ids(r@)[i];
                &&& self.handles().contains(h)
                &&& meets(stored(region_store.slots(), h), *region)
                &&& !excluded(exclude@, h)
            },
            forall|h: u64|
                #[trigger] self.handles().contains(h) && !excluded(exclude@, h)
                    && common_point(stored(region_store.slots(), h), *region, self.bounds())
                    ==> ref_ids(r@).contains(h),
        decreases self, 0int,
    {
        let ghost s = region_store.slots();
        match &self.node_type {
            NodeType::Leaf(values) => {
                proof {
                    assert forall|h: u64| #[trigger] ids(values@).contains(h) implies occupied_in(s, h) by {
                        assert(self.handles().contains(h));
                    }
                }
                query_leaf(values, region, region_store, exclude)
            },
            NodeType::Parent(q) => {
                let mut out = query_child(&q.top_left, region, region_store, exclude);
                let ghost p0 = out@;
                let mut part = query_child(&q.top_right, region, region_store, exclude);
                let ghost p1 = part@;
                out.append(&mut part);
                let mut part = query_child(&q.bottom_left, region, region_store, exclude);
                let ghost p2 = part@;
                out.append(&mut part);
                let mut part = query_child(&q.bottom_right, region, region_store, exclude);
                let ghost p3 = part@;
                out.append(&mut part);
                proof {
                    let (a, b, c, d) = (ref_ids(p0), ref_ids(p1), ref_ids(p2), ref_ids(p3));
                    assert(ref_ids(out@) =~= a + b + c + d);
                    assert forall|h: u64|
                        #[trigger] self.handles().contains(h) && !excluded(exclude@, h)
                            && common_point(stored(s, h), *region, self.bounds())
                            implies ref_ids(out@).contains(h) by {
                        lemma_common_point_quadrant(stored(s, h), *region, self.region);
                        let i = choose|i: int| 0 <= i < 4 && common_point(stored(s, h), *region, #[trigger] quadrant(self.region, i));
                        if i == 0 {
                            assert(meets(stored(s, h), q.top_left.region));
                            assert(q.top_left.handles().contains(h));
                            assert(a.contains(h));
                            let k = choose|k: int| 0 <= k < a.len() && a[k] == h;
                            assert(ref_ids(out@)[k] == h);
                        } else if i == 1 {
                            assert(meets(stored(s, h), q.top_right.region));
                            assert(q.top_right.handles().contains(h));
                            assert(b.contains(h));
                            let k = choose|k: int| 0 <= k < b.len() && b[k] == h;
                            assert(ref_ids(out@)[a.len() + k] == h);
                        } else if i == 2 {
                            assert(meets(stored(s, h), q.bottom_left.region));
                            assert(q.bottom_left.handles().contains(h));
                            assert(c.contains(h));
                            let k = choose|k: int| 0 <= k < c.len() && c[k] == h;
                            assert(ref_ids(out@)[a.len() + b.len() + k] == h);
                        } else {
                            assert(meets(stored(s, h), q.bottom_right.region));
                            assert(q.bottom_right.handles().contains(h));
                            assert(d.contains(h));
                            let k = choose|k: int| 0 <= k < d.len() && d[k] == h;
                            assert(ref_ids(out@)[a.len() + b.len() + c.len() + k] == h);
                        }
                    }
                }
                out
            },
        }
    }
}

impl QuadNode {
    /// The regions of the leaves below this cell.
    pub fn get_regions(&self) -> (r: Vec<&Region>)
        ensures
            r@.map_values(|g: &Region| *g) == self.leaf_regions(),
        decreases self,
    {
        match &self.node_type {
            NodeType::Leaf(_) => {
                let r = vec![&self.region];
                proof {
                    assert(r@.map_values(|g: &Region| *g) =~= seq![self.region]);
                }
                r
            },
            NodeType::Parent(q) => {
                let mut r = q.top_left.get_regions();
                let ghost a = r@;
                let mut part = q.top_right.get_regions();
                let ghost b = part@;
                r.append(&mut part);
                let mut part = q.bottom_left.get_regions();
                let ghost c = part@;
                r.append(&mut part);
                let mut part = q.bottom_right.get_regions();
                let ghost d = part@;
                r.append(&mut part);
                proof {
                    assert(r@ =~= a + b + c + d);
                    assert(r@.map_values(|g: &Region| *g) =~= a.map_values(|g: &Region| *g)
                        + b.map_values(|g: &Region| *g) + c.map_values(|g: &Region| *g)
                        + d.map_values(|g: &Region| *g));
                }
                r
            },
        }
    }

    /// The number of entries in the leaves below this cell, repeats included.
    pub fn value_count_rec(&self) -> (r: usize)
        requires
            self.count() <= usize::MAX,
        ensures
            r == self.count(),
        decreases self,
    {
        match &self.node_type {
            NodeType::Leaf(values) => values.len(),
            NodeType::Parent(q) => {
                let a = q.top_left.value_count_rec();
                let b = q.top_right.value_count_rec();
                let c = q.bottom_left.value_count_rec();
                let d = q.bottom_right.value_count_rec();
                a + b + c + d
            },
        }
    }

    /// Empties every leaf below this cell, keeping its shape, and returns their
    /// lists one after another.
    pub fn drain_values_rec(&mut self) -> (r: Vec<SlotId>)
        ensures
            r@ == old(self).listing(),
            final(self).listing() == Seq::<SlotId>::empty(),
            final(self).handles() == Set::<u64>::empty(),
            final(self).bounds() == old(self).bounds(),
            final(self).level() == old(self).level(),
            final(self).is_leaf() == old(self).is_leaf(),
            final(self).leaf_regions() == old(self).leaf_regions(),
            forall|s: Seq<Option<Region>>| old(self).wf(s) ==> #[trigger] final(self).wf(s),
        decreases *old(self),
    {
        let mut kind = NodeType::Leaf(Vec::new());
        std::mem::swap(&mut self.node_type, &mut kind);
        match kind {
            NodeType::Leaf(values) => {
                proof {
                    assert(ids(Seq::<SlotId>::empty()).to_set() =~= Set::<u64>::empty());
                }
                values
            },
            NodeType::Parent(mut q) => {
                let mut r = q.top_left.drain_values_rec();
                let mut part = q.top_right.drain_values_rec();
                r.append(&mut part);
                let mut part = q.bottom_left.drain_values_rec();
                r.append(&mut part);
                let mut part = q.bottom_right.drain_values_rec();
                r.append(&mut part);
                let ghost fq = *q;
                self.node_type = NodeType::Parent(q);
                proof {
                    assert(self.listing() =~= Seq::<SlotId>::empty());
                    assert(self.handles() =~= Set::<u64>::empty());
                    assert(self.leaf_regions() == old(self).leaf_regions());
                    assert forall|s: Seq<Option<Region>>| old(self).wf(s) implies #[trigger] self.wf(s) by {
                        assert(self.handles() =~= Set::<u64>::empty());
                        assert(fq.top_left.wf(s));
                        assert(fq.top_right.wf(s));
                        assert(fq.bottom_left.wf(s));
                        assert(fq.bottom_right.wf(s));
                    }
                }
                r
            },
        }
    }
}

impl QuadNode {
    /// The four empty quadrants of this cell, one level down.
    fn divide(&self) -> (r: Box<Quadrants>)
        requires
            well_formed(self.region),
            extent_fits(self.region),
            self.depth < MAX_DEPTH,
        ensures
            QuadNode::empty_leaf(r.top_left, quadrant(self.region, 0), self.depth + 1),
            QuadNode::empty_leaf(r.top_right, quadrant(self.region, 1), self.depth + 1),
            QuadNode::empty_leaf(r.bottom_left, quadrant(self.region, 2), self.depth + 1),
            QuadNode::empty_leaf(r.bottom_right, quadrant(self.region, 3), self.depth + 1),
    {
        let quads = self.region.quad_divide();
        let depth = self.depth + 1;
        proof {
            lemma_quadrant_fits(self.region);
        }
        Box::new(
            Quadrants {
                top_left: QuadNode::new(quads[0], depth),
                top_right: QuadNode::new(quads[1], depth),
                bottom_left: QuadNode::new(quads[2], depth),
                bottom_right: QuadNode::new(quads[3], depth),
            },
        )
    }

    /// `c` is an empty leaf over `region` at `depth`, valid over any slots.
    spec fn empty_leaf(c: QuadNode, region: Region, depth: int) -> bool {
        &&& c.region == region
        &&& c.depth == depth
        &&& c.handles() == Set::<u64>::empty()
        &&& forall|s: Seq<Option<Region>>| #[trigger] c.wf(s)
    }

    /// Files the handle `value` under this cell: a leaf appends it, and splits
    /// once it holds more than `MAX_CELL_SIZE` entries above `MAX_DEPTH`,
    /// handing each entry to every quadrant its stored region meets; a parent
    /// hands `value` to every quadrant its stored region meets.
    ///
    /// Afterwards the cell holds no handle but its old ones and `value`, and
    /// holds each of these whose stored region meets the cell's region.
    pub fn insert(&mut self, value: &SlotId, region_store: &SlotMap<Region>)
        requires
            old(self).wf(region_store.slots()),
            occupied_in(region_store.slots(), value@),
            well_formed(stored(region_store.slots(), value@)),
        ensures
            final(self).wf(region_store.slots()),
            final(self).bounds() == old(self).bounds(),
            final(self).level() == old(self).level(),
            !old(self).is_leaf() ==> !final(self).is_leaf(),
            old(self).is_leaf() && old(self).count() + 1 > MAX_CELL_SIZE && old(self).level() < MAX_DEPTH
                ==> !final(self).is_leaf(),
            old(self).is_leaf() && (old(self).count() + 1 <= MAX_CELL_SIZE || old(self).level() >= MAX_DEPTH)
                ==> final(self).is_leaf() && final(self).listing() == old(self).listing().push(*value),
            final(self).handles().subset_of(old(self).handles().insert(value@)),
            forall|h: u64|
                #[trigger] old(self).handles().insert(value@).contains(h)
                    && meets(stored(region_store.slots(), h), old(self).bounds())
                    ==> final(self).handles().contains(h),
        decreases MAX_DEPTH - old(self).level(), (if old(self).is_leaf() { 1int } else { 0int }),
    {
        let ghost s = region_store.slots();
        let ghost v = value@;
        let mut kind = NodeType::Leaf(Vec::new());
        std::mem::swap(&mut self.node_type, &mut kind);
        match kind {
            NodeType::Leaf(mut values) => {
                let ghost old_values = values@;
                values.push(*value);
                proof {
                    assert(ids(values@) =~= ids(old_values).push(v));
                    ids(old_values).lemma_push_to_set_commute(v);
                }
                if values.len() > MAX_CELL_SIZE && self.depth < MAX_DEPTH {
                    self.node_type = NodeType::Parent(self.divide());
                    proof {
                        lemma_quadrant_fits(self.region);
                        assert(ids(Seq::<SlotId>::empty()).to_set() =~= Set::<u64>::empty());
                        assert(self.handles() =~= Set::<u64>::empty());
                        let q = self.node_type->Parent_0;
                        assert(q.top_left.wf(s));
                        assert(q.top_right.wf(s));
                        assert(q.bottom_left.wf(s));
                        assert(q.bottom_right.wf(s));
                        assert(self.holds_child(q.top_left, 0, s));
                        assert(self.holds_child(q.top_right, 1, s));
                        assert(self.holds_child(q.bottom_left, 2, s));
                        assert(self.holds_child(q.bottom_right, 3, s));
                        assert forall|h: u64| #[trigger] ids(values@).contains(h)
                            implies occupied_in(s, h) && well_formed(stored(s, h)) by {
                            assert(ids(values@).to_set().contains(h));
                            if h != v {
                                assert(old(self).handles().contains(h));
                            }
                        }
                    }
                    let mut i: usize = 0;
                    while i < values.len()
                        invariant
                            i <= values@.len(),
                            s == region_store.slots(),
                            self.wf(s),
                            self.region == old(self).region,
                            self.depth == old(self).depth,
                            self.node_type is Parent,
                            old(self).is_leaf(),
                            ids(values@).to_set() == old(self).handles().insert(v),
                            self.handles().subset_of(ids(values@).to_set()),
                            forall|h: u64| #[trigger] ids(values@).contains(h)
                                ==> occupied_in(s, h) && well_formed(stored(s, h)),
                            forall|j: int| 0 <= j < i && meets(stored(s, #[trigger] values@[j]@), self.region)
                                ==> self.handles().contains(values@[j]@),
                        decreases values@.len() - i,
                    {
                        proof {
                            assert(ids(values@)[i as int] == values@[i as int]@);
                        }
                        let ghost before = self.handles();
                        proof {
                            assert(ids(values@).contains(values@[i as int]@));
                        }
                        self.insert(&values[i], region_store);
                        proof {
                            assert forall|j: int| 0 <= j < i + 1 && meets(stored(s, #[trigger] values@[j]@), self.region)
                                implies self.handles().contains(values@[j]@) by {
                                assert(before.insert(values@[i as int]@).contains(values@[j]@));
                            }
                        }
                        i = i + 1;
                    }
                    proof {
                        assert forall|h: u64| #[trigger] old(self).handles().insert(v).contains(h)
                            && meets(stored(s, h), old(self).region) implies self.handles().contains(h) by {
                            assert(ids(values@).to_set().contains(h));
                            let j = choose|j: int| 0 <= j < ids(values@).len() && ids(values@)[j] == h;
                            assert(values@[j]@ == h);
                        }
                    }
                } else {
                    self.node_type = NodeType::Leaf(values);
                    proof {
                        assert forall|h: u64| #[trigger] self.handles().contains(h)
                            implies occupied_in(s, h) && well_formed(stored(s, h)) by {
                            if h != v {
                                assert(old(self).handles().contains(h));
                            }
                        }
                    }
                }
            },
            NodeType::Parent(mut q) => {
                let ghost q0 = *q;
                let r = region_store.get(value).unwrap();
                if q.top_left.region.intersects(r) {
                    q.top_left.insert(value, region_store);
                }
                if q.top_right.region.intersects(r) {
                    q.top_right.insert(value, region_store);
                }
                if q.bottom_left.region.intersects(r) {
                    q.bottom_left.insert(value, region_store);
                }
                if q.bottom_right.region.intersects(r) {
                    q.bottom_right.insert(value, region_store);
                }
                let ghost q1 = *q;
                self.node_type = NodeType::Parent(q);
                proof {
                    let sv = stored(s, v);
                    lemma_child_step(q0.top_left, q1.top_left, v, s);
                    lemma_child_step(q0.top_right, q1.top_right, v, s);
                    lemma_child_step(q0.bottom_left, q1.bottom_left, v, s);
                    lemma_child_step(q0.bottom_right, q1.bottom_right, v, s);
                    let grows = meets(sv, q0.top_left.region) || meets(sv, q0.top_right.region)
                        || meets(sv, q0.bottom_left.region) || meets(sv, q0.bottom_right.region);
                    assert(self.handles() =~= if grows { old(self).handles().insert(v) } else { old(self).handles() });
                    if meets(sv, self.region) {
                        lemma_common_point_quadrant(sv, sv, self.region);
                        let i = choose|i: int| 0 <= i < 4 && common_point(sv, sv, #[trigger] quadrant(self.region, i));
                        assert(meets(sv, quadrant(self.region, i)));
                    }
                }
            },
        }
    }
}

impl QuadNode {
    /// Takes the handle `value` out of every leaf below this cell, descending
    /// into the quadrants its stored region meets. A parent whose leaves then
    /// hold fewer than `MAX_CELL_SIZE` entries in all turns into a leaf holding
    /// them.
    pub fn remove(&mut self, value: &SlotId, region_store: &SlotMap<Region>)
        requires
            old(self).wf(region_store.slots()),
            old(self).count() <= usize::MAX,
            !old(self).is_leaf() ==> occupied_in(region_store.slots(), value@),
        ensures
            final(self).wf(region_store.slots()),
            final(self).bounds() == old(self).bounds(),
            final(self).level() == old(self).level(),
            final(self).handles() == old(self).handles().remove(value@),
            final(self).count() <= old(self).count(),
            old(self).is_leaf() ==> final(self).is_leaf(),
            !old(self).is_leaf() ==> (final(self).is_leaf() <==> final(self).count() < MAX_CELL_SIZE),
        decreases *old(self),
    {
        let ghost s = region_store.slots();
        let ghost v = value@;
        let mut kind = NodeType::Leaf(Vec::new());
        std::mem::swap(&mut self.node_type, &mut kind);
        match kind {
            NodeType::Leaf(values) => {
                let kept = without(values, value);
                self.node_type = NodeType::Leaf(kept);
                proof {
                    assert(self.handles() =~= old(self).handles().remove(v));
                }
            },
            NodeType::Parent(mut q) => {
                let ghost q0 = *q;
                let r = region_store.get(value).unwrap();
                if q.top_left.region.intersects(r) {
                    q.top_left.remove(value, region_store);
                }
                if q.top_right.region.intersects(r) {
                    q.top_right.remove(value, region_store);
                }
                if q.bottom_left.region.intersects(r) {
                    q.bottom_left.remove(value, region_store);
                }
                if q.bottom_right.region.intersects(r) {
                    q.bottom_right.remove(value, region_store);
                }
                let ghost q1 = *q;
                self.node_type = NodeType::Parent(q);
                proof {
                    lemma_child_remove(q0.top_left, q1.top_left, v, s);
                    lemma_child_remove(q0.top_right, q1.top_right, v, s);
                    lemma_child_remove(q0.bottom_left, q1.bottom_left, v, s);
                    lemma_child_remove(q0.bottom_right, q1.bottom_right, v, s);
                    assert(self.handles() =~= old(self).handles().remove(v));
                }
                if self.value_count_rec() < MAX_CELL_SIZE {
                    let ghost before = *self;
                    let values = self.drain_values_rec();
                    self.node_type = NodeType::Leaf(values);
                    proof {
                        before.lemma_listing_handles();
                    }
                }
            },
        }
    }
}

/// `values` without the handles equal to `value`, in the same order.
fn without(values: Vec<SlotId>, value: &SlotId) -> (r: Vec<SlotId>)
    ensures
        ids(r@).to_set() == ids(values@).to_set().remove(value@),
        r@.len() <= values@.len(),
{
    let mut r: Vec<SlotId> = Vec::new();
    let mut i: usize = 0;
    while i < values.len()
        invariant
            i <= values@.len(),
            r@.len() <= i,
            forall|h: u64| #[trigger] ids(r@).contains(h)
                <==> (ids(values@.take(i as int)).contains(h) && h != value@),
        decreases values@.len() - i,
    {
        let ghost before = r@;
        if values[i] != *value {
            r.push(values[i]);
        }
        proof {
            assert(ids(values@.take(i as int + 1)) =~= ids(values@.take(i as int)).push(values@[i as int]@));
            assert(ids(before.push(values@[i as int])) =~= ids(before).push(values@[i as int]@));
            assert forall|h: u64| #[trigger] ids(r@).contains(h)
                <==> (ids(values@.take(i as int + 1)).contains(h) && h != value@) by {
                if ids(values@.take(i as int)).contains(h) {
                    let k = choose|k: int| 0 <= k < ids(values@.take(i as int)).len() && ids(values@.take(i as int))[k] == h;
                    assert(ids(values@.take(i as int + 1))[k] == h);
                }
                if ids(before).contains(h) {
                    let k = choose|k: int| 0 <= k < ids(before).len() && ids(before)[k] == h;
                    assert(ids(r@)[k] == h);
                }
                let next = ids(values@.take(i as int + 1));
                if next.contains(h) {
                    let k = choose|k: int| 0 <= k < next.len() && next[k] == h;
                    if k < i {
                        assert(ids(values@.take(i as int))[k] == h);
                    } else if h != value@ {
                        assert(ids(r@)[r@.len() - 1] == h);
                    }
                }
                if ids(r@).contains(h) && !ids(before).contains(h) {
                    let k = choose|k: int| 0 <= k < ids(r@).len() && ids(r@)[k] == h;
                    assert(k == before.len());
                    assert(next[i as int] == h);
                }
            }
        }
        i = i + 1;
    }
    proof {
        assert(values@.take(i as int) =~= values@);
        assert(ids(r@).to_set() =~= ids(values@).to_set().remove(value@));
    }
    r
}

/// How a quadrant's handles change when its parent takes out `v`: the
/// quadrant loses `v`, which it can only hold if `v`'s stored region meets its
/// own.
proof fn lemma_child_remove(c: QuadNode, c2: QuadNode, v: u64, s: Seq<Option<Region>>)
    requires
        forall|h: u64| #[trigger] c.handles().contains(h) ==> meets(stored(s, h), c.region),
        meets(stored(s, v), c.region) ==> c2.handles() == c.handles().remove(v) && c2.count() <= c.count(),
        !meets(stored(s, v), c.region) ==> c2 == c,
    ensures
        c2.handles() == c.handles().remove(v),
        c2.count() <= c.count(),
{
    if !meets(stored(s, v), c.region) {
        assert(c.handles().remove(v) =~= c.handles());
    }
}

/// How a quadrant's handles change when its parent files `v`: the quadrant
/// gains `v` exactly when `v`'s stored region meets its own.
proof fn lemma_child_step(c: QuadNode, c2: QuadNode, v: u64, s: Seq<Option<Region>>)
    requires
        forall|h: u64| #[trigger] c.handles().contains(h) ==> meets(stored(s, h), c.region),
        meets(stored(s, v), c.region) ==> c2.handles().subset_of(c.handles().insert(v))
            && (forall|h: u64| #[trigger] c.handles().insert(v).contains(h) && meets(stored(s, h), c.region)
                ==> c2.handles().contains(h)),
        !meets(stored(s, v), c.region) ==> c2 == c,
    ensures
        c2.handles() == if meets(stored(s, v), c.region) { c.handles().insert(v) } else { c.handles() },
{
    if meets(stored(s, v), c.region) {
        assert forall|h: u64| #[trigger] c.handles().insert(v).contains(h) implies c2.handles().contains(h) by {
            assert(meets(stored(s, h), c.region));
        }
        assert(c2.handles() =~= c.handles().insert(v));
    }
}

/// The result of `query` on the quadrant `c` if it meets `region`, else nothing.
fn query_child<'a>(
    c: &'a QuadNode,
    region: &Region,
    region_store: &SlotMap<Region>,
    exclude: &Vec<SlotId>,
) -> (r: Vec<&'a SlotId>)
    requires
        c.wf(region_store.slots()),
    ensures
        forall|i: int| 0 <= i < r@.len() ==> {
            let h = #[trigger] ref_ids(r@)[i];
            &&& c.handles().contains(h)
            &&& meets(stored(region_store.slots(), h), *region)
            &&& !excluded(exclude@, h)
        },
        forall|h: u64|
            #[trigger] c.handles().contains(h) && !excluded(exclude@, h)
                && common_point(stored(region_store.slots(), h), *region, c.bounds())
                ==> ref_ids(r@).contains(h),
    decreases c, 1int,
{
    if c.region.intersects(region) {
        c.query(region, region_store, exclude)
    } else {
        Vec::new()
    }
}

/// The handles of a leaf list whose stored region meets `region` and which
/// `exclude` does not name, in list order.
fn query_leaf<'a>(
    values: &'a Vec<SlotId>,
    region: &Region,
    region_store: &SlotMap<Region>,
    exclude: &Vec<SlotId>,
) -> (r: Vec<&'a SlotId>)
    requires
        forall|h: u64| #[trigger] ids(values@).contains(h) ==> occupied_in(region_store.slots(), h),
    ensures
        forall|i: int| 0 <= i < r@.len() ==> {
            let h = #[trigger] ref_ids(r@)[i];
            &&& ids(values@).contains(h)
            &&& meets(stored(region_store.slots(), h), *region)
            &&& !excluded(exclude@, h)
        },
        forall|h: u64|
            #[trigger] ids(values@).contains(h) && !excluded(exclude@, h)
                && meets(stored(region_store.slots(), h), *region)
                ==> ref_ids(r@).contains(h),
{
    let ghost s = region_store.slots();
        let mut out: Vec<&'a SlotId> = Vec::new();
        let mut i: usize = 0;
        while i < values.len()
            invariant
                i <= values@.len(),
                forall|h: u64| #[trigger] ids(values@).contains(h) ==> occupied_in(s, h),
                s == region_store.slots(),
                forall|k: int| 0 <= k < out@.len() ==> {
                    let h = #[trigger] ref_ids(out@)[k];
                    &&& ids(values@).contains(h)
                    &&& meets(stored(s, h), *region)
                    &&& !excluded(exclude@, h)
                },
                forall|j: int| 0 <= j < i && meets(stored(s, #[trigger] values@[j]@), *region)
                    && !excluded(exclude@, values@[j]@) ==> ref_ids(out@).contains(values@[j]@),
            decreases values@.len() - i,
        {
            let id = &values[i];
            proof {
                assert(ids(values@)[i as int] == id@);
                assert(ids(values@).contains(id@));
            }
            let stored_region = region_store.get(id).unwrap();
            let ghost before = out@;
            if stored_region.intersects(region) && !listed(exclude, id) {
                out.push(id);
                proof {
                    assert(ref_ids(out@) =~= ref_ids(before).push(id@));
                }
            }
            proof {
                assert forall|j: int| 0 <= j < i + 1 && meets(stored(s, #[trigger] values@[j]@), *region)
                    && !excluded(exclude@, values@[j]@) implies ref_ids(out@).contains(values@[j]@) by {
                    if j < i {
                        assert(ref_ids(before).contains(values@[j]@));
                        let k = choose|k: int| 0 <= k < ref_ids(before).len() && ref_ids(before)[k] == values@[j]@;
                        assert(ref_ids(out@)[k] == values@[j]@);
                    } else {
                        assert(ref_ids(out@)[out@.len() - 1] == values@[j]@);
                    }
                }
            }
            i = i + 1;
        }
        proof {
            assert forall|h: u64|
                #[trigger] ids(values@).contains(h) && !excluded(exclude@, h)
                    && meets(stored(s, h), *region)
                    implies ref_ids(out@).contains(h) by {
                let j = choose|j: int| 0 <= j < ids(values@).len() && ids(values@)[j] == h;
                assert(values@[j]@ == h);
            }
        }
        out
}

/// The set of a concatenation is the union of the sets.
pub proof fn lemma_to_set_concat(a: Seq<u64>, b: Seq<u64>)
    ensures
        (a + b).to_set() == a.to_set() + b.to_set(),
{
    assert forall|x: u64| #[trigger] (a + b).to_set().contains(x) <==> (a.to_set() + b.to_set()).contains(x) by {
        if (a + b).to_set().contains(x) {
            let i = choose|i: int| 0 <= i < (a + b).len() && (a + b)[i] == x;
            if i < a.len() {
                assert(a[i] == x);
            } else {
                assert(b[i - a.len()] == x);
            }
        }
        if a.to_set().contains(x) {
            let i = choose|i: int| 0 <= i < a.len() && a[i] == x;
            assert((a + b)[i] == x);
        }
        if b.to_set().contains(x) {
            let i = choose|i: int| 0 <= i < b.len() && b[i] == x;
            assert((a + b)[i + a.len()] == x);
        }
    }
    assert((a + b).to_set() =~= a.to_set() + b.to_set());
}

} // verus!
