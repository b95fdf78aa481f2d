use vstd::prelude::*;

use crate::handle_set::{handle_set_view, HandleSet};
use crate::node::{excluded, ids, keeps_slots, occupied_in, ref_ids, stored, QuadNode};
use crate::region::{common_point, encloses, extent_fits, holds_point, meets, well_formed, Region};
use crate::slot_map::{lemma_slot_id_eq, SlotId, SlotMap};

verus! {

broadcast use lemma_slot_id_eq;

/// The values behind a list of borrows.
pub open spec fn payloads<T>(r: Seq<&T>) -> Seq<T> {
    r.map_values(|v: &T| *v)
}

/// A spatial index over a fixed world region: each inserted item is a region
/// and a payload, both stored under one handle, and the handles are filed in a
/// quadtree over the world.
///
/// The index is rebuilt rather than edited: `clear` drops every item, and
/// handles issued before a `clear` name whatever is inserted after it.
#[derive(Debug)]
pub struct QuadTree<T> {
    region_store: SlotMap<Region>,
    value_store: SlotMap<T>,
    root: Box<QuadNode>,
}

impl<T> QuadTree<T> {
    /// The world region the tree covers.
    pub closed spec fn world(&self) -> Region {
        self.root.bounds()
    }

    /// The regions of the items, by handle.
    pub closed spec fn regions(&self) -> Seq<Region> {
        self.region_store.slots().map_values(|o: Option<Region>| o.unwrap())
    }

    /// The payloads of the items, by handle.
    pub closed spec fn values(&self) -> Seq<T> {
        self.value_store.slots().map_values(|o: Option<T>| o.unwrap())
    }

    /// The regions of the leaf cells of the tree.
    pub closed spec fn cells(&self) -> Seq<Region> {
        self.root.leaf_regions()
    }

    /// The two stores hold one item per handle, issued in order from zero; each
    /// region is well formed; the tree holds only issued handles, and holds
    /// every handle whose region meets the world.
    pub closed spec fn wf(&self) -> bool {
        let s = self.region_store.slots();
        &&& self.region_store.wf()
        &&& self.value_store.wf()
        &&& self.region_store.free_list().len() == 0
        &&& self.value_store.free_list().len() == 0
        &&& s.len() == self.value_store.slots().len()
        &&& s.len() <= u64::MAX
        &&& forall|h: int| 0 <= h < s.len() ==> (#[trigger] s[h]) is Some && well_formed(s[h].unwrap())
        &&& forall|h: int| 0 <= h < s.len() ==> (#[trigger] self.value_store.slots()[h]) is Some
        &&& self.root.wf(s)
        &&& forall|h: u64| #[trigger] self.root.handles().contains(h) ==> h < s.len()
        &&& forall|h: u64| h < s.len() && meets(#[trigger] stored(s, h), self.root.bounds())
            ==> self.root.handles().contains(h)
    }

    /// `hs` lists, once each, the handles of items that `exclude` does not
    /// name and whose region meets `region`, among them every such item whose
    /// region shares a point with `region` inside the world; `r` holds their
    /// payloads in the same order.
    pub open spec fn answered_by(&self, region: Region, exclude: Seq<SlotId>, r: Seq<T>, hs: Seq<u64>) -> bool {
        &&& hs.no_duplicates()
        &&& r.len() == hs.len()
        &&& forall|i: int| 0 <= i < hs.len() ==> #[trigger] r[i] == self.values()[hs[i] as int]
        &&& forall|i: int| 0 <= i < hs.len() ==> {
            let h = #[trigger] hs[i];
            &&& h < self.values().len()
            &&& meets(self.regions()[h as int], region)
            &&& !excluded(exclude, h)
        }
        &&& forall|h: u64| h < self.values().len() && !excluded(exclude, h)
            && #[trigger] common_point(self.regions()[h as int], region, self.world()) ==> hs.contains(h)
    }

    /// A valid index has one region per payload.
    pub proof fn lemma_item_count(&self)
        requires
            self.wf(),
        ensures
            self.regions().len() == self.values().len(),
    {
    }

    /// The leaf cells of a valid index lie in the world and cover every point
    /// of it, and there are `1 + 3k` of them.
    pub proof fn lemma_cells(&self)
        requires
            self.wf(),
        ensures
            self.cells().len() % 3 == 1,
            forall|i: int| 0 <= i < self.cells().len() ==> encloses(self.world(), #[trigger] self.cells()[i]),
            forall|x: int, y: int| #[trigger] holds_point(self.world(), x, y)
                ==> exists|i: int| 0 <= i < self.cells().len() && holds_point(#[trigger] self.cells()[i], x, y),
    {
        self.root.lemma_leaf_regions(self.region_store.slots());
    }

    /// An empty index over `region`.
    pub fn new(region: Region) -> (r: QuadTree<T>)
        requires
            well_formed(region),
            extent_fits(region),
        ensures
            r.wf(),
            r.world() == region,
            r.cells() == seq![region],
            r.regions() == Seq::<Region>::empty(),
            r.values() == Seq::<T>::empty(),
    {
        let r = QuadTree { region_store: SlotMap::new(), value_store: SlotMap::new(), root: Box::new(QuadNode::new(region, 0)) };
        proof {
            assert(r.regions() =~= Seq::<Region>::empty());
            assert(r.values() =~= Seq::<T>::empty());
            assert(r.root.wf(r.region_store.slots()));
        }
        r
    }

    /// The number of items.
    pub fn value_count(&self) -> (r: usize)
        requires
            self.wf(),
        ensures
            r == self.values().len(),
    {
        self.value_store.len()
    }

    /// Drops every item and every cell below the root.
    pub fn clear(&mut self)
        requires
            old(self).wf(),
        ensures
            final(self).wf(),
            final(self).world() == old(self).world(),
            final(self).cells() == seq![old(self).world()],
            final(self).regions() == Seq::<Region>::empty(),
            final(self).values() == Seq::<T>::empty(),
    {
        proof {
            self.root.lemma_wf_bounds(self.region_store.slots());
        }
        self.region_store.clear();
        self.value_store.clear();
        self.root.clear();
        proof {
            assert(self.regions() =~= Seq::<Region>::empty());
            assert(self.values() =~= Seq::<T>::empty());
            assert(self.root.wf(self.region_store.slots()));
        }
    }

    /// The world region.
    pub fn size(&self) -> (r: &Region)
        ensures
            *r == self.world(),
    {
        self.root.size()
    }

    /// The regions of the leaf cells, for drawing the tree.
    pub fn get_regions(&self) -> (r: Vec<&Region>)
        ensures
            r@.map_values(|g: &Region| *g) == self.cells(),
    {
        self.root.get_regions()
    }

    /// The payloads of the items whose region meets `region`, each once and in
    /// no set order, leaving out those `exclude` names. Every item whose
    /// region shares a point with `region` inside the world is among them.
    pub fn query<'a>(&'a self, region: &Region, exclude: &Vec<SlotId>) -> (r: Vec<&'a T>)
        requires
            self.wf(),
        ensures
            exists|hs: Seq<u64>| #[trigger] self.answered_by(*region, exclude@, payloads(r@), hs),
    {
        let ghost s = self.region_store.slots();
        let raw = self.root.query(region, &self.region_store, exclude);
        let mut seen = HandleSet::new();
        let mut i: usize = 0;
        while i < raw.len()
            invariant
                i <= raw@.len(),
                handle_set_view(seen) == ref_ids(raw@.take(i as int)).to_set(),
            decreases raw@.len() - i,
        {
            proof {
                assert(ref_ids(raw@.take(i as int + 1)) =~= ref_ids(raw@.take(i as int)).push(raw@[i as int]@));
                ref_ids(raw@.take(i as int)).lemma_push_to_set_commute(raw@[i as int]@);
            }
            seen.insert(raw[i].index());
            i = i + 1;
        }
        proof {
            assert(raw@.take(i as int) =~= raw@);
        }
        let handles = seen.to_vec();
        let ghost hs = handles@;
        let mut out: Vec<&'a T> = Vec::new();
        let mut k: usize = 0;
        while k < handles.len()
            invariant
                self.wf(),
                k <= hs.len(),
                hs == handles@,
                hs.to_set() == ref_ids(raw@).to_set(),
                forall|j: int| 0 <= j < raw@.len() ==> {
                    let h = #[trigger] ref_ids(raw@)[j];
                    &&& self.root.handles().contains(h)
                    &&& meets(stored(s, h), *region)
                    &&& !excluded(exclude@, h)
                },
                out@.len() == k,
                forall|j: int| 0 <= j < k ==> *#[trigger] out@[j] == self.values()[hs[j] as int],
            decreases hs.len() - k,
        {
            let h = handles[k];
            proof {
                assert(hs.to_set().contains(h));
                let j = choose|j: int| 0 <= j < ref_ids(raw@).len() && ref_ids(raw@)[j] == h;
                assert(self.root.handles().contains(h));
            }
            let v = self.value_store.get(&SlotId::new(h)).unwrap();
            out.push(v);
            k = k + 1;
        }
        proof {
            let r = payloads(out@);
            assert forall|i: int| 0 <= i < hs.len() implies {
                let h = #[trigger] hs[i];
                &&& h < self.values().len()
                &&& meets(self.regions()[h as int], *region)
                &&& !excluded(exclude@, h)
            } by {
                assert(hs.to_set().contains(hs[i]));
                let j = choose|j: int| 0 <= j < ref_ids(raw@).len() && ref_ids(raw@)[j] == hs[i];
                assert(self.root.handles().contains(hs[i]));
            }
            assert forall|h: u64| h < self.values().len() && !excluded(exclude@, h)
                && #[trigger] common_point(self.regions()[h as int], *region, self.world()) implies hs.contains(h) by {
                assert(stored(s, h) == self.regions()[h as int]);
                assert(meets(stored(s, h), self.root.bounds()));
                assert(self.root.handles().contains(h));
                assert(ref_ids(raw@).contains(h));
                assert(ref_ids(raw@).to_set().contains(h));
            }
            assert(self.answered_by(*region, exclude@, r, hs));
        }
        out
    }

    /// Stores `region` and `values` under a new handle, the next one in order,
    /// and files the handle in the tree.
    pub fn insert(&mut self, region: Region, values: T) -> (r: SlotId)
        requires
            old(self).wf(),
            well_formed(region),
            old(self).values().len() < u64::MAX,
        ensures
            final(self).wf(),
            r@ == old(self).values().len(),
            final(self).world() == old(self).world(),
            final(self).regions() == old(self).regions().push(region),
            final(self).values() == old(self).values().push(values),
    {
        let ghost s0 = self.region_store.slots();
        let region_id = self.region_store.insert(region);
        let value_id = self.value_store.insert(values);
        proof {
            assert(region_id == value_id);
            let s = self.region_store.slots();
            assert(keeps_slots(s0, s));
            self.root.lemma_wf_frame(s0, s);
            assert(occupied_in(s, value_id@));
        }
        self.root.insert(&value_id, &self.region_store);
        proof {
            let s = self.region_store.slots();
            assert(self.regions() =~= old(self).regions().push(region));
            assert(self.values() =~= old(self).values().push(values));
            assert forall|h: u64| h < s.len() && meets(#[trigger] stored(s, h), self.root.bounds())
                implies self.root.handles().contains(h) by {
                if h < s0.len() {
                    assert(stored(s0, h) == stored(s, h));
                    assert(old(self).root.handles().contains(h));
                }
                assert(old(self).root.handles().insert(value_id@).contains(h));
            }
            assert forall|h: int| 0 <= h < s.len() implies (#[trigger] s[h]) is Some && well_formed(s[h].unwrap()) by {
                if h < s0.len() {
                    assert(s0[h] is Some);
                }
            }
            assert forall|h: int| 0 <= h < s.len() implies (#[trigger] self.value_store.slots()[h]) is Some by {
                if h < s0.len() {
                    assert(old(self).value_store.slots()[h] is Some);
                }
            }
        }
        value_id
    }
}

/// Querying the whole world with nothing excluded returns every item once,
/// when each item lies in the world.
pub proof fn lemma_world_query_returns_every_item<T>(t: QuadTree<T>, r: Seq<T>, hs: Seq<u64>)
    requires
        t.wf(),
        t.answered_by(t.world(), Seq::<SlotId>::empty(), r, hs),
        forall|h: int| 0 <= h < t.regions().len() ==> encloses(t.world(), #[trigger] t.regions()[h]),
    ensures
        r.len() == t.values().len(),
        hs.to_set() == Set::new(|h: u64| h < t.values().len()),
{
    let n = t.values().len();
    let all = Seq::new(n, |i: int| i as u64);
    assert forall|h: u64| #[trigger] hs.to_set().contains(h) <==> all.to_set().contains(h) by {
        if h < n {
            let s = t.region_store.slots();
            assert(s[h as int] is Some && well_formed(s[h as int].unwrap()));
            assert(t.regions()[h as int] == s[h as int].unwrap());
            assert(encloses(t.world(), t.regions()[h as int]));
            assert(!excluded(Seq::<SlotId>::empty(), h));
            assert(common_point(t.regions()[h as int], t.world(), t.world()));
            assert(all[h as int] == h);
        }
        if hs.to_set().contains(h) {
            let i = choose|i: int| 0 <= i < hs.len() && hs[i] == h;
            assert(h < n);
        }
    }
    assert(hs.to_set() =~= all.to_set());
    assert forall|i: int, j: int| 0 <= i < all.len() && 0 <= j < all.len() && i != j implies all[i] != all[j] by {}
    hs.unique_seq_to_set();
    all.unique_seq_to_set();
    assert forall|h: u64| #[trigger] all.to_set().contains(h) <==> h < n by {
        if h < n {
            assert(all[h as int] == h);
        }
    }
    assert(hs.to_set() =~= Set::new(|h: u64| h < n));
}

/// A query never returns an item that its exclude list names.
pub proof fn lemma_excluded_never_returned<T>(
    t: QuadTree<T>,
    region: Region,
    exclude: Seq<SlotId>,
    r: Seq<T>,
    hs: Seq<u64>,
    i: int,
)
    requires
        t.answered_by(region, exclude, r, hs),
        0 <= i < exclude.len(),
    ensures
        !hs.contains(exclude[i]@),
{
    if hs.contains(exclude[i]@) {
        let k = choose|k: int| 0 <= k < hs.len() && hs[k] == exclude[i]@;
        assert(ids(exclude)[i] == exclude[i]@);
        assert(excluded(exclude, hs[k]));
    }
}

/// An item that a query must find comes back exactly once, however many
/// leaves hold it.
pub proof fn lemma_match_returned_once<T>(
    t: QuadTree<T>,
    region: Region,
    exclude: Seq<SlotId>,
    r: Seq<T>,
    hs: Seq<u64>,
    h: u64,
)
    requires
        t.answered_by(region, exclude, r, hs),
        h < t.values().len(),
        !excluded(exclude, h),
        common_point(t.regions()[h as int], region, t.world()),
    ensures
        exists|i: int| 0 <= i < hs.len() && hs[i] == h && r[i] == t.values()[h as int]
            && forall|j: int| 0 <= j < hs.len() && #[trigger] hs[j] == h ==> j == i,
{
    let i = choose|i: int| 0 <= i < hs.len() && hs[i] == h;
    assert(r[i] == t.values()[h as int]);
}

/// After `clear`, every query returns nothing.
pub proof fn lemma_cleared_query_empty<T>(
    t: QuadTree<T>,
    region: Region,
    exclude: Seq<SlotId>,
    r: Seq<T>,
    hs: Seq<u64>,
)
    requires
        t.values().len() == 0,
        t.answered_by(region, exclude, r, hs),
    ensures
        r.len() == 0,
{
    if hs.len() > 0 {
        assert(hs[0] < t.values().len());
    }
}

/// After `clear`, handles count up from zero as on a new index: when `ts[0]`
/// is the index just cleared and each `ts[k + 1]` comes from `ts[k]` by an
/// `insert` that returned `hs[k]`, the `k`-th insert returned `k`.
pub proof fn lemma_handles_count_from_clear<T>(ts: Seq<QuadTree<T>>, hs: Seq<u64>)
    requires
        ts.len() == hs.len() + 1,
        ts[0].values().len() == 0,
        forall|k: int| 0 <= k < hs.len() ==> #[trigger] hs[k] == ts[k].values().len()
            && ts[k + 1].values().len() == ts[k].values().len() + 1,
    ensures
        forall|k: int| 0 <= k < hs.len() ==> #[trigger] hs[k] == k,
    decreases hs.len(),
{
    if hs.len() > 0 {
        let n = hs.len() - 1;
        lemma_handles_count_from_clear(ts.take(n + 1), hs.take(n));
        assert forall|k: int| 0 <= k < hs.len() implies #[trigger] hs[k] == k by {
            if k < n {
                assert(hs.take(n)[k] == hs[k]);
            } else {
                assert(hs.take(n)[n - 1] == hs[n - 1] || n == 0);
                if n > 0 {
                    assert(hs[n - 1] == ts[n - 1].values().len());
                }
            }
        }
    }
}

} // verus!
