use vstd::prelude::*;

verus! {

/// A handle issued by a [`SlotMap`]: the position of its slot.
#[derive(Debug, Copy, Clone, Hash, PartialEq, Eq, Structural)]
pub struct SlotId {
    index: u64,
}

impl View for SlotId {
    type V = u64;

    closed spec fn view(&self) -> u64 {
        self.index
    }
}

/// Two handles are equal exactly when their positions are.
pub broadcast proof fn lemma_slot_id_eq(a: SlotId, b: SlotId)
    ensures
        (a == b) <==> (#[trigger] a@ == #[trigger] b@),
{
}

impl SlotId {
    pub fn new(index: u64) -> (r: SlotId)
        ensures
            r@ == index,
    {
        SlotId { index }
    }

    /// The position of the slot this handle names.
    pub fn index(&self) -> (r: u64)
        ensures
            r == self@,
    {
        self.index
    }
}

/// The values held by the occupied slots of `s`, in slot order.
pub open spec fn occupied<T>(s: Seq<Option<T>>) -> Seq<T>
    decreases s.len(),
{
    if s.len() == 0 {
        Seq::empty()
    } else {
        let rest = occupied(s.drop_last());
        match s.last() {
            Some(v) => rest.push(v),
            None => rest,
        }
    }
}

/// An arena of optional slots addressed by [`SlotId`], with a stack of freed
/// handles that later insertions reuse, most recently freed first.
///
/// Handles carry no generation: a handle kept across a `remove` or a `clear`
/// may come to name whatever value is inserted into its slot afterwards.
#[derive(Debug)]
pub struct SlotMap<T> {
    data: Vec<Option<T>>,
    id_stack: Vec<SlotId>,
}

impl<T> SlotMap<T> {
    /// The slots, by position.
    pub closed spec fn slots(&self) -> Seq<Option<T>> {
        self.data@
    }

    /// The stack of freed handles, bottom first.
    pub closed spec fn free_list(&self) -> Seq<u64> {
        self.id_stack@.map_values(|h: SlotId| h@)
    }

    /// Every freed handle names an existing slot.
    pub closed spec fn wf(&self) -> bool {
        forall|i: int| 0 <= i < self.id_stack@.len() ==> #[trigger] self.id_stack@[i]@ < self.data@.len()
    }

    /// The handle the next `insert` returns.
    pub open spec fn next_handle(&self) -> u64 {
        if self.free_list().len() > 0 {
            self.free_list().last()
        } else {
            self.slots().len() as u64
        }
    }

    /// The position of the slot `id` as an index into the slots.
    fn position(&self, id: &SlotId) -> (r: usize)
        requires
            id@ < self.data@.len(),
        ensures
            r as int == id@,
    {
        let len = self.data.len();
        assert(id.index < len);
        id.index as usize
    }

    pub fn new() -> (r: SlotMap<T>)
        ensures
            r.wf(),
            r.slots() == Seq::<Option<T>>::empty(),
            r.free_list() == Seq::<u64>::empty(),
    {
        let r = SlotMap { data: Vec::new(), id_stack: Vec::new() };
        proof {
            assert(r.free_list() =~= Seq::<u64>::empty());
        }
        r
    }

    /// Stores `value` in the most recently freed slot, or in a new slot at the
    /// end when none is free, and returns the slot's handle.
    pub fn insert(&mut self, value: T) -> (r: SlotId)
        requires
            old(self).wf(),
            old(self).slots().len() < u64::MAX,
        ensures
            final(self).wf(),
            r@ == old(self).next_handle(),
            r@ < final(self).slots().len(),
            old(self).free_list().len() > 0 ==> final(self).slots() == old(self).slots().update(r@ as int, Some(value))
                && final(self).free_list() == old(self).free_list().drop_last(),
            old(self).free_list().len() == 0 ==> final(self).slots() == old(self).slots().push(Some(value))
                && final(self).free_list() == old(self).free_list(),
    {
        match self.id_stack.pop() {
            Some(id) => {
                proof {
                    assert(old(self).id_stack@.last() == id);
                    assert(old(self).id_stack@[old(self).id_stack@.len() - 1]@ < old(self).data@.len());
                    assert(self.id_stack@ =~= old(self).id_stack@.drop_last());
                    assert(self.free_list() =~= old(self).free_list().drop_last());
                }
                let idx = self.position(&id);
                self.data.set(idx, Some(value));
                proof {
                    assert(self.free_list() =~= old(self).free_list().drop_last());
                }
                id
            },
            None => {
                let id = SlotId::new(self.data.len() as u64);
                self.data.push(Some(value));
                id
            },
        }
    }

    /// The number of slots, occupied or not.
    pub fn len(&self) -> (r: usize)
        ensures
            r == self.slots().len(),
    {
        self.data.len()
    }

    /// Drops every slot and every freed handle.
    pub fn clear(&mut self)
        ensures
            final(self).wf(),
            final(self).slots() == Seq::<Option<T>>::empty(),
            final(self).free_list() == Seq::<u64>::empty(),
    {
        self.data.clear();
        self.id_stack.clear();
        proof {
            assert(self.free_list() =~= Seq::<u64>::empty());
        }
    }

    /// The value in the slot `id`, if it is occupied.
    pub fn get(&self, id: &SlotId) -> (r: Option<&T>)
        requires
            id@ < self.slots().len(),
        ensures
            r.is_some() == self.slots()[id@ as int].is_some(),
            r.is_some() ==> *r.unwrap() == self.slots()[id@ as int].unwrap(),
    {
        self.data[self.position(id)].as_ref()
    }

    /// A mutable borrow of the value in the slot `id`, if it is occupied.
    pub fn get_mut(&mut self, id: &SlotId) -> (r: Option<&mut T>)
        requires
            id@ < old(self).slots().len(),
        ensures
            r.is_some() == old(self).slots()[id@ as int].is_some(),
            r.is_none() ==> final(self).slots() == old(self).slots(),
            final(self).free_list() == old(self).free_list(),
            r.is_some() ==> *r.unwrap() == old(self).slots()[id@ as int].unwrap()
                && final(self).slots() == old(self).slots().update(id@ as int, Some(*final(r.unwrap()))),
            old(self).wf() ==> final(self).wf(),
    {
        let idx = self.position(id);
        self.data[idx].as_mut()
    }

    /// The values of the occupied slots, in slot order.
    pub fn iter(&self) -> (r: Vec<&T>)
        ensures
            r@.len() == occupied(self.slots()).len(),
            forall|i: int| 0 <= i < r@.len() ==> *#[trigger] r@[i] == occupied(self.slots())[i],
    {
        let mut r: Vec<&T> = Vec::new();
        let mut i: usize = 0;
        while i < self.data.len()
            invariant
                i <= self.data@.len(),
                r@.len() == occupied(self.data@.take(i as int)).len(),
                forall|j: int| 0 <= j < r@.len() ==> *#[trigger] r@[j] == occupied(self.data@.take(i as int))[j],
            decreases self.data@.len() - i,
        {
            proof {
                assert(self.data@.take(i as int + 1).drop_last() =~= self.data@.take(i as int));
            }
            match &self.data[i] {
                Some(v) => r.push(v),
                None => {},
            }
            i = i + 1;
        }
        proof {
            assert(self.data@.take(i as int) =~= self.data@);
        }
        r
    }

    /// Puts `value` in the slot `id`, occupied or not.
    pub fn update(&mut self, id: &SlotId, value: T)
        requires
            id@ < old(self).slots().len(),
        ensures
            final(self).slots() == old(self).slots().update(id@ as int, Some(value)),
            final(self).free_list() == old(self).free_list(),
            old(self).wf() ==> final(self).wf(),
    {
        let idx = self.position(id);
        self.data.set(idx, Some(value));
    }

    /// Takes the value out of the slot `id` and frees the handle for reuse.
    pub fn remove(&mut self, id: SlotId) -> (r: Option<T>)
        requires
            id@ < old(self).slots().len(),
            old(self).wf(),
        ensures
            final(self).wf(),
            r == old(self).slots()[id@ as int],
            final(self).slots() == old(self).slots().update(id@ as int, None),
            final(self).free_list() == old(self).free_list().push(id@),
    {
        let idx = self.position(&id);
        self.id_stack.push(id);
        proof {
            assert(self.free_list() =~= old(self).free_list().push(id@));
        }
        let r = self.data[idx].take();
        r
    }
}

} // verus!
