use vstd::prelude::*;

verus! {

/// A set of slot positions, kept in bevy's hash set.
#[verifier::external_body]
pub struct HandleSet {
    set: bevy::utils::HashSet<u64>,
}

/// The positions a [`HandleSet`] holds.
pub uninterp spec fn handle_set_view(s: HandleSet) -> Set<u64>;

impl HandleSet {
    /// Relies on `Default` for bevy's `HashSet` (hashbrown's `HashSet` with
    /// bevy's hasher): a new set is empty.
    #[verifier::external_body]
    pub(crate) fn new() -> (r: HandleSet)
        ensures
            handle_set_view(r) == Set::<u64>::empty(),
    {
        HandleSet { set: bevy::utils::HashSet::default() }
    }

    /// Relies on hashbrown's `HashSet::insert`: `h` is in the set afterwards,
    /// nothing else changes, and the result tells whether `h` was absent.
    #[verifier::external_body]
    pub(crate) fn insert(&mut self, h: u64) -> (r: bool)
        ensures
            handle_set_view(*final(self)) == handle_set_view(*old(self)).insert(h),
            r == !handle_set_view(*old(self)).contains(h),
    {
        self.set.insert(h)
    }

    /// Relies on hashbrown's `HashSet::iter`: it visits each element of the set
    /// once, in an order the table decides.
    #[verifier::external_body]
    pub(crate) fn to_vec(&self) -> (r: Vec<u64>)
        ensures
            r@.no_duplicates(),
            r@.to_set() == handle_set_view(*self),
    {
        self.set.iter().copied().collect()
    }
}

} // verus!
