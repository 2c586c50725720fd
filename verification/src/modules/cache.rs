//! The per-network cache collection.
//!
//! A family of blocks supplies its own collection. The containers need only
//! indexed access to one slot per (virtual) layer, plus the hop between the two
//! sides of the gradient graph.
use vstd::prelude::*;

verus! {

/// The uniform interface of a per-network cache collection.
///
/// The specification functions name what the methods compute. A verified family
/// defines them; a family in ordinary Rust leaves them as they are.
pub trait CacheStack: Sized {
    /// The per-layer cache element.
    type Cache;

    /// The caches, one per (virtual) layer.
    open spec fn slots(&self) -> Seq<Self::Cache> {
        arbitrary()
    }

    /// A cache without the graph that produced it.
    open spec fn lowered(cache: Self::Cache) -> Self::Cache {
        arbitrary()
    }

    /// A cache as a new root of the graph.
    open spec fn lifted(cache: Self::Cache) -> Self::Cache {
        arbitrary()
    }

    /// Number of per-(virtual-)layer slots.
    fn slot_count(&self) -> (n: usize)
        ensures
            n == self.slots().len(),
    ;

    /// Move each slot into an `Option`, so a loop can `take` without a clone.
    fn into_slots(self) -> (slots: Vec<Option<Self::Cache>>)
        ensures
            slots@ == self.slots().map_values(|cache: Self::Cache| Some(cache)),
    ;

    /// Inverse of [`Self::into_slots`]: every slot must hold its cache.
    fn from_slots(slots: Vec<Option<Self::Cache>>) -> (stack: Self)
        requires
            forall|i: int| 0 <= i < slots@.len() ==> (#[trigger] slots@[i]) is Some,
        ensures
            stack.slots() == slots@.map_values(|slot: Option<Self::Cache>| slot->Some_0),
    ;

    /// Move one cache slot **to** the inner side, off the gradient graph.
    fn cache_to_inner(cache: Self::Cache) -> (inner: Self::Cache)
        ensures
            inner == Self::lowered(cache),
    ;

    /// Lift one cache slot back **from** the inner side, as a new graph root.
    fn cache_from_inner(cache: Self::Cache) -> (outer: Self::Cache)
        ensures
            outer == Self::lifted(cache),
    ;

    /// Round-trip **every** slot through the inner side. A cache keeps its
    /// values and loses the graph that produced it.
    fn detach(self) -> (detached: Self)
        ensures
            detached.slots() == self.slots().map_values(
                |cache: Self::Cache| Self::lifted(Self::lowered(cache)),
            ),
    {
        let ghost caches = self.slots();
        let mut left = self.into_slots();
        let mut reversed: Vec<Option<Self::Cache>> = Vec::new();
        let n: usize = left.len();
        while left.len() > 0
            invariant
                n == caches.len(),
                left@.len() + reversed@.len() == n,
                left@ == caches.map_values(|cache: Self::Cache| Some(cache)).take(
                    left@.len() as int,
                ),
                forall|i: int|
                    0 <= i < reversed@.len() ==> #[trigger] reversed@[i] == Some(
                        Self::lifted(Self::lowered(caches[n - 1 - i])),
                    ),
            decreases left@.len(),
        {
            let ghost before = left@;
            let slot = left.pop();
            match slot {
                Some(Some(cache)) => {
                    proof {
                        let i = before.len() - 1;
                        assert(before[i] == Some(caches[i]));
                        assert(left@ =~= caches.map_values(
                            |cache: Self::Cache| Some(cache),
                        ).take(left@.len() as int));
                    }
                    reversed.push(Some(Self::cache_from_inner(Self::cache_to_inner(cache))));
                },
                _ => {
                    assert(before[before.len() - 1] == Some(caches[before.len() - 1]));
                },
            }
        }
        let mut slots: Vec<Option<Self::Cache>> = Vec::new();
        while reversed.len() > 0
            invariant
                n == caches.len(),
                slots@.len() + reversed@.len() == n,
                forall|i: int|
                    0 <= i < reversed@.len() ==> #[trigger] reversed@[i] == Some(
                        Self::lifted(Self::lowered(caches[n - 1 - i])),
                    ),
                forall|i: int|
                    0 <= i < slots@.len() ==> #[trigger] slots@[i] == Some(
                        Self::lifted(Self::lowered(caches[i])),
                    ),
            decreases reversed@.len(),
        {
            if let Some(slot) = reversed.pop() {
                slots.push(slot);
            }
        }
        let ghost done = slots@;
        let detached = Self::from_slots(slots);
        assert(detached.slots() =~= caches.map_values(
            |cache: Self::Cache| Self::lifted(Self::lowered(cache)),
        ));
        detached
    }
}

} // verus!
