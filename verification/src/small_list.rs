//! The small-size-optimized reverse-collection variant: an ordered list of
//! entity ids kept inline while few holders exist, spilling to the heap
//! past four members. The storage is smallvec's `SmallVec`; since its type
//! cannot be declared to the verifier, it lives in a hidden field and the
//! logic around it is verified against the contracts of thin trusted
//! wrappers.

use vstd::prelude::*;
use crate::entity::Entity;
use crate::collection::{RelationshipSourceCollection, add_changed, add_model, ids_of};

verus! {

/// The small-size-optimized ordered-list variant: duplicates allowed,
/// iteration in insertion order, inline storage for up to four holders.
#[verifier::external_body]
pub struct SmallEntityList {
    store: smallvec::SmallVec<[u64; 4]>,
}

/// The ids held by the smallvec-backed store, in order.
pub uninterp spec fn small_store_ids(v: SmallEntityList) -> Seq<u64>;

/// Relies on smallvec's `SmallVec::new`: it constructs an empty vector.
#[verifier::external_body]
fn small_new() -> (c: SmallEntityList)
    ensures
        small_store_ids(c) == Seq::<u64>::empty(),
{
    SmallEntityList { store: smallvec::SmallVec::new() }
}

/// Relies on smallvec's `SmallVec::with_capacity`: it constructs an empty
/// vector with at least the given capacity.
#[verifier::external_body]
fn small_with_capacity(capacity: usize) -> (c: SmallEntityList)
    ensures
        small_store_ids(c) == Seq::<u64>::empty(),
{
    SmallEntityList { store: smallvec::SmallVec::with_capacity(capacity) }
}

/// Relies on smallvec's `SmallVec::push`: it appends one element at the
/// end and keeps the others in place.
#[verifier::external_body]
fn small_push(v: &mut SmallEntityList, x: u64)
    ensures
        small_store_ids(*final(v)) == small_store_ids(*old(v)).push(x),
{
    v.store.push(x)
}

/// Relies on smallvec's `SmallVec::remove`: it removes the element at the
/// given in-bounds index, shifting the elements after it to the left.
#[verifier::external_body]
fn small_remove_at(v: &mut SmallEntityList, index: usize)
    requires
        index < small_store_ids(*old(v)).len(),
    ensures
        small_store_ids(*final(v)) == small_store_ids(*old(v)).remove(index as int),
{
    v.store.remove(index);
}

/// Relies on indexing through smallvec's slice view (`Deref`): it returns
/// the element at the given in-bounds index.
#[verifier::external_body]
fn small_get(v: &SmallEntityList, index: usize) -> (x: u64)
    requires
        index < small_store_ids(*v).len(),
    ensures
        x == small_store_ids(*v)[index as int],
{
    v.store[index]
}

/// Relies on smallvec's `SmallVec::len`: it returns the number of
/// elements held.
#[verifier::external_body]
fn small_len(v: &SmallEntityList) -> (n: usize)
    ensures
        n == small_store_ids(*v).len(),
{
    v.store.len()
}

/// Relies on smallvec's `SmallVec::clear`: it removes every element.
#[verifier::external_body]
fn small_clear(v: &mut SmallEntityList)
    ensures
        small_store_ids(*final(v)) == Seq::<u64>::empty(),
{
    v.store.clear()
}

/// Relies on smallvec's `SmallVec::reserve`: it only grows spare capacity
/// and leaves the elements unchanged.
#[verifier::external_body]
fn small_reserve(v: &mut SmallEntityList, additional: usize)
    ensures
        small_store_ids(*final(v)) == small_store_ids(*old(v)),
{
    v.store.reserve(additional)
}

/// Relies on smallvec's `SmallVec::shrink_to_fit`: it only reduces spare
/// capacity and leaves the elements unchanged.
#[verifier::external_body]
fn small_shrink(v: &mut SmallEntityList)
    ensures
        small_store_ids(*final(v)) == small_store_ids(*old(v)),
{
    v.store.shrink_to_fit()
}

impl RelationshipSourceCollection for SmallEntityList {
    open spec fn model(&self) -> Seq<u64> {
        small_store_ids(*self)
    }

    open spec fn single_slot() -> bool {
        false
    }

    open spec fn unique_membership() -> bool {
        false
    }

    fn new() -> (c: Self)
        ensures
            c.model() == Seq::<u64>::empty(),
    {
        small_new()
    }

    fn with_capacity(capacity: usize) -> (c: Self)
        ensures
            c.model() == Seq::<u64>::empty(),
    {
        small_with_capacity(capacity)
    }

    fn reserve(&mut self, additional: usize)
        ensures
            final(self).model() == old(self).model(),
    {
        small_reserve(self, additional);
    }

    fn add(&mut self, entity: Entity) -> (changed: bool)
        ensures
            final(self).model() == add_model(
                old(self).model(),
                entity.id,
                Self::single_slot(),
                Self::unique_membership(),
            ),
            changed == add_changed(
                old(self).model(),
                entity.id,
                Self::single_slot(),
                Self::unique_membership(),
            ),
    {
        small_push(self, entity.id);
        true
    }

    #[verifier::loop_isolation(false)]
    fn remove(&mut self, entity: Entity) -> (removed: bool)
        ensures
            final(self).model() == old(self).model().remove_value(entity.id),
            removed == old(self).model().contains(entity.id),
    {
        let ghost s = small_store_ids(*self);
        let n = small_len(self);
        let mut k: usize = 0;
        while k < n
            invariant
                0 <= k <= n,
                n == s.len(),
                s == small_store_ids(*self),
                forall|j: int| 0 <= j < k ==> s[j] != entity.id,
            decreases n - k,
        {
            if small_get(self, k) == entity.id {
                proof {
                    assert(s[k as int] == entity.id);
                    assert(s.contains(entity.id));
                    s.index_of_first_ensures(entity.id);
                    let idx = s.index_of_first(entity.id)->Some_0;
                    assert(s[idx] == entity.id);
                    assert(idx == k as int);
                }
                small_remove_at(self, k);
                return true;
            }
            k = k + 1;
        }
        proof {
            assert(forall|j: int| 0 <= j < s.len() ==> s[j] != entity.id);
            assert(!s.contains(entity.id));
            s.index_of_first_ensures(entity.id);
        }
        false
    }

    #[verifier::loop_isolation(false)]
    fn iter(&self) -> (members: Vec<Entity>)
        ensures
            ids_of(members@) == self.model(),
    {
        let ghost s = small_store_ids(*self);
        let n = small_len(self);
        let mut members: Vec<Entity> = Vec::new();
        proof {
            assert(ids_of(members@) =~= s.subrange(0, 0));
        }
        let mut k: usize = 0;
        while k < n
            invariant
                0 <= k <= n,
                n == s.len(),
                s == small_store_ids(*self),
                ids_of(members@) == s.subrange(0, k as int),
            decreases n - k,
        {
            let x = small_get(self, k);
            members.push(Entity { id: x });
            proof {
                assert(ids_of(members@) =~= s.subrange(0, k as int + 1));
            }
            k = k + 1;
        }
        proof {
            assert(s.subrange(0, s.len() as int) =~= s);
        }
        members
    }

    fn len(&self) -> (n: usize)
        ensures
            n == self.model().len(),
    {
        small_len(self)
    }

    fn clear(&mut self)
        ensures
            final(self).model() == Seq::<u64>::empty(),
    {
        small_clear(self);
    }

    fn shrink_to_fit(&mut self)
        ensures
            final(self).model() == old(self).model(),
    {
        small_shrink(self);
    }
}

} // verus!
