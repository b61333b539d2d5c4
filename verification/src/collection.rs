//! The reverse-collection contract: an abstract container holding the
//! entities that currently point at a given target, with concrete variants
//! trading memory and behavior.

use vstd::prelude::*;
use crate::entity::{Entity, PLACEHOLDER_ID};

verus! {

/// The ids of a sequence of entities, in the same order.
pub open spec fn ids_of(s: Seq<Entity>) -> Seq<u64> {
    s.map_values(|e: Entity| e.id)
}

/// Adding an id to a unique-membership collection: a no-op when the id is
/// already a member, an append otherwise.
pub open spec fn unique_add(s: Seq<u64>, x: u64) -> Seq<u64> {
    if s.contains(x) {
        s
    } else {
        s.push(x)
    }
}

/// What adding an id does to a collection's members, per variant:
/// a single slot overwrites its occupant, a unique-membership container
/// skips duplicates, an ordered container always appends.
pub open spec fn add_model(s: Seq<u64>, x: u64, single: bool, unique: bool) -> Seq<u64> {
    if single {
        seq![x]
    } else if unique {
        unique_add(s, x)
    } else {
        s.push(x)
    }
}

/// Whether adding an id changes the collection's effective membership:
/// only a unique-membership container ever reports a no-op.
pub open spec fn add_changed(s: Seq<u64>, x: u64, single: bool, unique: bool) -> bool {
    if !single && unique {
        !s.contains(x)
    } else {
        true
    }
}

/// What bulk-adding does: repeated single adds, left to right.
pub open spec fn extend_model(s: Seq<u64>, xs: Seq<u64>, single: bool, unique: bool) -> Seq<u64>
    decreases xs.len(),
{
    if xs.len() == 0 {
        s
    } else {
        extend_model(add_model(s, xs[0], single, unique), xs.skip(1), single, unique)
    }
}

/// The internal entity collection used by a relationship target component.
/// It stores every holder entity currently pointing at the target; the
/// consistency maintainer is the only code that may mutate it.
///
/// `model` gives the member ids in iteration order; every mutating
/// operation says exactly what it does to that sequence.
pub trait RelationshipSourceCollection: Sized {
    /// The ids of the members, in iteration order.
    spec fn model(&self) -> Seq<u64>;

    /// Whether this variant holds at most one member (the one-to-one slot).
    spec fn single_slot() -> bool;

    /// Whether this variant keeps membership unique.
    spec fn unique_membership() -> bool;

    /// Creates a new empty instance.
    fn new() -> (c: Self)
        ensures
            c.model() == Seq::<u64>::empty(),
    ;

    /// Returns an empty instance with the given pre-allocated entity
    /// `capacity`. Variants that cannot honor the hint ignore it.
    fn with_capacity(capacity: usize) -> (c: Self)
        ensures
            c.model() == Seq::<u64>::empty(),
    ;

    /// Reserves capacity for at least `additional` more entities.
    /// A no-op for variants that do not support it; members are unchanged.
    fn reserve(&mut self, additional: usize)
        ensures
            final(self).model() == old(self).model(),
    ;

    /// Adds the given `entity` to the collection.
    ///
    /// Returns whether the collection's effective membership changed:
    /// always true except for a unique-membership variant that already
    /// contained the entity.
    fn add(&mut self, entity: Entity) -> (changed: bool)
        requires
            entity.id != PLACEHOLDER_ID,
        ensures
            final(self).model() == add_model(
                old(self).model(),
                entity.id,
                Self::single_slot(),
                Self::unique_membership(),
            ),
            changed == add_changed(
                old(self).model(),
                entity.id,
                Self::single_slot(),
                Self::unique_membership(),
            ),
    ;

    /// Removes one occurrence of the given `entity`: the first match, with
    /// the relative order of the remaining members preserved.
    ///
    /// Returns whether the collection actually contained the entity.
    fn remove(&mut self, entity: Entity) -> (removed: bool)
        requires
            entity.id != PLACEHOLDER_ID,
        ensures
            final(self).model() == old(self).model().remove_value(entity.id),
            removed == old(self).model().contains(entity.id),
    ;

    /// Returns the current members, in iteration order.
    fn iter(&self) -> (members: Vec<Entity>)
        ensures
            ids_of(members@) == self.model(),
    ;

    /// Returns the current length of the collection.
    fn len(&self) -> (n: usize)
        ensures
            n == self.model().len(),
    ;

    /// Clears the collection.
    fn clear(&mut self)
        ensures
            final(self).model() == Seq::<u64>::empty(),
    ;

    /// Attempts to save memory by shrinking the capacity to fit the
    /// current length. A no-op for variants that do not support it.
    fn shrink_to_fit(&mut self)
        ensures
            final(self).model() == old(self).model(),
    ;

    /// Returns true if the collection contains no entities.
    fn is_empty(&self) -> (empty: bool)
        ensures
            empty == (self.model().len() == 0),
    {
        self.len() == 0
    }

    /// Adds multiple entities at once: behaves as repeated `add`, left to
    /// right. For the single-slot variant only the last entity yielded by
    /// the input remains.
    fn extend_from_iter(&mut self, entities: Vec<Entity>)
        requires
            forall|i: int|
                0 <= i < entities@.len() ==> (#[trigger] entities@[i]).id != PLACEHOLDER_ID,
        ensures
            final(self).model() == extend_model(
                old(self).model(),
                ids_of(entities@),
                Self::single_slot(),
                Self::unique_membership(),
            ),
    {
        let ghost orig = self.model();
        let ghost all = ids_of(entities@);
        proof {
            assert(all.skip(0) =~= all);
        }
        let mut k: usize = 0;
        while k < entities.len()
            invariant
                0 <= k <= entities@.len(),
                all == ids_of(entities@),
                forall|i: int|
                    0 <= i < entities@.len() ==> (#[trigger] entities@[i]).id != PLACEHOLDER_ID,
                extend_model(orig, all, Self::single_slot(), Self::unique_membership())
                    == extend_model(
                    self.model(),
                    all.skip(k as int),
                    Self::single_slot(),
                    Self::unique_membership(),
                ),
            decreases entities@.len() - k,
        {
            let e = entities[k];
            proof {
                assert(all.skip(k as int)[0] == entities@[k as int].id);
                assert(all.skip(k as int).skip(1) =~= all.skip(k as int + 1));
            }
            self.add(e);
            k = k + 1;
        }
        proof {
            assert(all.skip(entities@.len() as int) =~= Seq::<u64>::empty());
        }
    }
}

/// Bulk-adding into a single-slot collection keeps exactly the last id of
/// a non-empty input, whatever was held before.
pub proof fn lemma_extend_model_single(s: Seq<u64>, xs: Seq<u64>, unique: bool)
    requires
        xs.len() > 0,
    ensures
        extend_model(s, xs, true, unique) == seq![xs.last()],
    decreases xs.len(),
{
    if xs.len() == 1 {
        assert(xs.skip(1) =~= Seq::<u64>::empty());
        assert(extend_model(s, xs, true, unique) == extend_model(
            add_model(s, xs[0], true, unique),
            xs.skip(1),
            true,
            unique,
        ));
        assert(extend_model(seq![xs[0]], Seq::<u64>::empty(), true, unique) == seq![xs[0]]);
        assert(xs.last() == xs[0]);
    } else {
        lemma_extend_model_single(seq![xs[0]], xs.skip(1), unique);
        assert(xs.skip(1).last() == xs.last());
    }
}

/// Mapping to ids commutes with appending an entity.
pub proof fn lemma_ids_of_push(s: Seq<Entity>, e: Entity)
    ensures
        ids_of(s.push(e)) =~= ids_of(s).push(e.id),
{
}

/// Mapping to ids commutes with removal at an index.
pub proof fn lemma_ids_of_remove(s: Seq<Entity>, i: int)
    requires
        0 <= i < s.len(),
    ensures
        ids_of(s.remove(i)) =~= ids_of(s).remove(i),
{
}

/// Relies on std's `Vec::shrink_to_fit`: it only reduces spare capacity
/// and leaves the elements of the vector unchanged.
#[verifier::external_body]
pub(crate) fn vec_shrink(v: &mut Vec<Entity>)
    ensures
        final(v)@ == old(v)@,
{
    v.shrink_to_fit()
}

/// The growable ordered-list variant: duplicates allowed, iteration in
/// insertion order. The default choice for many-to-one relationships.
#[derive(Debug)]
pub struct EntityList {
    pub entries: Vec<Entity>,
}

impl RelationshipSourceCollection for EntityList {
    open spec fn model(&self) -> Seq<u64> {
        ids_of(self.entries@)
    }

    open spec fn single_slot() -> bool {
        false
    }

    open spec fn unique_membership() -> bool {
        false
    }

    fn new() -> (c: Self)
        ensures
            c.model() == Seq::<u64>::empty(),
    {
        let entries: Vec<Entity> = Vec::new();
        proof {
            assert(ids_of(entries@) =~= Seq::<u64>::empty());
        }
        EntityList { entries }
    }

    fn with_capacity(capacity: usize) -> (c: Self)
        ensures
            c.model() == Seq::<u64>::empty(),
    {
        let entries: Vec<Entity> = Vec::with_capacity(capacity);
        proof {
            assert(ids_of(entries@) =~= Seq::<u64>::empty());
        }
        EntityList { entries }
    }

    fn reserve(&mut self, additional: usize)
        ensures
            final(self).model() == old(self).model(),
    {
        self.entries.reserve(additional);
    }

    fn add(&mut self, entity: Entity) -> (changed: bool)
        ensures
            final(self).model() == add_model(
                old(self).model(),
                entity.id,
                Self::single_slot(),
                Self::unique_membership(),
            ),
            changed == add_changed(
                old(self).model(),
                entity.id,
                Self::single_slot(),
                Self::unique_membership(),
            ),
    {
        proof {
            lemma_ids_of_push(self.entries@, entity);
        }
        self.entries.push(entity);
        true
    }

    fn remove(&mut self, entity: Entity) -> (removed: bool)
        ensures
            final(self).model() == old(self).model().remove_value(entity.id),
            removed == old(self).model().contains(entity.id),
    {
        vec_remove_entity(&mut self.entries, entity)
    }

    fn iter(&self) -> (members: Vec<Entity>)
        ensures
            ids_of(members@) == self.model(),
    {
        vec_snapshot(&self.entries)
    }

    fn len(&self) -> (n: usize)
        ensures
            n == self.model().len(),
    {
        self.entries.len()
    }

    fn clear(&mut self)
        ensures
            final(self).model() == Seq::<u64>::empty(),
    {
        self.entries.clear();
        proof {
            assert(ids_of(Seq::<Entity>::empty()) =~= Seq::<u64>::empty());
        }
    }

    fn shrink_to_fit(&mut self)
        ensures
            final(self).model() == old(self).model(),
    {
        vec_shrink(&mut self.entries);
    }
}

/// Copies the entities of `v` into a fresh vector, in order.
pub(crate) fn vec_snapshot(v: &Vec<Entity>) -> (members: Vec<Entity>)
    ensures
        members@ == v@,
{
    let mut members: Vec<Entity> = Vec::new();
    let mut k: usize = 0;
    while k < v.len()
        invariant
            0 <= k <= v@.len(),
            members@ == v@.subrange(0, k as int),
        decreases v@.len() - k,
    {
        members.push(v[k]);
        proof {
            assert(members@ =~= v@.subrange(0, k as int + 1));
        }
        k = k + 1;
    }
    proof {
        assert(v@.subrange(0, v@.len() as int) =~= v@);
    }
    members
}

/// Removes the first occurrence of `entity` from `v`, preserving the
/// relative order of the remaining elements.
pub(crate) fn vec_remove_entity(v: &mut Vec<Entity>, entity: Entity) -> (removed: bool)
    ensures
        ids_of(final(v)@) == ids_of(old(v)@).remove_value(entity.id),
        removed == ids_of(old(v)@).contains(entity.id),
{
    match find_first(v, entity) {
        Some(index) => {
            proof {
                ids_of(v@).index_of_first_ensures(entity.id);
                lemma_ids_of_remove(v@, index as int);
            }
            v.remove(index);
            true
        },
        None => {
            proof {
                ids_of(v@).index_of_first_ensures(entity.id);
            }
            false
        },
    }
}

/// The index of the first occurrence of `entity` in `v`, scanning forward.
pub(crate) fn find_first(v: &Vec<Entity>, entity: Entity) -> (found: Option<usize>)
    ensures
        match found {
            Some(i) => ids_of(v@).index_of_first(entity.id) == Some(i as int),
            None => ids_of(v@).index_of_first(entity.id) is None,
        },
{
    let ghost s = ids_of(v@);
    let mut k: usize = 0;
    while k < v.len()
        invariant
            0 <= k <= v@.len(),
            s == ids_of(v@),
            forall|j: int| 0 <= j < k ==> s[j] != entity.id,
        decreases v@.len() - k,
    {
        if v[k].id == entity.id {
            proof {
                assert(s[k as int] == entity.id);
                assert(s.contains(entity.id));
                s.index_of_first_ensures(entity.id);
                let idx = s.index_of_first(entity.id)->Some_0;
                assert(s[idx] == entity.id);
                assert(idx == k as int);
            }
            return Some(k);
        }
        k = k + 1;
    }
    proof {
        assert(forall|j: int| 0 <= j < s.len() ==> s[j] != entity.id);
        assert(!s.contains(entity.id));
        s.index_of_first_ensures(entity.id);
    }
    None
}

} // verus!
