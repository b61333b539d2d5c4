//! The unique-membership reverse-collection variant.

use vstd::prelude::*;
use crate::entity::Entity;
use crate::collection::{
    RelationshipSourceCollection, add_changed, add_model, ids_of, find_first,
    vec_remove_entity, vec_shrink, vec_snapshot, lemma_ids_of_push,
};

verus! {

/// The unique-membership variant: re-adding a present entity is a no-op,
/// and iteration order is left unspecified by the contract (the backing
/// store keeps insertion order). Meant for many-to-one relationships that
/// need a fast membership answer.
#[derive(Debug)]
pub struct EntityHashSet {
    pub entries: Vec<Entity>,
}

impl RelationshipSourceCollection for EntityHashSet {
    open spec fn model(&self) -> Seq<u64> {
        ids_of(self.entries@)
    }

    open spec fn single_slot() -> bool {
        false
    }

    open spec fn unique_membership() -> bool {
        true
    }

    fn new() -> (c: Self)
        ensures
            c.model() == Seq::<u64>::empty(),
    {
        let entries: Vec<Entity> = Vec::new();
        proof {
            assert(ids_of(entries@) =~= Seq::<u64>::empty());
        }
        EntityHashSet { entries }
    }

    fn with_capacity(capacity: usize) -> (c: Self)
        ensures
            c.model() == Seq::<u64>::empty(),
    {
        let entries: Vec<Entity> = Vec::with_capacity(capacity);
        proof {
            assert(ids_of(entries@) =~= Seq::<u64>::empty());
        }
        EntityHashSet { entries }
    }

    fn reserve(&mut self, additional: usize)
        ensures
            final(self).model() == old(self).model(),
    {
        self.entries.reserve(additional);
    }

    fn add(&mut self, entity: Entity) -> (changed: bool)
        ensures
            final(self).model() == add_model(
                old(self).model(),
                entity.id,
                Self::single_slot(),
                Self::unique_membership(),
            ),
            changed == add_changed(
                old(self).model(),
                entity.id,
                Self::single_slot(),
                Self::unique_membership(),
            ),
    {
        proof {
            ids_of(self.entries@).index_of_first_ensures(entity.id);
        }
        match find_first(&self.entries, entity) {
            Some(_) => false,
            None => {
                proof {
                    lemma_ids_of_push(self.entries@, entity);
                }
                self.entries.push(entity);
                true
            },
        }
    }

    fn remove(&mut self, entity: Entity) -> (removed: bool)
        ensures
            final(self).model() == old(self).model().remove_value(entity.id),
            removed == old(self).model().contains(entity.id),
    {
        vec_remove_entity(&mut self.entries, entity)
    }

    fn iter(&self) -> (members: Vec<Entity>)
        ensures
            ids_of(members@) == self.model(),
    {
        vec_snapshot(&self.entries)
    }

    fn len(&self) -> (n: usize)
        ensures
            n == self.model().len(),
    {
        self.entries.len()
    }

    fn clear(&mut self)
        ensures
            final(self).model() == Seq::<u64>::empty(),
    {
        self.entries.clear();
        proof {
            assert(ids_of(Seq::<Entity>::empty()) =~= Seq::<u64>::empty());
        }
    }

    fn shrink_to_fit(&mut self)
        ensures
            final(self).model() == old(self).model(),
    {
        vec_shrink(&mut self.entries);
    }
}

} // verus!
