//! The single-slot reverse-collection variant backing one-to-one
//! relationships: an `Entity` value is itself a collection of length zero
//! (the placeholder) or one.

use vstd::prelude::*;
use crate::entity::{Entity, PLACEHOLDER_ID};
use crate::collection::{
    RelationshipSourceCollection, add_changed, add_model, extend_model, ids_of,
    lemma_extend_model_single,
};

verus! {

impl RelationshipSourceCollection for Entity {
    open spec fn model(&self) -> Seq<u64> {
        if self.is_placeholder() {
            Seq::<u64>::empty()
        } else {
            seq![self.id]
        }
    }

    open spec fn single_slot() -> bool {
        true
    }

    open spec fn unique_membership() -> bool {
        false
    }

    fn new() -> (c: Self)
        ensures
            c.model() == Seq::<u64>::empty(),
    {
        Entity::placeholder()
    }

    fn with_capacity(_capacity: usize) -> (c: Self)
        ensures
            c.model() == Seq::<u64>::empty(),
    {
        Entity::placeholder()
    }

    fn reserve(&mut self, _additional: usize)
        ensures
            final(self).model() == old(self).model(),
    {
    }

    fn add(&mut self, entity: Entity) -> (changed: bool)
        ensures
            final(self).model() == add_model(
                old(self).model(),
                entity.id,
                Self::single_slot(),
                Self::unique_membership(),
            ),
            changed == add_changed(
                old(self).model(),
                entity.id,
                Self::single_slot(),
                Self::unique_membership(),
            ),
    {
        *self = entity;
        true
    }

    fn remove(&mut self, entity: Entity) -> (removed: bool)
        ensures
            final(self).model() == old(self).model().remove_value(entity.id),
            removed == old(self).model().contains(entity.id),
    {
        if self.id == entity.id {
            proof {
                let s = old(self).model();
                assert(s == seq![entity.id]);
                assert(s[0] == entity.id);
                assert(s.contains(entity.id));
                s.index_of_first_ensures(entity.id);
                assert(s.remove_value(entity.id) =~= Seq::<u64>::empty());
            }
            *self = Entity::placeholder();
            true
        } else {
            proof {
                old(self).model().index_of_first_ensures(entity.id);
            }
            false
        }
    }

    fn iter(&self) -> (members: Vec<Entity>)
        ensures
            ids_of(members@) == self.model(),
    {
        let mut members: Vec<Entity> = Vec::new();
        if self.id != PLACEHOLDER_ID {
            members.push(*self);
        }
        proof {
            assert(ids_of(members@) =~= self.model());
        }
        members
    }

    fn len(&self) -> (n: usize)
        ensures
            n == self.model().len(),
    {
        if self.id == PLACEHOLDER_ID {
            0
        } else {
            1
        }
    }

    fn clear(&mut self)
        ensures
            final(self).model() == Seq::<u64>::empty(),
    {
        *self = Entity::placeholder();
    }

    fn shrink_to_fit(&mut self)
        ensures
            final(self).model() == old(self).model(),
    {
    }

    fn extend_from_iter(&mut self, entities: Vec<Entity>)
        ensures
            final(self).model() == extend_model(
                old(self).model(),
                ids_of(entities@),
                Self::single_slot(),
                Self::unique_membership(),
            ),
    {
        if entities.len() > 0 {
            proof {
                lemma_extend_model_single(
                    old(self).model(),
                    ids_of(entities@),
                    Self::unique_membership(),
                );
            }
            *self = entities[entities.len() - 1];
        }
    }
}

} // verus!
