use entity_relations::collection::{EntityList, RelationshipSourceCollection};
use entity_relations::entity::Entity;
use entity_relations::hash_set::EntityHashSet;
use entity_relations::small_list::SmallEntityList;

fn e(id: u64) -> Entity {
    Entity { id }
}

#[test]
fn entity_list_add_allows_duplicates() {
    let mut c = EntityList::new();
    assert!(c.add(e(1)));
    assert!(c.add(e(1)));
    assert_eq!(c.len(), 2);
    assert!(!c.is_empty());
}

#[test]
fn entity_list_remove_first_occurrence_keeps_order() {
    let mut c = EntityList::new();
    c.add(e(1));
    c.add(e(2));
    c.add(e(1));
    c.add(e(3));
    assert!(c.remove(e(1)));
    assert_eq!(c.iter(), vec![e(2), e(1), e(3)]);
    assert!(!c.remove(e(9)));
    assert_eq!(c.len(), 3);
}

#[test]
fn entity_list_clear_reserve_shrink() {
    let mut c = EntityList::with_capacity(8);
    c.add(e(5));
    c.reserve(16);
    c.shrink_to_fit();
    assert_eq!(c.iter(), vec![e(5)]);
    c.clear();
    assert!(c.is_empty());
}

#[test]
fn entity_list_extend_appends_in_order() {
    let mut c = EntityList::new();
    c.add(e(1));
    c.extend_from_iter(vec![e(2), e(3)]);
    assert_eq!(c.iter(), vec![e(1), e(2), e(3)]);
}

#[test]
fn hash_set_add_is_idempotent() {
    let mut c = EntityHashSet::new();
    assert!(c.add(e(7)));
    assert!(!c.add(e(7)));
    assert_eq!(c.len(), 1);
    assert!(c.add(e(8)));
    assert_eq!(c.len(), 2);
}

#[test]
fn hash_set_remove_and_extend() {
    let mut c = EntityHashSet::with_capacity(4);
    c.extend_from_iter(vec![e(1), e(2), e(1), e(3)]);
    assert_eq!(c.len(), 3);
    assert!(c.remove(e(2)));
    assert!(!c.remove(e(2)));
    assert_eq!(c.len(), 2);
    c.clear();
    assert!(c.is_empty());
}

#[test]
fn small_list_spills_past_inline_capacity() {
    let mut c = SmallEntityList::new();
    for id in 0..6u64 {
        assert!(c.add(e(id)));
    }
    assert_eq!(c.len(), 6);
    assert_eq!(
        c.iter(),
        vec![e(0), e(1), e(2), e(3), e(4), e(5)]
    );
    assert!(c.remove(e(2)));
    assert_eq!(c.iter(), vec![e(0), e(1), e(3), e(4), e(5)]);
    assert!(!c.remove(e(2)));
    c.shrink_to_fit();
    c.reserve(3);
    assert_eq!(c.len(), 5);
    c.clear();
    assert!(c.is_empty());
}

#[test]
fn small_list_extend_appends_in_order() {
    let mut c = SmallEntityList::with_capacity(2);
    c.extend_from_iter(vec![e(9), e(8), e(9)]);
    assert_eq!(c.iter(), vec![e(9), e(8), e(9)]);
}

#[test]
fn single_slot_overwrites_occupant() {
    let mut c: Entity = <Entity as RelationshipSourceCollection>::new();
    assert!(RelationshipSourceCollection::is_empty(&c));
    assert!(c.add(e(1)));
    assert!(c.add(e(2)));
    assert_eq!(RelationshipSourceCollection::len(&c), 1);
    assert_eq!(RelationshipSourceCollection::iter(&c), vec![e(2)]);
    assert!(!c.remove(e(1)));
    assert!(c.remove(e(2)));
    assert!(RelationshipSourceCollection::is_empty(&c));
}

#[test]
fn single_slot_extend_keeps_last() {
    let mut c: Entity = <Entity as RelationshipSourceCollection>::with_capacity(4);
    c.extend_from_iter(vec![e(1), e(2), e(3)]);
    assert_eq!(RelationshipSourceCollection::iter(&c), vec![e(3)]);
    c.extend_from_iter(vec![]);
    assert_eq!(RelationshipSourceCollection::iter(&c), vec![e(3)]);
}

#[test]
fn placeholder_is_an_empty_slot() {
    let c = Entity::placeholder();
    assert_eq!(RelationshipSourceCollection::len(&c), 0);
    assert!(RelationshipSourceCollection::is_empty(&c));
}
