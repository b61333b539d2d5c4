use entity_relations::collection::EntityList;
use entity_relations::entity::Entity;
use entity_relations::hash_set::EntityHashSet;
use entity_relations::small_list::SmallEntityList;
use entity_relations::world::RelationshipWorld;

#[test]
fn vec_relationship_source_collection() {
    let mut world: RelationshipWorld<EntityList> = RelationshipWorld::new(true);
    let a = world.spawn().unwrap();
    let b = world.spawn().unwrap();

    world.insert_source(a, b);

    let collection = world.collection_of(b).unwrap();
    assert_eq!(collection, vec![a]);
}

#[test]
fn smallvec_relationship_source_collection() {
    let mut world: RelationshipWorld<SmallEntityList> = RelationshipWorld::new(true);
    let a = world.spawn().unwrap();
    let b = world.spawn().unwrap();

    world.insert_source(a, b);

    let collection = world.collection_of(b).unwrap();
    assert_eq!(collection, vec![a]);
}

#[test]
fn entity_relationship_source_collection() {
    let mut world: RelationshipWorld<Entity> = RelationshipWorld::new(false);
    let a = world.spawn().unwrap();
    let b = world.spawn().unwrap();

    world.insert_source(a, b);

    let collection = world.collection_of(b).unwrap();
    assert_eq!(collection, vec![a]);
}

#[test]
fn one_to_one_relationships() {
    let mut world: RelationshipWorld<Entity> = RelationshipWorld::new(false);
    let a = world.spawn().unwrap();
    let b = world.spawn().unwrap();

    world.insert_source(a, b);
    assert_eq!(a, world.collection_of(b).unwrap()[0]);

    // Verify removing target removes relationship
    world.remove_target(b);
    assert!(world.source_of(a).is_none());

    // Verify removing relationship removes target
    world.insert_source(a, b);
    world.remove_source(a);
    assert!(world.collection_of(b).is_none());

    // Actually - a is above c now! Verify relationship was updated correctly
    let c = world.spawn().unwrap();
    world.insert_source(a, c);
    assert!(world.collection_of(b).is_none());
    assert_eq!(a, world.collection_of(c).unwrap()[0]);
}

#[test]
fn collection_len_matches_holder_count() {
    let mut world: RelationshipWorld<EntityList> = RelationshipWorld::new(false);
    let t = world.spawn().unwrap();
    let h1 = world.spawn().unwrap();
    let h2 = world.spawn().unwrap();
    world.insert_source(h1, t);
    world.insert_source(h2, t);
    assert_eq!(world.collection_of(t).unwrap(), vec![h1, h2]);
    world.remove_source(h1);
    assert_eq!(world.collection_of(t).unwrap(), vec![h2]);
}

#[test]
fn insert_then_remove_round_trips() {
    let mut world: RelationshipWorld<EntityHashSet> = RelationshipWorld::new(false);
    let t = world.spawn().unwrap();
    let h = world.spawn().unwrap();
    world.insert_source(h, t);
    assert_eq!(world.collection_of(t).unwrap(), vec![h]);
    world.remove_source(h);
    assert!(world.collection_of(t).is_none());
    assert!(world.source_of(h).is_none());
}

#[test]
fn single_slot_replacement_keeps_last_writer() {
    let mut world: RelationshipWorld<Entity> = RelationshipWorld::new(false);
    let t = world.spawn().unwrap();
    let h1 = world.spawn().unwrap();
    let h2 = world.spawn().unwrap();
    world.insert_source(h2, t);
    world.insert_source(h1, t);
    // last write wins in the slot
    assert_eq!(world.collection_of(t).unwrap(), vec![h1]);
    // the displaced holder keeps a stale forward pointer
    assert_eq!(world.source_of(h2).unwrap(), t);
    assert_eq!(world.source_of(h1).unwrap(), t);
    // the stale link self-heals when h2's own link next changes
    world.remove_source(h2);
    assert!(world.source_of(h2).is_none());
    assert_eq!(world.collection_of(t).unwrap(), vec![h1]);
}

#[test]
fn cascading_despawn_destroys_holders() {
    let mut world: RelationshipWorld<EntityList> = RelationshipWorld::new(true);
    let t = world.spawn().unwrap();
    let h1 = world.spawn().unwrap();
    let h2 = world.spawn().unwrap();
    world.insert_source(h1, t);
    world.insert_source(h2, t);
    world.despawn(t);
    assert!(!world.is_alive(t));
    assert!(!world.is_alive(h1));
    assert!(!world.is_alive(h2));
}

#[test]
fn cascading_despawn_is_transitive() {
    let mut world: RelationshipWorld<EntityList> = RelationshipWorld::new(true);
    let t = world.spawn().unwrap();
    let mid = world.spawn().unwrap();
    let leaf = world.spawn().unwrap();
    let bystander = world.spawn().unwrap();
    world.insert_source(mid, t);
    world.insert_source(leaf, mid);
    world.despawn(t);
    assert!(!world.is_alive(t));
    assert!(!world.is_alive(mid));
    assert!(!world.is_alive(leaf));
    assert!(world.is_alive(bystander));
}

#[test]
fn non_cascading_despawn_detaches_holders() {
    let mut world: RelationshipWorld<EntityList> = RelationshipWorld::new(false);
    let t = world.spawn().unwrap();
    let h = world.spawn().unwrap();
    world.insert_source(h, t);
    world.despawn(t);
    assert!(!world.is_alive(t));
    assert!(world.is_alive(h));
    assert!(world.source_of(h).is_none());
}

#[test]
fn despawning_a_holder_updates_the_target() {
    let mut world: RelationshipWorld<EntityList> = RelationshipWorld::new(false);
    let t = world.spawn().unwrap();
    let h1 = world.spawn().unwrap();
    let h2 = world.spawn().unwrap();
    world.insert_source(h1, t);
    world.insert_source(h2, t);
    world.despawn(h1);
    assert_eq!(world.collection_of(t).unwrap(), vec![h2]);
    world.despawn(h2);
    assert!(world.collection_of(t).is_none());
    assert!(world.is_alive(t));
}

#[test]
fn re_pointing_replaces_target() {
    let mut world: RelationshipWorld<Entity> = RelationshipWorld::new(false);
    let a = world.spawn().unwrap();
    let b = world.spawn().unwrap();
    let c = world.spawn().unwrap();
    world.insert_source(a, b);
    world.remove_target(b);
    assert!(world.source_of(a).is_none());
    world.insert_source(a, b);
    world.insert_source(a, c);
    assert!(world.collection_of(b).is_none());
    assert_eq!(world.collection_of(c).unwrap(), vec![a]);
}

#[test]
fn links_only_between_live_entities() {
    let mut world: RelationshipWorld<EntityList> = RelationshipWorld::new(false);
    let t = world.spawn().unwrap();
    let h = world.spawn().unwrap();
    world.despawn(t);
    assert!(!world.insert_source(h, t));
    assert!(world.source_of(h).is_none());
    assert!(world.collection_of(t).is_none());
}

#[test]
fn spawned_entities_are_distinct_and_fresh() {
    let mut world: RelationshipWorld<EntityList> = RelationshipWorld::new(false);
    let a = world.spawn().unwrap();
    let b = world.spawn().unwrap();
    assert_ne!(a, b);
    assert!(world.is_alive(a));
    assert!(world.is_alive(b));
    assert!(!world.is_cascading());
    assert!(world.source_of(a).is_none());
}
