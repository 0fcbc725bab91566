//! The ECS core exercised from outside: the store lifecycle, the queries
//! and the entity lifecycle, on a world of `f32` components.

use ecs_core::ecs::{ComponentVec, Entity, World};

const POSITION: u64 = 0;
const VELOCITY: u64 = 1;

#[test]
fn it_works() {
    assert_eq!(2 + 2, 4);
}

#[test]
fn query_position() {
    let mut world: World<f32> = World::new();

    let _ = Entity::new(&mut world)
        .add((POSITION, 0.0), &mut world)
        .add((VELOCITY, 0.0), &mut world);

    let pos_vel = world.query2(POSITION, VELOCITY);
    assert_eq!(pos_vel.len(), 1);
}

#[test]
fn add_and_remove_component() {
    let mut world: World<f32> = World::new();

    let entity = Entity::new(&mut world)
        .add((POSITION, 0.0), &mut world)
        .add((VELOCITY, 0.0), &mut world);

    entity.remove(VELOCITY, &mut world);

    assert_eq!(world.num_entity_slots(), 1);
    assert_eq!(world.store_count(), 1);
}

#[test]
fn add_multiple_entities() {
    let mut world: World<f32> = World::new();

    let _ = Entity::new(&mut world).add((POSITION, 1.0), &mut world);

    let _ = Entity::new(&mut world).add((POSITION, 2.0), &mut world);

    assert_eq!(world.num_entity_slots(), 2);
    assert_eq!(world.store_count(), 1);
}

#[test]
fn query_mut_one_component() {
    let mut world: World<f32> = World::new();

    let _ = Entity::new(&mut world).add((POSITION, 1.0), &mut world);

    let _ = Entity::new(&mut world);

    world.query_mut(POSITION, |pos: &f32| *pos + 1.0);

    let pos = world.query(POSITION);
    assert_eq!(pos, vec![&2.0]);
}

#[test]
fn query_mut_two_components() {
    let mut world: World<f32> = World::new();

    let _ = Entity::new(&mut world)
        .add((POSITION, 1.0), &mut world)
        .add((VELOCITY, 2.0), &mut world);

    let _ = Entity::new(&mut world).add((POSITION, 2.0), &mut world);

    world.query_mut2(POSITION, VELOCITY, |p: &f32, v: &f32| (*p + 1.0, *v + 1.0));

    let pv = world.query2(POSITION, VELOCITY);
    assert_eq!(pv, vec![(&2.0, &3.0)]);
}

#[test]
fn query_mut_two_components_bis() {
    let mut world: World<f32> = World::new();

    let _ = Entity::new(&mut world).add((POSITION, 1.0), &mut world);

    let _ = Entity::new(&mut world).add((POSITION, 2.0), &mut world);

    world.query_mut2(POSITION, VELOCITY, |p: &f32, v: &f32| (*p + 1.0, *v + 1.0));

    let pv = world.query2(POSITION, VELOCITY);
    assert_eq!(pv, vec![]);
}

#[test]
fn query_mut_one_component_multiple_times() {
    // A mutable tuple query naming the same component type twice would
    // alias one store and is rejected up front; mutating one type twice
    // is done with two single-type passes.
    let mut world: World<f32> = World::new();

    let _ = Entity::new(&mut world).add((POSITION, 1.0), &mut world);

    let _ = Entity::new(&mut world).add((POSITION, 2.0), &mut world);

    world.query_mut(POSITION, |p: &f32| *p + 1.0);
    world.query_mut(POSITION, |p: &f32| *p + 1.0);

    let pv = world.query(POSITION);
    assert_eq!(pv, vec![&3.0, &4.0]);
}

#[test]
fn add_and_remove_entity() {
    let mut world: World<f32> = World::new();

    let _ = Entity::new(&mut world).add((POSITION, 1.0), &mut world);

    let e2 = Entity::new(&mut world).add((VELOCITY, 2.0), &mut world);

    world.remove_entity(e2);

    assert_eq!(world.num_entity_slots(), 2);
    assert_eq!(world.free_count(), 1);
    assert_eq!(world.free_entity_at(0), e2);

    // check for 1 component
    assert_eq!(world.store_count(), 1);

    assert_eq!(world.contains(POSITION), Some(0));

    let positions = world.query(POSITION);
    assert_eq!(positions.len(), 1);
    assert_eq!(*positions[0], 1.0);
}

#[test]
fn test_entities() {
    let mut world: World<f32> = World::new();

    let _ = Entity::new(&mut world).add((POSITION, 1.0), &mut world);

    let e2 = Entity::new(&mut world).add((VELOCITY, 2.0), &mut world);

    world.remove_entity(e2);

    let _ = Entity::new(&mut world).add((POSITION, 3.0), &mut world);

    assert_eq!(world.num_entity_slots(), 2);
    assert_eq!(world.free_count(), 0);

    // check for 1 component
    assert_eq!(world.store_count(), 1);

    assert_eq!(world.contains(POSITION), Some(0));

    let pos = world.query(POSITION);
    assert_eq!(pos.len(), 2);

    let expected_pos = vec![1.0, 3.0];
    for (pos, expected_pos) in pos.into_iter().zip(expected_pos.iter()) {
        assert_eq!(*pos, *expected_pos);
    }
}

#[test]
fn attach_fetch_round_trip() {
    let mut world: World<f32> = World::new();
    let e = Entity::new(&mut world);
    let e = e.add((POSITION, 7.5), &mut world);
    assert_eq!(e.get(POSITION, &world), Some(&7.5));

    // attaching a second value of the same type replaces the first
    let e = e.add((POSITION, 9.25), &mut world);
    assert_eq!(e.get(POSITION, &world), Some(&9.25));
}

#[test]
fn tuple_inner_join() {
    let mut world: World<f32> = World::new();

    // entity A has only a position
    let _a = Entity::new(&mut world).add((POSITION, 1.0), &mut world);

    // entity B has a position and a velocity
    let _b = Entity::new(&mut world)
        .add((POSITION, 2.0), &mut world)
        .add((VELOCITY, 5.0), &mut world);

    let pv = world.query2(POSITION, VELOCITY);
    assert_eq!(pv, vec![(&2.0, &5.0)]);
}

#[test]
fn mutation_visibility() {
    let mut world: World<f32> = World::new();

    let _ = Entity::new(&mut world).add((POSITION, 1.0), &mut world);
    let _ = Entity::new(&mut world).add((POSITION, 10.0), &mut world);
    let _ = Entity::new(&mut world).add((VELOCITY, 4.0), &mut world);

    world.query_mut(POSITION, |p: &f32| *p + 1.0);

    // every entity that had a position sees the increment
    assert_eq!(world.query(POSITION), vec![&2.0, &11.0]);
    // other component types are untouched
    assert_eq!(world.query(VELOCITY), vec![&4.0]);
}

#[test]
fn store_pruning() {
    let mut world: World<f32> = World::new();

    let e0 = Entity::new(&mut world).add((POSITION, 1.0), &mut world);
    let _e1 = Entity::new(&mut world).add((VELOCITY, 2.0), &mut world);
    assert_eq!(world.store_count(), 2);

    // detaching the last live position removes the position store
    e0.remove(POSITION, &mut world);
    assert_eq!(world.store_count(), 1);
    assert!(world.contains(POSITION).is_none());
    assert!(world.contains(VELOCITY).is_some());
}

#[test]
fn free_list_lifo_reuse() {
    let mut world: World<f32> = World::new();

    let e0 = Entity::new(&mut world);
    let e1 = Entity::new(&mut world);
    world.remove_entity(e1);

    // the most recently freed index is reused before a new one is minted
    let e2 = Entity::new(&mut world);
    assert_eq!(e2, e1);
    assert_ne!(e2, e0);
    assert_eq!(world.num_entity_slots(), 2);
}

#[test]
fn scenario_mutate_join_then_read() {
    let mut world: World<f32> = World::new();

    let _e0 = Entity::new(&mut world).add((POSITION, 1.0), &mut world);
    let _e1 = Entity::new(&mut world)
        .add((POSITION, 2.0), &mut world)
        .add((VELOCITY, 2.0), &mut world);

    world.query_mut2(POSITION, VELOCITY, |p: &f32, v: &f32| (*p + 1.0, *v + 1.0));

    assert_eq!(world.query2(POSITION, VELOCITY), vec![(&3.0, &3.0)]);
    // the entity without a velocity is unaffected, the joined one updated
    assert_eq!(world.query(POSITION), vec![&1.0, &3.0]);
}

#[test]
fn scenario_destroy_prunes_and_counts() {
    let mut world: World<f32> = World::new();

    let _e0 = Entity::new(&mut world).add((POSITION, 1.0), &mut world);
    let e1 = Entity::new(&mut world).add((VELOCITY, 2.0), &mut world);

    world.remove_entity(e1);

    assert_eq!(world.active_entity_count(), 1);
    assert_eq!(world.store_count(), 1);
    assert!(world.contains(POSITION).is_some());
    assert!(world.contains(VELOCITY).is_none());
    assert_eq!(world.query(POSITION), vec![&1.0]);
}

#[test]
fn get_mut_writes_through() {
    let mut world: World<f32> = World::new();
    let e = Entity::new(&mut world).add((POSITION, 3.0), &mut world);

    match e.get_mut(POSITION, &mut world) {
        Some(p) => *p = 8.0,
        None => panic!("the attached component must be found"),
    }
    assert_eq!(e.get(POSITION, &world), Some(&8.0));

    // a type the entity lacks yields nothing
    assert!(e.get_mut(VELOCITY, &mut world).is_none());
}

#[test]
fn query_with_entity_pairs() {
    let mut world: World<f32> = World::new();

    let e0 = Entity::new(&mut world).add((POSITION, 1.5), &mut world);
    let _e1 = Entity::new(&mut world);
    let e2 = Entity::new(&mut world).add((POSITION, 2.5), &mut world);

    let entries = world.query_with_entity(POSITION);
    assert_eq!(entries, vec![(e0, &1.5), (e2, &2.5)]);
}

#[test]
fn detach_missing_is_noop() {
    let mut world: World<f32> = World::new();
    let e = Entity::new(&mut world).add((POSITION, 1.0), &mut world);

    // detaching a type with no store changes nothing
    let e = e.remove(VELOCITY, &mut world);
    assert_eq!(world.store_count(), 1);
    assert_eq!(e.get(POSITION, &world), Some(&1.0));

    // a query for a type with no store is empty
    assert!(world.query(VELOCITY).is_empty());
    assert!(world.query_with_entity(VELOCITY).is_empty());
}

#[test]
fn set_overwrites() {
    let mut world: World<f32> = World::new();
    let e = Entity::new(&mut world);
    e.set(&mut world, (POSITION, 4.0));
    e.set(&mut world, (POSITION, 6.0));
    assert_eq!(e.get(POSITION, &world), Some(&6.0));
    assert_eq!(world.query(POSITION), vec![&6.0]);
}

#[test]
fn reused_slot_starts_empty() {
    let mut world: World<f32> = World::new();
    let _keep = Entity::new(&mut world).add((POSITION, 1.0), &mut world);
    let e = Entity::new(&mut world).add((POSITION, 2.0), &mut world);

    world.remove_entity(e);
    let e = Entity::new(&mut world);

    // the recycled index holds no component until one is attached
    assert_eq!(e.get(POSITION, &world), None);
    assert_eq!(world.query(POSITION), vec![&1.0]);
}

#[test]
fn world_get_exposes_store() {
    let mut world: World<u64> = World::new();
    let _ = Entity::new(&mut world).add((POSITION, 42u64), &mut world);

    let store = world.get(POSITION).expect("the position store must exist");
    assert_eq!(store.type_token(), POSITION);
    assert_eq!(store.len(), 1);
    assert!(store.used_component());
    assert_eq!(store.get(0), Some(&42u64));

    assert!(world.get(VELOCITY).is_none());
}

const MASS: u64 = 2;

#[test]
fn triple_inner_join() {
    let mut world: World<f32> = World::new();

    let _a = Entity::new(&mut world)
        .add((POSITION, 1.0), &mut world)
        .add((VELOCITY, 1.5), &mut world);
    let _b = Entity::new(&mut world)
        .add((POSITION, 2.0), &mut world)
        .add((VELOCITY, 2.5), &mut world)
        .add((MASS, 2.75), &mut world);

    // only the entity with all three components joins
    assert_eq!(world.query3(POSITION, VELOCITY, MASS), vec![(&2.0, &2.5, &2.75)]);

    // a missing store empties the whole triple query
    assert!(world.query3(POSITION, VELOCITY, 9).is_empty());
}

#[test]
fn query_mut_three_components() {
    let mut world: World<f32> = World::new();

    let _a = Entity::new(&mut world).add((POSITION, 1.0), &mut world);
    let _b = Entity::new(&mut world)
        .add((POSITION, 2.0), &mut world)
        .add((VELOCITY, 3.0), &mut world)
        .add((MASS, 4.0), &mut world);

    world.query_mut3(POSITION, VELOCITY, MASS, |p: &f32, v: &f32, m: &f32| {
        (*p + 1.0, *v * 2.0, *m - 1.0)
    });

    assert_eq!(world.query3(POSITION, VELOCITY, MASS), vec![(&3.0, &6.0, &3.0)]);
    // the entity missing two of the types keeps its position
    assert_eq!(world.query(POSITION), vec![&1.0, &3.0]);
}
