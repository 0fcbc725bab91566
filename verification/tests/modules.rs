//! The input state machine, the mesh loader and the scheduler exercised
//! from outside.

use ecs_core::ecs::{Entity, World};
use ecs_core::input::{InputGameState, KeyEvent, KeyParam};
use ecs_core::resources::{Loader, MeshDesc, MeshLabel, MeshLoader};
use ecs_core::scheduler::{System, SystemManager};

const KEY_UP: u64 = 1;
const KEY_DOWN: u64 = 2;
const KEY_ESCAPE: u64 = 3;

#[test]
fn key_default_is_released() {
    let k = KeyParam::default();
    assert_eq!(k.time_pressed, None);
    assert!(!k.pressed);
    assert!(!k.triggered);
}

#[test]
fn key_press_and_release_transitions() {
    let mut k = KeyParam::default();

    // first press: pressed and triggered, time recorded
    k.press(120);
    assert!(k.pressed);
    assert!(k.triggered);
    assert_eq!(k.time_pressed, Some(120));

    // repeated press: still pressed, no longer the first frame
    k.press(150);
    assert!(k.pressed);
    assert!(!k.triggered);
    assert_eq!(k.time_pressed, Some(120));

    // release clears everything
    k.release();
    assert!(!k.pressed);
    assert!(!k.triggered);
    assert_eq!(k.time_pressed, None);

    // releasing an already released key changes nothing
    k.release();
    assert!(!k.pressed);
    assert_eq!(k.time_pressed, None);
}

#[test]
fn input_state_tracks_registered_keys_only() {
    let mut input = InputGameState::new();
    input.track_key(KEY_UP);
    input.track_key(KEY_DOWN);
    input.track_key(KEY_ESCAPE);
    // tracking a key twice is a no-op
    input.track_key(KEY_UP);

    assert!(!input.is_key_pressed(KEY_UP));

    input.register_inputs(&KeyEvent::Pressed { key: KEY_UP, now: 5 });
    assert!(input.is_key_pressed(KEY_UP));
    assert!(!input.is_key_pressed(KEY_DOWN));

    // an event for an untracked key is ignored
    input.register_inputs(&KeyEvent::Pressed { key: 99, now: 6 });
    assert!(!input.is_key_pressed(99));
    assert!(input.is_key_pressed(KEY_UP));

    input.register_inputs(&KeyEvent::Released { key: KEY_UP });
    assert!(!input.is_key_pressed(KEY_UP));
}

#[test]
fn mesh_loader_accumulates_offsets() {
    let mut loader: MeshLoader<[i32; 3]> = MeshLoader::new();

    let d0 = loader.register_mesh(
        vec![[0, 0, 0], [1, 0, 0], [0, 1, 0]],
        vec![0, 1, 2],
        MeshLabel::Cube,
    );
    assert_eq!(d0.start_idx, 0);
    assert_eq!(d0.base_vertex_idx, 0);
    assert_eq!(d0.num_indices, 3);
    assert_eq!(d0.ty, MeshLabel::Cube);

    let d1 = loader.register_mesh(
        vec![[2, 0, 0], [0, 2, 0]],
        vec![0, 1, 1, 0],
        MeshLabel::Object { name: "dish", path: String::from("models/dish.gltf") },
    );
    // the second mesh lands right after the first in both buffers
    assert_eq!(d1.start_idx, 3);
    assert_eq!(d1.base_vertex_idx, 3);
    assert_eq!(d1.num_indices, 4);

    assert_eq!(loader.vertices.len(), 5);
    assert_eq!(loader.indices, vec![0, 1, 2, 0, 1, 1, 0]);
}

#[test]
fn mesh_loader_through_trait() {
    let mut loader: MeshLoader<[i32; 3]> = MeshLoader::new();
    let d: Result<MeshDesc, ()> = loader.load((vec![[0, 0, 0]], vec![0], MeshLabel::Isocahedron));
    let d = d.expect("an empty loader accepts any mesh");
    assert_eq!(d.start_idx, 0);
    assert_eq!(d.num_indices, 1);
    assert_eq!(d.ty, MeshLabel::Isocahedron);
}

const SCORE: u64 = 0;

/// Doubles every score.
struct DoubleScores;

impl System<u64> for DoubleScores {
    fn run(&self, world: &mut World<u64>, _elapsed_millis: u64) {
        world.query_mut(SCORE, |s: &u64| s.wrapping_mul(2));
    }
}

/// Adds the elapsed time to every score.
struct AddElapsed;

impl System<u64> for AddElapsed {
    fn run(&self, world: &mut World<u64>, elapsed_millis: u64) {
        world.query_mut(SCORE, |s: &u64| s.wrapping_add(elapsed_millis));
    }
}

#[test]
fn scheduler_runs_in_registration_order() {
    let mut world: World<u64> = World::new();
    let _ = Entity::new(&mut world).add((SCORE, 10u64), &mut world);

    let mut manager: SystemManager<u64> = SystemManager::new();
    assert_eq!(manager.len(), 0);
    manager.register_system(Box::new(DoubleScores));
    manager.register_system(Box::new(AddElapsed));
    assert_eq!(manager.len(), 2);

    // doubling first and adding second gives 10 * 2 + 7, not (10 + 7) * 2
    manager.run(&mut world, 7);
    assert_eq!(world.query(SCORE), vec![&27u64]);

    // a second tick repeats the full pass in the same order
    manager.run(&mut world, 7);
    assert_eq!(world.query(SCORE), vec![&61u64]);
}
