//! An embeddable entity-component-system (ECS) runtime.
//!
//! The crate is a generic data store that lets independent pieces of
//! per-entity state ("components") be attached, detached and iterated
//! without the engine knowing their concrete types ahead of time, plus a
//! deterministic scheduler that runs registered behaviours ("systems")
//! over that state once per tick.
//!
//! Component types are identified by a caller-chosen type token (`u64`);
//! every store holds values of the world's single value type `V`, so a
//! host groups its component kinds into one enum (or reuses one scalar
//! type) and tells them apart by token.

pub mod ecs;
pub mod input;
pub mod resources;
pub mod scheduler;
