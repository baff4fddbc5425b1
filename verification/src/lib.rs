//! Runtime core of a scene-graph / entity-component framework.
//!
//! A [`World`] is an arena of entities linked by plain indices: every entity
//! caches its distance from the root of its tree (`depth`), points at its
//! parent and children, and may belong to at most one [`Scene`].  Typed
//! components attach to entities; for every component type that is live
//! inside a scene the scene owns exactly one [`ComponentManager`] that
//! aggregates the components of that type, created on the 0 -> 1 transition
//! of the member count and destroyed on the 1 -> 0 transition.
//!
//! The well-formedness predicate [`World::wf`] ties the pieces together:
//! depths agree with the parent links, scene membership is uniform along
//! every parent/child edge, every parentless member of a scene is listed as
//! one of that scene's roots, and each manager's member list is exactly the
//! set of live components of its type inside its scene.  Every mutating
//! operation is proved to preserve it.
//!
//! The fields of the data types are exposed so that the contracts can speak
//! about them directly; the guarantees hold for arenas built and mutated
//! through the operations of this crate, which all require and re-establish
//! [`World::wf`].

pub mod ancestry;
pub mod component;
pub mod component_manager;
pub mod components;
pub mod entity;
pub mod hierarchy;
pub mod id;
pub mod laws;
pub mod lifecycle;
pub mod managers;
pub mod membership;
pub mod ops;
pub mod plugin;
pub mod scene;
pub mod seqs;
pub mod teardown;
pub mod transfer;
pub mod world;

pub use component::Component;
pub use component_manager::ComponentManager;
pub use entity::Entity;
pub use id::Id;
pub use plugin::Plugin;
pub use scene::Scene;
pub use world::GraphError;
pub use world::World;
