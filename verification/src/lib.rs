//! spark: the verified core of a small data-driven game engine.
//!
//! The modules hold the engine's decision logic: the render frame plan, its
//! usage-scope rules and draw batching; the asset catalogue, builtin meshes,
//! image conversion and the decoded-texture cache; the entity hierarchy over
//! a `hecs` world; the command (undo/redo) stack; input edge tracking and
//! action bindings; the rules system's evaluation, actions and tick
//! bookkeeping; and the editor's play mode, selection, gizmo and command
//! state.
pub mod render;
pub mod text;
pub mod ecs;
pub mod cmd;
pub mod editor;
pub mod scene;
pub mod assets;
pub mod input;
pub mod components;
pub mod rules;
pub mod pixels;
pub mod textures;
