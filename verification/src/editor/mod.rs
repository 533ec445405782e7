//! Editor logic that does not need a window: play-mode state machine,
//! selection and tool state, gizmo part bookkeeping, undoable commands.
pub mod commands;
pub mod console;
pub mod gizmo;
pub mod play;
pub mod state;
