//! Scene-level settings shared by the editor and the runtime.
use vstd::prelude::*;

verus! {

/// Which physics backend and editor camera conventions a scene uses.
#[derive(Clone, Copy, Debug, PartialEq, Eq, Structural, Default)]
pub enum Dimension {
    #[default]
    D2,
    D3,
}

} // verus!
