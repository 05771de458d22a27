//! Where an entity stands, in world tiles.
use vstd::prelude::*;
use crate::ivec::IVec2;

verus! {

/// The world tile an entity stands on.
#[derive(Clone, Copy, PartialEq, Eq, Structural)]
pub struct Position(pub IVec2);

} // verus!
