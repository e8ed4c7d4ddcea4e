use vstd::prelude::*;

pub mod fsmodel;
pub mod locate;
pub mod manifest;
pub mod mover;
pub mod naming;
pub mod paths;
pub mod restore;
pub mod stage;
pub mod text;

verus! {

} // verus!
