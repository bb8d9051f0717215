//! Random loadouts and teams for private matches of a team shooter, and the
//! layout of the picture that shows them.

use vstd::prelude::*;

pub mod cmd;
pub mod data;
pub mod loadout;
pub mod random;
pub mod renderer;
pub mod teams;
pub mod text;

pub use loadout::Loadout;
pub use teams::Teams;

verus! {

/// How the class of a generated loadout is constrained.
#[derive(Clone, Copy, PartialEq, Eq, Structural, Debug)]
pub enum LoadoutBias {
    /// Any of the three classes.
    Fair,
    /// Light or medium only.
    NoHeavy,
    /// Heavy only.
    OnlyHeavy,
}

/// A game mode; every mode but `Any` restricts the weapons to one kind.
#[derive(Clone, Copy, PartialEq, Eq, Structural, Debug)]
pub enum Gamemode {
    Any,
    Melee,
    Shotgun,
    Auto,
    Semi,
    Bombs,
}

impl Default for Gamemode {
    fn default() -> (mode: Self)
        ensures
            mode == Gamemode::Any,
    {
        Gamemode::Any
    }
}

} // verus!
