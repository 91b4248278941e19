//! What a run is for.

use vstd::prelude::*;

use crate::error::Error;

verus! {

/// The work that a run does.
#[derive(Debug, Clone, Copy, PartialEq, Eq)]
pub enum Mode {
    /// Find archives and process those that the user picks.
    Automatic,
    /// Process one archive.
    Manual,
    /// Take back what earlier runs did.
    Restore,
}

/// The mode at a position of the menu.
pub open spec fn mode_at(index: usize) -> Option<Mode> {
    match index {
        0 => Some(Mode::Automatic),
        1 => Some(Mode::Manual),
        2 => Some(Mode::Restore),
        _ => None,
    }
}

impl Mode {
    /// The mode behind an entry of the menu `Automatic`, `Manual`, `Restore`.
    pub fn from_index(index: usize) -> (r: Result<Mode, Error>)
        ensures
            r == match index {
                0 => Ok::<Mode, Error>(Mode::Automatic),
                1 => Ok(Mode::Manual),
                2 => Ok(Mode::Restore),
                _ => Err(Error::InvalidModeIndex(index)),
            },
            r is Ok <==> mode_at(index) is Some,
            r matches Ok(mode) ==> mode_at(index) == Some(mode),
            r matches Err(e) ==> e == Error::InvalidModeIndex(index),
    {
        match index {
            0 => Ok(Mode::Automatic),
            1 => Ok(Mode::Manual),
            2 => Ok(Mode::Restore),
            _ => Err(Error::InvalidModeIndex(index)),
        }
    }
}

} // verus!
