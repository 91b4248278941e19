//! Why a run ends without doing its work.

use vstd::prelude::*;

use crate::text::append_decimal;

verus! {

/// A reason to end a run.
#[derive(Debug, Clone, Copy, PartialEq, Eq)]
pub enum Error {
    /// The menu handed back an entry that it does not have.
    InvalidModeIndex(usize),
    /// The directory of the game does not exist.
    GameDirectoryMissing,
    /// The archive to process does not exist.
    InputFileMissing,
    /// No archive of the game can be processed.
    NoPakFiles,
    /// The user left the list of archives.
    NoChunksSelected,
}

/// The message of an error.
pub open spec fn message_of(e: Error) -> Seq<char> {
    match e {
        Error::InvalidModeIndex(index) => "Invalid mode index: "@ + crate::text::decimal(
            index as nat,
        ),
        Error::GameDirectoryMissing => "game directory not exists."@,
        Error::InputFileMissing => "input file not exists."@,
        Error::NoPakFiles => "No available pak files found."@,
        Error::NoChunksSelected => "No chunks selected."@,
    }
}

impl Error {
    /// The message shown to the user.
    pub fn message(&self) -> (r: String)
        ensures
            r@ == message_of(*self),
    {
        match self {
            Error::InvalidModeIndex(index) => {
                let mut r = "Invalid mode index: ".to_owned();
                append_decimal(&mut r, *index);
                r
            },
            Error::GameDirectoryMissing => "game directory not exists.".to_owned(),
            Error::InputFileMissing => "input file not exists.".to_owned(),
            Error::NoPakFiles => "No available pak files found.".to_owned(),
            Error::NoChunksSelected => "No chunks selected.".to_owned(),
        }
    }
}

/// A run over the game needs the directory of the game.
pub fn require_game_dir(is_dir: bool) -> (r: Result<(), Error>)
    ensures
        r == if is_dir {
            Ok::<(), Error>(())
        } else {
            Err(Error::GameDirectoryMissing)
        },
{
    if !is_dir {
        return Err(Error::GameDirectoryMissing);
    }
    Ok(())
}

/// A run over one archive needs that archive.
pub fn require_input_file(is_file: bool) -> (r: Result<(), Error>)
    ensures
        r == if is_file {
            Ok::<(), Error>(())
        } else {
            Err(Error::InputFileMissing)
        },
{
    if !is_file {
        return Err(Error::InputFileMissing);
    }
    Ok(())
}

} // verus!
