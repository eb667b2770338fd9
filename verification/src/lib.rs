//! The rules of the lithos supervisor: which processes it runs, when it starts them
//! again, what it takes over from an earlier run and what it cleans up. Reading
//! files, starting processes and waiting for signals is left to the program.
pub mod accounting;
pub mod cleanup;
pub mod command;
pub mod config;
pub mod event;
pub mod level;
pub(crate) mod maps;
pub mod pacing;
pub mod path;
pub mod pattern;
pub mod places;
pub mod process;
pub mod queue;
pub mod recovery;
pub mod runs;
pub mod shutdown;
pub mod sockets;
pub mod startup;
pub mod steps;
pub mod supervisor;
pub mod table;
pub mod text;

use vstd::prelude::*;

verus! {

/// Drops a value whose contents do not matter.
pub fn discard<E>(_value: E) {
}

} // verus!
