//! Sans-io protocol core for the HyVibe smart guitar, and the loop-file reader.
use vstd::prelude::*;

pub mod handshake;
pub mod loopfile;
pub mod probe;
pub mod text;
pub mod ble;

verus! {
} // verus!
