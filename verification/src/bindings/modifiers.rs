//! Modifier flags of the compositor's seat protocol, as bitmask values.

use vstd::prelude::*;

verus! {

pub const SHIFT: u32 = 1;
pub const CAPS_LOCK: u32 = 2;
pub const CTRL: u32 = 4;
/// Alt.
pub const MOD1: u32 = 8;
/// Num Lock.
pub const MOD2: u32 = 16;
pub const MOD3: u32 = 32;
/// Super / Logo.
pub const MOD4: u32 = 64;
pub const MOD5: u32 = 128;

} // verus!
