//! The fixed constants of the generator.
use vstd::prelude::*;

verus! {

/// The initial/default state to initialize the `Pcg` struct with.
pub const INIT_STATE: u64 = 0x853c_49e6_748f_ea9b;

/// The initial/default increment to initialize the `Pcg` struct with.
pub const INIT_INC: u64 = 0xda3e_39cb_94b9_5bdb;

/// The multiplier of the linear congruential step.
pub const INCREMENTOR: u64 = 6_364_136_223_846_793_005;

} // verus!
