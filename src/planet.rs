use vstd::prelude::*;

verus! {

/// A player id; `NEUTRAL` is nobody and `ME` is the agent itself.
pub type Owner = usize;

pub const ME: Owner = 1;

pub const NEUTRAL: Owner = 0;

/// Largest number of ships that one arrival slot may gather for one owner.
pub const MAX_FLEET: i64 = 0x7fff_ffff;

/// Largest magnitude of a planet's confirmed ship count.
pub const MAX_SHIPS: i64 = 0x100_0000_0000;

/// Longest prediction window, in turns.
pub const MAX_HORIZON: usize = 0x10_0000;

/// A planet as the simulator sees it: who holds it and with how many ships.
#[derive(Clone, Copy, Debug, PartialEq, Eq, Structural)]
pub struct Planet {
    pub id: usize,
    pub ships: i64,
    pub owner: Owner,
}

/// A fleet in transit, with planets named by their index.
#[derive(Clone, Copy, Debug)]
pub struct Expedition {
    pub id: u64,
    pub ships: i64,
    pub remaining: usize,
    pub owner: Owner,
    pub origin: usize,
    pub destination: usize,
}

} // verus!
