use vstd::prelude::*;

verus! {

/// A planet that can supply an operation: its id, its distance to the target
/// and the ships it has at the turn it must depart.
#[derive(Clone, Copy, Debug)]
pub struct UsablePlanet {
    pub id: usize,
    pub dist: usize,
    pub usable_ships: i64,
}

/// A candidate strike on (or reinforcement of) `target`, `duration` turns
/// ahead, needing exactly `required_ships` ships from `usable_planets`.
#[derive(Debug)]
pub struct OptionalOperation {
    pub weight: u64,
    pub duration: usize,
    pub required_ships: i64,
    pub usable_planets: Vec<UsablePlanet>,
    pub target: usize,
}

/// Fixed-point unit of a priority score.
pub const SCORE_UNIT: u64 = 0x1_0000_0000;

/// Priority of an operation: its weight over the squared cost, where the cost
/// combines the ships it needs and the turns it takes; cheaper and faster
/// operations score higher.
pub open spec fn score_of(weight: u64, required_ships: i64, duration: usize) -> int {
    let cost = required_ships * required_ships + duration * duration;
    if cost == 0 {
        weight * SCORE_UNIT
    } else {
        (weight * SCORE_UNIT) / cost
    }
}

impl OptionalOperation {
    pub open spec fn score_spec(&self) -> int {
        score_of(self.weight, self.required_ships, self.duration)
    }

    pub fn score(&self) -> (r: u128)
        ensures
            r == self.score_spec(),
    {
        let req = self.required_ships as i128;
        assert(req * req <= 0x4000_0000_0000_0000_0000_0000_0000_0000) by (nonlinear_arith)
            requires
                -0x8000_0000_0000_0000 <= req <= 0x7fff_ffff_ffff_ffff,
        ;
        assert(req * req >= 0) by (nonlinear_arith);
        let w = self.weight as u128;
        assert(w * 0x1_0000_0000 <= 0x1_0000_0000_0000_0000_0000_0000) by (nonlinear_arith)
            requires
                w < 0x1_0000_0000_0000_0000,
        ;
        let top = w * SCORE_UNIT as u128;
        if self.duration as u64 >= 0x4_0000_0000_0000 {
            let ghost d = self.duration as int;
            let ghost cost = req * req + d * d;
            assert(d * d >= 0x10_0000_0000_0000_0000_0000_0000) by (nonlinear_arith)
                requires
                    d >= 0x4_0000_0000_0000,
            ;
            assert(top < cost);
            assert(top as int / cost == 0) by (nonlinear_arith)
                requires
                    0 <= top < cost,
            ;
            0
        } else {
            let d = self.duration as u128;
            assert(d * d < 0x10_0000_0000_0000_0000_0000_0000) by (nonlinear_arith)
                requires
                    d < 0x4_0000_0000_0000,
            ;
            let cost = (req * req) as u128 + d * d;
            if cost == 0 {
                top
            } else {
                top / cost
            }
        }
    }
}

} // verus!
