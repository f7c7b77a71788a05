//! Additive cost/work heuristic values.
use vstd::prelude::*;

verus! {

/// The makespan of one layer, in ticks.
pub const THRESHOLD: u64 = 1;

/// The cost of what cannot be reached.
pub const NO_COST: u128 = u128::MAX;

/// The work of what cannot be reached.
pub const NO_WORK: u32 = 0x7fff_ffff;

/// The makespan of what cannot be reached.
pub const NO_SPAN: u64 = u64::MAX;

/// The sum of two amounts of work, as far as it can be counted.
pub open spec fn work_sum(n: u32, m: u32) -> u32 {
    if n + m < NO_WORK {
        (n + m) as u32
    } else {
        NO_WORK
    }
}

/// The sum of two costs; what cannot be counted is out of reach.
pub open spec fn cost_sum(n: u128, m: u128) -> u128 {
    if n + m < NO_COST {
        (n + m) as u128
    } else {
        NO_COST
    }
}

/// The sum of two spans of time.
pub open spec fn span_sum(n: u64, m: u64) -> u64 {
    if n + m < NO_SPAN {
        (n + m) as u64
    } else {
        NO_SPAN
    }
}

fn sum(n: u32, m: u32) -> (res: u32)
    ensures
        res == work_sum(n, m),
{
    let s: u64 = n as u64 + m as u64;
    if s < NO_WORK as u64 {
        s as u32
    } else {
        NO_WORK
    }
}

/// The value of a formula: additive cost, additive work and makespan.
#[derive(Debug, Clone, Copy, PartialEq, Eq, Structural)]
pub struct HeuristicValue {
    pub add_cost: u128,
    pub add_work: u32,
    pub makespan: u64,
}

/// The value of what holds anyway.
pub open spec fn zero_value() -> HeuristicValue {
    HeuristicValue { add_cost: 0, add_work: 0, makespan: THRESHOLD }
}

/// The value of what is free but takes a link.
pub open spec fn unit_work() -> HeuristicValue {
    HeuristicValue { add_cost: 0, add_work: 1, makespan: THRESHOLD }
}

/// The value of what cannot be reached.
pub open spec fn no_value() -> HeuristicValue {
    HeuristicValue { add_cost: NO_COST, add_work: NO_WORK, makespan: NO_SPAN }
}

impl HeuristicValue {
    pub open spec fn is_zero(self) -> bool {
        self.add_cost == 0
    }

    pub open spec fn is_infinite(self) -> bool {
        self.makespan == NO_SPAN
    }

    /// Both values together: costs and work add up, the longer span counts.
    pub open spec fn plus(self, v: HeuristicValue) -> HeuristicValue {
        HeuristicValue {
            add_cost: cost_sum(self.add_cost, v.add_cost),
            add_work: work_sum(self.add_work, v.add_work),
            makespan: if self.makespan < v.makespan {
                v.makespan
            } else {
                self.makespan
            },
        }
    }

    /// The value after one more action of the given cost.
    pub open spec fn after(self, cost: u128) -> HeuristicValue {
        HeuristicValue {
            add_cost: cost_sum(self.add_cost, cost),
            add_work: work_sum(self.add_work, 1),
            makespan: span_sum(self.makespan, THRESHOLD),
        }
    }

    /// The value of what holds anyway.
    pub fn of_zero() -> (res: Self)
        ensures
            res == zero_value(),
    {
        HeuristicValue { add_cost: 0, add_work: 0, makespan: THRESHOLD }
    }

    /// The value of what is free but takes a link.
    pub fn of_unit_work() -> (res: Self)
        ensures
            res == unit_work(),
    {
        HeuristicValue { add_cost: 0, add_work: 1, makespan: THRESHOLD }
    }

    /// The value of what cannot be reached.
    pub fn of_nothing() -> (res: Self)
        ensures
            res == no_value(),
    {
        HeuristicValue { add_cost: NO_COST, add_work: NO_WORK, makespan: NO_SPAN }
    }

    pub fn new(add_cost: u128, add_work: u32, makespan: u64) -> (res: Self)
        ensures
            res == (HeuristicValue { add_cost, add_work, makespan }),
    {
        HeuristicValue { add_cost, add_work, makespan }
    }

    pub fn add_cost(&self) -> (res: u128)
        ensures
            res == self.add_cost,
    {
        self.add_cost
    }

    pub fn add_work(&self) -> (res: u32)
        ensures
            res == self.add_work,
    {
        self.add_work
    }

    pub fn makespan(&self) -> (res: u64)
        ensures
            res == self.makespan,
    {
        self.makespan
    }

    pub fn zero(&self) -> (res: bool)
        ensures
            res == self.is_zero(),
    {
        self.add_cost == 0
    }

    pub fn infinite(&self) -> (res: bool)
        ensures
            res == self.is_infinite(),
    {
        self.makespan == NO_SPAN
    }

    pub fn add_assign(&mut self, v: &HeuristicValue)
        ensures
            *final(self) == old(self).plus(*v),
    {
        self.increase_cost(v.add_cost);
        self.add_work = sum(self.add_work, v.add_work);
        if self.makespan < v.makespan {
            self.makespan = v.makespan;
        }
    }

    pub fn increase_cost(&mut self, x: u128)
        ensures
            *final(self) == (HeuristicValue { add_cost: cost_sum(old(self).add_cost, x), ..*old(self) }),
    {
        if x < NO_COST - self.add_cost {
            self.add_cost = self.add_cost + x;
        } else {
            self.add_cost = NO_COST;
        }
    }

    pub fn increment_work(&mut self)
        ensures
            *final(self) == (HeuristicValue { add_work: work_sum(old(self).add_work, 1), ..*old(self) }),
    {
        self.add_work = sum(self.add_work, 1);
    }

    pub fn increase_makespan(&mut self, x: u64)
        ensures
            *final(self) == (HeuristicValue { makespan: span_sum(old(self).makespan, x), ..*old(self) }),
    {
        if x < NO_SPAN - self.makespan {
            self.makespan = self.makespan + x;
        } else {
            self.makespan = NO_SPAN;
        }
    }
}

/// The lesser of two values, component by component.
pub open spec fn lesser(v1: HeuristicValue, v2: HeuristicValue) -> HeuristicValue {
    HeuristicValue {
        add_cost: if v1.add_cost < v2.add_cost {
            v1.add_cost
        } else {
            v2.add_cost
        },
        add_work: if v1.add_work < v2.add_work {
            v1.add_work
        } else {
            v2.add_work
        },
        makespan: if v1.makespan < v2.makespan {
            v1.makespan
        } else {
            v2.makespan
        },
    }
}

/// Componentwise minimum heuristic value.
pub fn hv_min(v1: HeuristicValue, v2: HeuristicValue) -> (res: HeuristicValue)
    ensures
        res == lesser(v1, v2),
{
    let add_cost = if v1.add_cost < v2.add_cost {
        v1.add_cost
    } else {
        v2.add_cost
    };
    let add_work = if v1.add_work < v2.add_work {
        v1.add_work
    } else {
        v2.add_work
    };
    let makespan = if v1.makespan < v2.makespan {
        v1.makespan
    } else {
        v2.makespan
    };
    HeuristicValue { add_cost, add_work, makespan }
}

/// The lesser of two values does not depend on their order.
pub proof fn lesser_is_symmetric(v1: HeuristicValue, v2: HeuristicValue)
    ensures
        lesser(v1, v2) == lesser(v2, v1),
{
}

/// The least of three values does not depend on how they are paired.
pub proof fn lesser_is_associative(v1: HeuristicValue, v2: HeuristicValue, v3: HeuristicValue)
    ensures
        lesser(lesser(v1, v2), v3) == lesser(v1, lesser(v2, v3)),
{
}

} // verus!
