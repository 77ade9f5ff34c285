//! Ready-made processors and effects over `u64` values, with wrapping
//! arithmetic.

use vstd::prelude::*;

use crate::{Effect, Processor};

verus! {

/// `a + b` modulo `2^64`.
pub open spec fn add_wrap(a: u64, b: u64) -> u64 {
    ((a + b) % 0x1_0000_0000_0000_0000) as u64
}

/// `a * b` modulo `2^64`.
pub open spec fn mul_wrap(a: u64, b: u64) -> u64 {
    ((a * b) % 0x1_0000_0000_0000_0000) as u64
}

/// Wrapping sum of a sequence, left to right.
pub open spec fn sum_wrap(s: Seq<u64>) -> u64
    decreases s.len(),
{
    if s.len() == 0 {
        0u64
    } else {
        add_wrap(s[0], sum_wrap(s.drop_first()))
    }
}

/// Wrapping addition.
pub fn add_wrapped(a: u64, b: u64) -> (r: u64)
    ensures
        r == add_wrap(a, b),
{
    ((a as u128 + b as u128) % 0x1_0000_0000_0000_0000u128) as u64
}

/// Wrapping multiplication.
pub fn mul_wrapped(a: u64, b: u64) -> (r: u64)
    ensures
        r == mul_wrap(a, b),
{
    proof {
        assert((a as u128) * (b as u128) <= u128::MAX) by (nonlinear_arith)
            requires
                a <= u64::MAX,
                b <= u64::MAX,
        ;
    }
    ((a as u128 * b as u128) % 0x1_0000_0000_0000_0000u128) as u64
}

/// Arithmetic over the dependency values, all of it wrapping: the sum of
/// all of them, or the first one scaled by a constant factor (`0` when
/// there is no dependency).
#[derive(Clone, Copy)]
pub enum Arith {
    /// The wrapping sum of all dependency values.
    Sum,
    /// The first dependency value times this factor (wrapping).
    Scale(u64),
}

impl Processor<u64> for Arith {
    open spec fn apply(&self, inputs: Seq<u64>) -> u64 {
        match *self {
            Arith::Sum => sum_wrap(inputs),
            Arith::Scale(f) => if inputs.len() == 0 {
                0u64
            } else {
                mul_wrap(f, inputs[0])
            },
        }
    }

    fn compute(&self, inputs: &Vec<u64>) -> (r: u64) {
        match *self {
            Arith::Sum => {
                let mut acc: u64 = 0;
                let mut k: usize = inputs.len();
                proof {
                    assert(inputs@.skip(inputs@.len() as int) =~= Seq::<u64>::empty());
                }
                while k > 0
                    invariant
                        k <= inputs@.len(),
                        acc == sum_wrap(inputs@.skip(k as int)),
                    decreases k,
                {
                    k = k - 1;
                    acc = add_wrapped(inputs[k], acc);
                    proof {
                        assert(inputs@.skip(k as int)[0] == inputs@[k as int]);
                        assert(inputs@.skip(k as int).drop_first() =~= inputs@.skip(k + 1));
                    }
                }
                proof {
                    assert(inputs@.skip(0) =~= inputs@);
                }
                acc
            },
            Arith::Scale(f) => {
                if inputs.len() == 0 {
                    0
                } else {
                    mul_wrapped(f, inputs[0])
                }
            },
        }
    }
}

/// An effect that does nothing.
#[derive(Clone, Copy)]
pub struct Silent;

impl Effect<u64> for Silent {
    open spec fn step(&self, before: u64, after: u64) -> Silent {
        Silent
    }

    fn run(&mut self, before: u64, after: u64) {
    }
}

/// An effect that counts how often it ran and records the values of the
/// latest run.
#[derive(Clone, Copy)]
pub struct Trace {
    /// How many recomputations have run so far (wrapping).
    pub fired: u64,
    /// The signal's value before the latest recomputation.
    pub before: u64,
    /// The value the latest recomputation produced.
    pub after: u64,
}

impl Trace {
    /// A trace that has seen nothing yet.
    pub fn empty() -> (t: Trace)
        ensures
            t == (Trace { fired: 0, before: 0, after: 0 }),
    {
        Trace { fired: 0, before: 0, after: 0 }
    }
}

impl Effect<u64> for Trace {
    open spec fn step(&self, before: u64, after: u64) -> Trace {
        Trace { fired: add_wrap(self.fired, 1), before, after }
    }

    fn run(&mut self, before: u64, after: u64) {
        self.fired = add_wrapped(self.fired, 1);
        self.before = before;
        self.after = after;
    }
}

} // verus!
