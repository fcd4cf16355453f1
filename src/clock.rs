//! The fixed-timestep accumulator that turns wall-clock time into a whole
//! number of simulation steps.

use vstd::prelude::*;
use vstd::arithmetic::div_mod::{lemma_fundamental_div_mod, lemma_fundamental_div_mod_converse};
use crate::error::EngineError;

verus! {

/// The number of fixed steps one tick runs: the whole steps in the carried
/// time plus the new delta, capped at `max_steps`.
pub open spec fn tick_updates(acc: int, step: int, max_steps: int, dt: int) -> int {
    let n = (acc + dt) / step;
    if n <= max_steps {
        n
    } else {
        max_steps
    }
}

/// The time carried to the next tick: what is left below one step. Whole
/// steps beyond the cap are dropped.
pub open spec fn tick_carry(acc: int, step: int, dt: int) -> int {
    (acc + dt) % step
}

/// The total of a sequence of deltas.
pub open spec fn total(dts: Seq<int>) -> int
    decreases dts.len(),
{
    if dts.len() == 0 {
        0
    } else {
        dts[0] + total(dts.drop_first())
    }
}

/// The updates run over a sequence of ticks, from carried time `acc`, and
/// the time carried at the end.
pub open spec fn run_ticks(acc: int, step: int, max_steps: int, dts: Seq<int>) -> (int, int)
    decreases dts.len(),
{
    if dts.len() == 0 {
        (0, acc)
    } else {
        let u = tick_updates(acc, step, max_steps, dts[0]);
        let rest = run_ticks(tick_carry(acc, step, dts[0]), step, max_steps, dts.drop_first());
        (u + rest.0, rest.1)
    }
}

/// Converts wall-clock deltas into fixed simulation steps.
pub struct FrameClock {
    acc: u64,
    step: u64,
    max_steps: u32,
}

impl FrameClock {
    #[verifier::type_invariant]
    spec fn carry_below_step(self) -> bool {
        &&& self.step > 0
        &&& self.max_steps > 0
        &&& self.acc < self.step
    }

    /// Time carried over, below one step.
    pub closed spec fn carried(&self) -> int {
        self.acc as int
    }

    /// The fixed step.
    pub closed spec fn spec_step(&self) -> int {
        self.step as int
    }

    /// The most steps one tick may run.
    pub closed spec fn spec_max_steps(&self) -> int {
        self.max_steps as int
    }

    /// A clock with nothing carried, a fixed `step` and at most `max_steps`
    /// catch-up steps per tick; both must be positive.
    pub fn new(step: u64, max_steps: u32) -> (r: Result<FrameClock, EngineError>)
        ensures
            step == 0 || max_steps == 0 <==> r is Err,
            r is Err ==> r == Err::<FrameClock, EngineError>(EngineError::ZeroTimeStep),
            r is Ok ==> {
                &&& r->Ok_0.carried() == 0
                &&& r->Ok_0.spec_step() == step
                &&& r->Ok_0.spec_max_steps() == max_steps
            },
    {
        if step == 0 || max_steps == 0 {
            Err(EngineError::ZeroTimeStep)
        } else {
            Ok(FrameClock { acc: 0, step, max_steps })
        }
    }

    /// The fixed step.
    pub fn step(&self) -> (r: u64)
        ensures
            r == self.spec_step(),
    {
        self.step
    }

    /// Time carried over, below one step.
    pub fn carried_time(&self) -> (r: u64)
        ensures
            r == self.carried(),
    {
        self.acc
    }

    /// Adds `dt` of wall-clock time and returns how many fixed steps to
    /// run now.
    pub fn tick(&mut self, dt: u64) -> (n: u32)
        ensures
            n == tick_updates(old(self).carried(), old(self).spec_step(), old(self).spec_max_steps(), dt as int),
            final(self).carried() == tick_carry(old(self).carried(), old(self).spec_step(), dt as int),
            final(self).spec_step() == old(self).spec_step(),
            final(self).spec_max_steps() == old(self).spec_max_steps(),
            0 <= final(self).carried() < final(self).spec_step(),
    {
        proof {
            use_type_invariant(&*self);
        }
        let sum = self.acc as u128 + dt as u128;
        let whole = sum / self.step as u128;
        let n = if whole <= self.max_steps as u128 {
            whole as u32
        } else {
            self.max_steps
        };
        proof {
            lemma_fundamental_div_mod(sum as int, self.step as int);
        }
        self.acc = (sum % self.step as u128) as u64;
        n
    }
}

/// Split a sum into whole steps and a remainder.
proof fn lemma_split_steps(a: int, b: int, step: int)
    requires
        step > 0,
        a >= 0,
        b >= 0,
    ensures
        (a + b) / step == a / step + (a % step + b) / step,
        (a + b) % step == (a % step + b) % step,
{
    lemma_fundamental_div_mod(a, step);
    lemma_fundamental_div_mod(a % step + b, step);
    let q = a / step + (a % step + b) / step;
    let r = (a % step + b) % step;
    assert(a + b == q * step + r) by (nonlinear_arith)
        requires
            a == step * (a / step) + a % step,
            a % step + b == step * ((a % step + b) / step) + (a % step + b) % step,
            q == a / step + (a % step + b) / step,
            r == (a % step + b) % step,
    ;
    lemma_fundamental_div_mod_converse(a + b, step, q, r);
}

/// When no tick exceeds the catch-up cap, the ticks together run exactly the
/// whole steps in the total time, and carry what is left, however the
/// time is split into deltas.
pub proof fn lemma_ticks_total(acc: int, step: int, max_steps: int, dts: Seq<int>)
    requires
        step > 0,
        max_steps > 0,
        0 <= acc < step,
        forall|i: int| 0 <= i < dts.len() ==> 0 <= #[trigger] dts[i] <= max_steps * step,
    ensures
        run_ticks(acc, step, max_steps, dts).0 == (acc + total(dts)) / step,
        run_ticks(acc, step, max_steps, dts).1 == (acc + total(dts)) % step,
    decreases dts.len(),
{
    lemma_fundamental_div_mod(acc, step);
    if dts.len() > 0 {
        let d = dts[0];
        let rest = dts.drop_first();
        assert forall|i: int| 0 <= i < rest.len() implies 0 <= #[trigger] rest[i] <= max_steps
            * step by {
            assert(rest[i] == dts[i + 1]);
        }
        lemma_total_nonneg(rest);
        let a2 = tick_carry(acc, step, d);
        lemma_fundamental_div_mod(acc + d, step);
        assert((acc + d) / step <= max_steps) by (nonlinear_arith)
            requires
                acc + d == step * ((acc + d) / step) + (acc + d) % step,
                0 <= (acc + d) % step,
                acc < step,
                d <= max_steps * step,
                step > 0,
        ;
        lemma_ticks_total(a2, step, max_steps, rest);
        lemma_split_steps(acc + d, total(rest), step);
        assert(total(dts) == d + total(rest));
        assert(tick_updates(acc, step, max_steps, d) == (acc + d) / step);
    } else {
        lemma_fundamental_div_mod_converse(acc, step, 0, acc);
    }
}

/// The total of nonnegative deltas is nonnegative.
proof fn lemma_total_nonneg(dts: Seq<int>)
    requires
        forall|i: int| 0 <= i < dts.len() ==> 0 <= #[trigger] dts[i],
    ensures
        total(dts) >= 0,
    decreases dts.len(),
{
    if dts.len() > 0 {
        let rest = dts.drop_first();
        assert forall|i: int| 0 <= i < rest.len() implies 0 <= #[trigger] rest[i] by {
            assert(rest[i] == dts[i + 1]);
        }
        lemma_total_nonneg(rest);
    }
}

/// From nothing carried, deltas that add up to exactly `n` fixed steps
/// run exactly `n` updates, whatever their split, as long as no single
/// delta exceeds the catch-up cap.
pub proof fn lemma_chunking_independent(step: int, max_steps: int, dts: Seq<int>, n: int)
    requires
        step > 0,
        max_steps > 0,
        n >= 0,
        total(dts) == n * step,
        forall|i: int| 0 <= i < dts.len() ==> 0 <= #[trigger] dts[i] <= max_steps * step,
    ensures
        run_ticks(0, step, max_steps, dts).0 == n,
        run_ticks(0, step, max_steps, dts).1 == 0,
{
    lemma_ticks_total(0, step, max_steps, dts);
    lemma_fundamental_div_mod_converse(n * step, step, n, 0);
}

} // verus!
