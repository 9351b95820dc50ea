//! How long each step of the pipeline takes.
use vstd::prelude::*;

verus! {

/// The longest time that can be told, in nanoseconds: one nanosecond less than
/// two to the power of sixty-four seconds.
pub const MAX_NANOS: u128 = 18_446_744_073_709_551_615_999_999_999;

/// How long each step took, in nanoseconds.
#[derive(Clone, Copy, PartialEq, Eq, Debug, Structural)]
pub struct V0PipelineTimings {
    pub parse: u128,
    pub lower: u128,
    pub typecheck: u128,
    pub monomorphize: u128,
    pub ct_eval: u128,
    pub bta: u128,
    pub residualize: u128,
}

/// The sum of two times, or the longest time where the sum is longer.
pub open spec fn sum(a: nat, b: nat) -> nat {
    if a + b > MAX_NANOS {
        MAX_NANOS as nat
    } else {
        a + b
    }
}

fn add_times(a: u128, b: u128) -> (c: u128)
    requires
        a <= MAX_NANOS,
        b <= MAX_NANOS,
    ensures
        c == sum(a as nat, b as nat),
        c <= MAX_NANOS,
{
    if b > MAX_NANOS - a {
        MAX_NANOS
    } else {
        a + b
    }
}

impl Default for V0PipelineTimings {
    fn default() -> (timings: Self)
        ensures
            timings == V0PipelineTimings::none(),
    {
        V0PipelineTimings {
            parse: 0,
            lower: 0,
            typecheck: 0,
            monomorphize: 0,
            ct_eval: 0,
            bta: 0,
            residualize: 0,
        }
    }
}

impl V0PipelineTimings {
    /// No step took any time.
    pub open spec fn none() -> Self {
        V0PipelineTimings {
            parse: 0,
            lower: 0,
            typecheck: 0,
            monomorphize: 0,
            ct_eval: 0,
            bta: 0,
            residualize: 0,
        }
    }

    /// No step took longer than can be told.
    pub open spec fn within(self) -> bool {
        &&& self.parse <= MAX_NANOS
        &&& self.lower <= MAX_NANOS
        &&& self.typecheck <= MAX_NANOS
        &&& self.monomorphize <= MAX_NANOS
        &&& self.ct_eval <= MAX_NANOS
        &&& self.bta <= MAX_NANOS
        &&& self.residualize <= MAX_NANOS
    }

    /// The time of all steps together, before it is capped.
    pub open spec fn whole(self) -> nat {
        (self.parse + self.lower + self.typecheck + self.monomorphize + self.ct_eval + self.bta
            + self.residualize) as nat
    }

    /// The time of all steps together.
    pub fn total(self) -> (time: u128)
        requires
            self.within(),
        ensures
            time == if self.whole() > MAX_NANOS {
                MAX_NANOS as nat
            } else {
                self.whole()
            },
    {
        let time = add_times(self.parse, self.lower);
        let time = add_times(time, self.typecheck);
        let time = add_times(time, self.monomorphize);
        let time = add_times(time, self.ct_eval);
        let time = add_times(time, self.bta);
        add_times(time, self.residualize)
    }

    /// Adds other times, step by step.
    pub fn saturating_add_assign(&mut self, other: Self)
        requires
            old(self).within(),
            other.within(),
        ensures
            final(self).within(),
            final(self).parse == sum(old(self).parse as nat, other.parse as nat),
            final(self).lower == sum(old(self).lower as nat, other.lower as nat),
            final(self).typecheck == sum(old(self).typecheck as nat, other.typecheck as nat),
            final(self).monomorphize == sum(
                old(self).monomorphize as nat,
                other.monomorphize as nat,
            ),
            final(self).ct_eval == sum(old(self).ct_eval as nat, other.ct_eval as nat),
            final(self).bta == sum(old(self).bta as nat, other.bta as nat),
            final(self).residualize == sum(old(self).residualize as nat, other.residualize as nat),
    {
        self.parse = add_times(self.parse, other.parse);
        self.lower = add_times(self.lower, other.lower);
        self.typecheck = add_times(self.typecheck, other.typecheck);
        self.monomorphize = add_times(self.monomorphize, other.monomorphize);
        self.ct_eval = add_times(self.ct_eval, other.ct_eval);
        self.bta = add_times(self.bta, other.bta);
        self.residualize = add_times(self.residualize, other.residualize);
    }

    /// The times of one of so many runs; nothing where there was none.
    pub fn per_iteration(self, iterations: u32) -> (one: Self)
        ensures
            iterations == 0 ==> one == V0PipelineTimings::none(),
            iterations > 0 ==> one == (V0PipelineTimings {
                parse: self.parse / iterations as u128,
                lower: self.lower / iterations as u128,
                typecheck: self.typecheck / iterations as u128,
                monomorphize: self.monomorphize / iterations as u128,
                ct_eval: self.ct_eval / iterations as u128,
                bta: self.bta / iterations as u128,
                residualize: self.residualize / iterations as u128,
            }),
    {
        if iterations == 0 {
            return V0PipelineTimings::default();
        }
        let n = iterations as u128;
        V0PipelineTimings {
            parse: self.parse / n,
            lower: self.lower / n,
            typecheck: self.typecheck / n,
            monomorphize: self.monomorphize / n,
            ct_eval: self.ct_eval / n,
            bta: self.bta / n,
            residualize: self.residualize / n,
        }
    }
}

/// Splitting the sum of runs evenly never gives a longer time than there was.
pub proof fn lemma_per_iteration(time: u128, iterations: u32)
    requires
        iterations > 0,
    ensures
        time / iterations as u128 * iterations as u128 <= time,
{
    let n = iterations as int;
    let t = time as int;
    assert((t / n) * n <= t) by (nonlinear_arith)
        requires
            n > 0,
            t >= 0,
    ;
}

} // verus!
