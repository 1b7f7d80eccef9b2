use vstd::prelude::*;

use crate::selection::Round;

verus! {

/// The most nodes that one group of the measurement engine holds.
pub const BATCH_SIZE: usize = 200;

/// Rounds run first and thrown away, to absorb connection setup.
pub const WARMUP_ROUNDS: usize = 2;

/// Rounds whose results are kept.
pub const MEASURED_ROUNDS: usize = 10;

/// The batches one after another.
pub open spec fn concat_batches<T>(bs: Seq<Vec<T>>) -> Seq<T>
    decreases bs.len(),
{
    if bs.len() == 0 {
        seq![]
    } else {
        concat_batches(bs.drop_last()) + bs.last()@
    }
}

pub open spec fn ceil_div(n: int, d: int) -> int {
    (n + d - 1) / d
}

/// Splits `items` into batches of `size` in order; only the last may be shorter.
pub fn split_batches<T>(items: Vec<T>, size: usize) -> (r: Vec<Vec<T>>)
    requires
        size > 0,
    ensures
        concat_batches(r@) == items@,
        r@.len() == ceil_div(items@.len() as int, size as int),
        forall|b: int| 0 <= b < r@.len() ==> 0 < (#[trigger] r@[b])@.len() <= size,
        forall|b: int| 0 <= b < r@.len() - 1 ==> (#[trigger] r@[b])@.len() == size,
{
    let ghost all = items@;
    let mut batches: Vec<Vec<T>> = Vec::new();
    let mut rest = items;
    let ghost mut done: int = 0;
    while rest.len() > 0
        invariant
            size > 0,
            all == items@,
            done + rest@.len() == all.len(),
            concat_batches(batches@) + rest@ == all,
            batches@.len() * size == done,
            forall|b: int| 0 <= b < batches@.len() ==> (#[trigger] batches@[b])@.len() == size,
        decreases rest@.len(),
    {
        let take = if rest.len() < size {
            rest.len()
        } else {
            size
        };
        let tail = rest.split_off(take);
        let ghost pre = batches@;
        let ghost chunk = rest@;
        let full = take == size;
        batches.push(rest);
        rest = tail;
        proof {
            assert(batches@.drop_last() =~= pre);
            assert(concat_batches(batches@) == concat_batches(pre) + chunk);
            assert(concat_batches(batches@) + rest@ =~= concat_batches(pre) + (chunk + rest@));
        }
        if !full {
            assert(rest@.len() == 0);
            proof {
                assert(concat_batches(batches@) =~= concat_batches(batches@) + rest@);
                assert(all.len() == pre.len() * size + chunk.len());
                assert(batches@.len() * size == (pre.len() + 1) * size) by (nonlinear_arith)
                    requires batches@.len() == pre.len() + 1;
                assert((pre.len() + 1) * size == pre.len() * size + size) by (nonlinear_arith);
                lemma_last_partial(pre.len() as int, size as int, chunk.len() as int);
                assert forall|b: int| 0 <= b < batches@.len() implies 0 < (#[trigger] batches@[b])@.len() <= size by {
                    if b < pre.len() {
                        assert(batches@[b] == pre[b]);
                    }
                }
            }
            return batches;
        }
        proof {
            assert((pre.len() + 1) * size == pre.len() * size + size) by (nonlinear_arith);
            assert forall|b: int| 0 <= b < batches@.len() implies (#[trigger] batches@[b])@.len() == size by {
                if b < pre.len() {
                    assert(batches@[b] == pre[b]);
                }
            }
        }
        proof {
            done = done + take;
        }
    }
    proof {
        lemma_exact(batches@.len() as int, size as int);
        assert(concat_batches(batches@) + rest@ =~= concat_batches(batches@));
    }
    batches
}

proof fn lemma_exact(k: int, d: int)
    requires
        k >= 0,
        d > 0,
    ensures
        ceil_div(k * d, d) == k,
{
    assert((k * d + d - 1) / d == k) by (nonlinear_arith)
        requires
            k >= 0,
            d > 0,
    {
        assert(k * d <= k * d + d - 1 < (k + 1) * d) by (nonlinear_arith)
            requires
                d > 0,
        ;
        vstd::arithmetic::div_mod::lemma_div_is_ordered(k * d, k * d + d - 1, d);
    }
}

proof fn lemma_last_partial(k: int, d: int, c: int)
    requires
        k >= 0,
        0 < c < d,
    ensures
        ceil_div(k * d + c, d) == k + 1,
{
    let n = k * d + c + d - 1;
    assert((k + 1) * d == k * d + d) by (nonlinear_arith);
    assert((k + 2) * d == k * d + d + d) by (nonlinear_arith);
    vstd::arithmetic::div_mod::lemma_fundamental_div_mod_converse(n, d, k + 1, n - (k + 1) * d);
}

/// The steps of measuring one group: warm-up rounds, then measured rounds.
#[derive(Clone, Copy, Debug, PartialEq, Eq, Structural)]
pub enum Step {
    WarmUp,
    Measure,
    Finished,
}

pub open spec fn step_for(done: nat) -> Step {
    if done < WARMUP_ROUNDS {
        Step::WarmUp
    } else if done < WARMUP_ROUNDS + MEASURED_ROUNDS {
        Step::Measure
    } else {
        Step::Finished
    }
}

/// Progress of the measurement of one group. The caller runs each step that
/// `next_step` names against the engine and hands back what the round gave.
pub struct RoundPlan {
    pub rounds_done: usize,
    pub results: Vec<Round>,
}

impl RoundPlan {
    pub open spec fn wf(&self) -> bool {
        &&& self.rounds_done <= WARMUP_ROUNDS + MEASURED_ROUNDS
        &&& self.results@.len() <= if self.rounds_done <= WARMUP_ROUNDS {
            0
        } else {
            self.rounds_done - WARMUP_ROUNDS
        }
    }

    pub fn new() -> (r: RoundPlan)
        ensures
            r.wf(),
            r.rounds_done == 0,
            r.results@.len() == 0,
    {
        RoundPlan { rounds_done: 0, results: Vec::new() }
    }

    /// What to do next.
    pub fn next_step(&self) -> (r: Step)
        ensures
            r == step_for(self.rounds_done as nat),
    {
        if self.rounds_done < WARMUP_ROUNDS {
            Step::WarmUp
        } else if self.rounds_done < WARMUP_ROUNDS + MEASURED_ROUNDS {
            Step::Measure
        } else {
            Step::Finished
        }
    }

    /// Takes the outcome of the step just run: `None` when the engine failed, which
    /// counts as a round in which no node answered. Warm-up results are dropped.
    pub fn record(&mut self, outcome: Option<Round>)
        requires
            old(self).wf(),
            old(self).rounds_done < WARMUP_ROUNDS + MEASURED_ROUNDS,
        ensures
            final(self).wf(),
            final(self).rounds_done == old(self).rounds_done + 1,
            final(self).results@ == if old(self).rounds_done >= WARMUP_ROUNDS && outcome is Some {
                old(self).results@.push(outcome->Some_0)
            } else {
                old(self).results@
            },
    {
        if self.rounds_done >= WARMUP_ROUNDS {
            match outcome {
                Some(round) => self.results.push(round),
                None => {},
            }
        }
        self.rounds_done = self.rounds_done + 1;
    }
}

/// Measured results hold at most one map per measured round.
pub proof fn lemma_results_bounded(p: RoundPlan)
    requires
        p.wf(),
    ensures
        p.results@.len() <= MEASURED_ROUNDS,
{
}

} // verus!
