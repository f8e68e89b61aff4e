//! The pipeline substrate as state machines: the two-phase input port that
//! gives at-least-once delivery, and the supervision decisions around a
//! stage's bootstrap and work steps.
use vstd::prelude::*;

verus! {

/// The consumer's side of a FIFO stream whose messages are numbered from 0.
/// Messages before `committed` are acknowledged; `in_flight` is the message
/// received and not yet acknowledged; `available` messages have arrived.
#[derive(Clone, Debug, PartialEq, Eq)]
pub struct TwoPhaseInputPort {
    pub available: u64,
    pub committed: u64,
    pub in_flight: Option<u64>,
}

pub struct PortModel {
    pub available: u64,
    pub committed: u64,
    pub in_flight: Option<u64>,
}

impl View for TwoPhaseInputPort {
    type V = PortModel;

    open spec fn view(&self) -> PortModel {
        PortModel { available: self.available, committed: self.committed, in_flight: self.in_flight }
    }
}

impl PortModel {
    /// At most one message in flight, and it is the first unacknowledged one.
    pub open spec fn wf(self) -> bool {
        &&& self.committed <= self.available
        &&& self.in_flight matches Some(n) ==> n == self.committed && self.committed < self.available
    }

    /// Receiving: the first unacknowledged message, or idle where none has
    /// arrived.
    pub open spec fn recv(self) -> (Self, Option<u64>) {
        if self.committed < self.available {
            (PortModel { in_flight: Some(self.committed), ..self }, Some(self.committed))
        } else {
            (self, None)
        }
    }

    pub open spec fn commit(self) -> Self {
        PortModel { committed: (self.committed + 1) as u64, in_flight: None, ..self }
    }

    /// A restart forgets the message in flight; it is received again.
    pub open spec fn restart(self) -> Self {
        PortModel { in_flight: None, ..self }
    }
}

impl TwoPhaseInputPort {
    pub fn new() -> (r: TwoPhaseInputPort)
        ensures
            r@ == (PortModel { available: 0, committed: 0, in_flight: None }),
    {
        TwoPhaseInputPort { available: 0, committed: 0, in_flight: None }
    }

    /// Records the arrival of the next message; `false` where the counter
    /// is exhausted.
    pub fn offer(&mut self) -> (r: bool)
        ensures
            r == (old(self).available < u64::MAX),
            final(self)@ == if r {
                PortModel { available: (old(self).available + 1) as u64, ..old(self)@ }
            } else {
                old(self)@
            },
    {
        if self.available < u64::MAX {
            self.available = self.available + 1;
            true
        } else {
            false
        }
    }

    pub fn recv_or_idle(&mut self) -> (r: Option<u64>)
        requires
            old(self)@.wf(),
            old(self).in_flight is None,
        ensures
            (final(self)@, r) == old(self)@.recv(),
            final(self)@.wf(),
    {
        if self.committed < self.available {
            self.in_flight = Some(self.committed);
            Some(self.committed)
        } else {
            None
        }
    }

    pub fn commit(&mut self)
        requires
            old(self)@.wf(),
            old(self).in_flight is Some,
        ensures
            final(self)@ == old(self)@.commit(),
            final(self)@.wf(),
    {
        self.committed = self.committed + 1;
        self.in_flight = None;
    }

    pub fn restart(&mut self)
        requires
            old(self)@.wf(),
        ensures
            final(self)@ == old(self)@.restart(),
            final(self)@.wf(),
    {
        self.in_flight = None;
    }
}

/// After a restart the message that was in flight is received again.
pub proof fn lemma_redelivery(p: PortModel)
    requires
        p.wf(),
        p.in_flight is None,
        p.committed < p.available,
    ensures
        p.recv().0.restart().recv().1 == p.recv().1,
        p.recv().1 == Some(p.committed),
{
}

/// Retries with exponential backoff: the `n`-th retry waits
/// `backoff_unit * backoff_factor^n` milliseconds, at most `max_backoff`.
#[derive(Clone, Debug, PartialEq, Eq)]
pub struct RetryPolicy {
    pub max_retries: u32,
    pub backoff_unit: u64,
    pub backoff_factor: u64,
    pub max_backoff: u64,
}

pub open spec fn pow(b: int, n: nat) -> int
    decreases n,
{
    if n == 0 {
        1
    } else {
        b * pow(b, (n - 1) as nat)
    }
}

pub open spec fn min(a: int, b: int) -> int {
    if a <= b {
        a
    } else {
        b
    }
}

impl RetryPolicy {
    pub open spec fn backoff_spec(self, attempt: nat) -> int {
        min(self.backoff_unit * pow(self.backoff_factor as int, attempt), self.max_backoff as int)
    }

    /// The wait before retry number `attempt` (from 0), in milliseconds.
    pub fn backoff(&self, attempt: u32) -> (r: u64)
        ensures
            r == self.backoff_spec(attempt as nat),
    {
        let mut delay: u64 = self.backoff_unit;
        if attempt == 0 {
            return if delay < self.max_backoff {
                delay
            } else {
                self.max_backoff
            };
        }
        if self.backoff_factor == 0 {
            proof {
                lemma_zero_factor(*self, 1, attempt as nat);
            }
            return 0;
        }
        if delay >= self.max_backoff {
            proof {
                lemma_capped_stays(*self, 0, attempt as nat);
            }
            return self.max_backoff;
        }
        let mut i: u32 = 0;
        while i < attempt
            invariant
                self.backoff_factor >= 1,
                i <= attempt,
                delay as int == self.backoff_unit * pow(self.backoff_factor as int, i as nat),
                delay < self.max_backoff,
            decreases attempt - i,
        {
            proof {
                lemma_pow_nonneg(self.backoff_factor as int, i as nat);
                assert(delay * self.backoff_factor == self.backoff_unit * pow(self.backoff_factor as int, (i + 1) as nat)) by (nonlinear_arith)
                    requires
                        delay as int == self.backoff_unit * pow(self.backoff_factor as int, i as nat),
                        pow(self.backoff_factor as int, (i + 1) as nat) == self.backoff_factor * pow(self.backoff_factor as int, i as nat),
                ;
            }
            match delay.checked_mul(self.backoff_factor) {
                Some(d) if d < self.max_backoff => {
                    delay = d;
                },
                _ => {
                    proof {
                        lemma_capped_stays(*self, (i + 1) as nat, attempt as nat);
                    }
                    return self.max_backoff;
                },
            }
            i = i + 1;
        }
        delay
    }

    /// Whether another attempt follows `attempts` failed ones.
    pub fn should_retry(&self, attempts: u32) -> (r: bool)
        ensures
            r == (attempts < self.max_retries),
    {
        attempts < self.max_retries
    }
}

proof fn lemma_pow_nonneg(b: int, n: nat)
    requires
        b >= 0,
    ensures
        pow(b, n) >= 0,
    decreases n,
{
    if n > 0 {
        lemma_pow_nonneg(b, (n - 1) as nat);
        assert(b * pow(b, (n - 1) as nat) >= 0) by (nonlinear_arith)
            requires
                b >= 0,
                pow(b, (n - 1) as nat) >= 0,
        ;
    }
}

/// Once the uncapped delay reaches the cap it stays there.
proof fn lemma_capped_stays(p: RetryPolicy, i: nat, n: nat)
    requires
        i <= n,
        p.backoff_factor >= 1,
        p.backoff_unit * pow(p.backoff_factor as int, i) >= p.max_backoff,
    ensures
        p.backoff_spec(n) == p.max_backoff,
    decreases n - i,
{
    if i < n {
        lemma_pow_nonneg(p.backoff_factor as int, i);
        let a = p.backoff_unit * pow(p.backoff_factor as int, i);
        assert(p.backoff_unit * pow(p.backoff_factor as int, (i + 1) as nat) >= a) by (nonlinear_arith)
            requires
                a == p.backoff_unit * pow(p.backoff_factor as int, i),
                pow(p.backoff_factor as int, (i + 1) as nat) == p.backoff_factor * pow(p.backoff_factor as int, i),
                p.backoff_factor >= 1,
                pow(p.backoff_factor as int, i) >= 0,
                p.backoff_unit >= 0,
        ;
        lemma_capped_stays(p, (i + 1) as nat, n);
    }
}

proof fn lemma_zero_factor(p: RetryPolicy, i: nat, n: nat)
    requires
        p.backoff_factor == 0,
        1 <= i,
    ensures
        i <= n ==> p.backoff_spec(n) == 0,
    decreases n,
{
    if i <= n {
        assert(pow(0, n) == 0 * pow(0, (n - 1) as nat));
        assert(p.backoff_unit * 0 == 0);
    }
}

/// How a failed work step is classified.
#[derive(Clone, Copy, Debug, PartialEq, Eq, Structural)]
pub enum ErrorClass {
    /// Transient (I/O): the stage restarts and the message in flight is
    /// delivered again.
    Restart,
    /// A broken invariant: the pipeline stops.
    Panic,
}

/// What the supervisor does next with a stage.
#[derive(Clone, Copy, Debug, PartialEq, Eq, Structural)]
pub enum Action {
    /// Run the next work step.
    Work,
    /// Run bootstrap again after waiting this many milliseconds.
    RetryBootstrap(u64),
    /// Restart the stage: forget the message in flight and work again.
    Restart,
    /// Stop the pipeline.
    Stop,
}

/// The supervisor's decision after bootstrap attempt number `attempt` (from
/// 0) ended, well or not.
pub fn after_bootstrap(policy: &RetryPolicy, attempt: u32, ok: bool) -> (r: Action)
    ensures
        ok ==> r == Action::Work,
        !ok && attempt < policy.max_retries ==> r == Action::RetryBootstrap(
            policy.backoff_spec(attempt as nat) as u64,
        ),
        !ok && attempt >= policy.max_retries ==> r == Action::Stop,
{
    if ok {
        Action::Work
    } else if policy.should_retry(attempt) {
        Action::RetryBootstrap(policy.backoff(attempt))
    } else {
        Action::Stop
    }
}

/// The supervisor's decision after a work step: go on, restart on a
/// transient error, stop on a broken invariant.
pub fn after_work(outcome: Option<ErrorClass>) -> (r: Action)
    ensures
        r == match outcome {
            None => Action::Work,
            Some(ErrorClass::Restart) => Action::Restart,
            Some(ErrorClass::Panic) => Action::Stop,
        },
{
    match outcome {
        None => Action::Work,
        Some(ErrorClass::Restart) => Action::Restart,
        Some(ErrorClass::Panic) => Action::Stop,
    }
}

} // verus!
