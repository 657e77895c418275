//! Resume actions, stop reasons, the two-tier failure model, and the
//! cooperative interrupt source.

use vstd::prelude::*;

verus! {

/// How the target should be resumed.
#[derive(Clone, Copy, PartialEq, Eq, Structural, Debug)]
pub enum ResumeAction {
    /// Execute exactly one instruction, then stop.
    SingleStep,
    /// Deliver the given signal, then execute exactly one instruction.
    SingleStepWithSignal(u8),
    /// Run until the target stops on its own or an interrupt is requested.
    Continue,
    /// Deliver the given signal, then run.
    ContinueWithSignal(u8),
}

/// Why execution halted.
///
/// This crate enumerates its stop reasons explicitly: the five baseline
/// reasons, plus `Interrupted`, the interrupt-class extension reported when
/// the cooperative interrupt callback requests a stop.
#[derive(Clone, Copy, PartialEq, Eq, Structural, Debug)]
pub enum StopReason {
    /// A single step finished without hitting a breakpoint.
    StepCompleted,
    /// A delivered signal was caught and raised back to the debugger.
    SignalDelivered(u8),
    /// Execution reached a breakpoint address; the reported program counter
    /// points at the breakpoint instruction itself (PC adjustment is the
    /// resume implementation's responsibility, and this crate's controller
    /// performs it).
    BreakpointHit,
    /// An externally requested interrupt ended the running phase.
    Interrupted,
    /// The debuggee exited with the given code.
    Exited(u8),
    /// The debuggee was terminated by the given signal.
    Terminated(u8),
}

/// An unrecoverable target failure: the debugging session must be torn
/// down, never retried. Contrast with a `false` result from a memory
/// access, which is non-fatal and leaves the session usable.
#[derive(Clone, Copy, PartialEq, Eq, Structural, Debug)]
pub enum FatalTargetError {
    /// The underlying connection to the target is severed.
    ConnectionLost,
    /// The debuggee is gone (it exited or was terminated); nothing is left
    /// to resume.
    TargetGone,
}

/// The controller's execution state between calls: transitions are driven
/// exclusively by `resume`, which takes `Idle` or `Stopped` through the
/// running phase back to `Stopped`. The running phase only exists while a
/// `resume` call is in flight, so it is never observable here.
#[derive(Clone, Copy, PartialEq, Eq, Structural, Debug)]
pub enum SessionState {
    /// No `resume` call has been made yet.
    Idle,
    /// A `resume` call has completed.
    Stopped,
}

/// What delivering a signal does to the modelled debuggee.
#[derive(Clone, Copy, PartialEq, Eq, Structural, Debug)]
pub enum SignalDisposition {
    /// The signal has no effect; execution proceeds.
    Ignored,
    /// The debuggee's handler raises the signal straight back to the
    /// debugger; execution stops where it stands.
    Caught,
    /// The signal terminates the debuggee.
    Fatal,
}

/// The cooperative cancellation mechanism: an injected predicate the
/// execution loop polls at points of its own choosing to learn whether an
/// external interrupt (e.g. the operator pressed a break key) was requested.
///
/// The source is modelled by the predetermined answer it gives to each poll:
/// `answer_at(i)` is the answer to poll number `i`, counted from the first
/// poll ever made on the source, and `polled()` is how many polls have been
/// made so far. The answers never change; polling only advances the count.
pub trait InterruptSource {
    /// Well-formedness of the source.
    spec fn inv(&self) -> bool;

    /// The answer the source gives to poll number `i` (0-based, over the
    /// source's whole lifetime).
    spec fn answer_at(&self, i: nat) -> bool;

    /// How many polls have been made so far.
    spec fn polled(&self) -> nat;

    /// Poll once: report whether an interrupt is requested.
    fn check_interrupt(&mut self) -> (r: bool)
        requires
            old(self).inv(),
        ensures
            final(self).inv(),
            final(self).polled() == old(self).polled() + 1,
            r == old(self).answer_at(old(self).polled()),
            forall|i: nat| final(self).answer_at(i) == old(self).answer_at(i),
    ;
}

/// An interrupt source that never requests an interrupt.
pub struct NeverInterrupt {
    polls: Ghost<nat>,
}

impl NeverInterrupt {
    /// A fresh source; no polls made yet.
    pub fn new() -> (r: Self)
        ensures
            r.inv(),
            r.polled() == 0,
            forall|i: nat| !r.answer_at(i),
    {
        NeverInterrupt { polls: Ghost(0nat) }
    }
}

impl InterruptSource for NeverInterrupt {
    closed spec fn inv(&self) -> bool {
        true
    }

    closed spec fn answer_at(&self, i: nat) -> bool {
        false
    }

    closed spec fn polled(&self) -> nat {
        self.polls@
    }

    fn check_interrupt(&mut self) -> (r: bool) {
        proof {
            self.polls@ = self.polls@ + 1;
        }
        false
    }
}

/// An interrupt source that requests an interrupt on one predetermined
/// poll: the `n`-th poll (1-based) counted from its construction, and on no
/// other.
pub struct CountdownInterrupt {
    /// Polls left before the interrupt fires; `0` means it never will (any
    /// more).
    remaining: u64,
    polls: Ghost<nat>,
    fired_at: Ghost<Option<nat>>,
}

impl CountdownInterrupt {
    /// A source that answers `true` on its `n`-th poll (1-based) and
    /// `false` on every other; with `n == 0` it never answers `true`.
    pub fn new(n: u64) -> (r: Self)
        ensures
            r.inv(),
            r.polled() == 0,
            forall|i: nat| r.answer_at(i) <==> (n > 0 && i + 1 == n),
    {
        CountdownInterrupt { remaining: n, polls: Ghost(0nat), fired_at: Ghost(None) }
    }
}

impl InterruptSource for CountdownInterrupt {
    closed spec fn inv(&self) -> bool {
        &&& (self.remaining > 0 ==> self.fired_at@ is None)
        &&& (self.fired_at@ matches Some(k) ==> k < self.polls@)
    }

    closed spec fn answer_at(&self, i: nat) -> bool {
        if i < self.polls@ {
            self.fired_at@ == Some(i)
        } else {
            self.remaining > 0 && i + 1 == self.polls@ + self.remaining
        }
    }

    closed spec fn polled(&self) -> nat {
        self.polls@
    }

    fn check_interrupt(&mut self) -> (r: bool) {
        let fired = self.remaining == 1;
        if self.remaining > 0 {
            self.remaining = self.remaining - 1;
        }
        proof {
            if fired {
                self.fired_at@ = Some(self.polls@);
            }
            self.polls@ = self.polls@ + 1;
        }
        fired
    }
}

} // verus!
