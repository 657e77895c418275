//! A verified execution controller over a modelled single-threaded target.
//!
//! The controller drives a small cooperative machine: a program counter that
//! advances by one four-byte instruction per step until it reaches a
//! configured exit address, a set of breakpoint addresses, a register file,
//! and a memory of disjoint mapped regions, some of them read-only. It
//! realizes the resume/step/interrupt state machine: `resume` takes the
//! session from `Idle` or `Stopped` through the running phase back to
//! `Stopped`, polling the injected interrupt source once per step.
//!
//! Failures are two-tier: a fatal target error (connection severed, or no
//! live debuggee) tears the session down; an inaccessible memory range is
//! reported as a `false` result and leaves the session fully usable.

use vstd::prelude::*;

use crate::arch::Registers;
use crate::control::{
    FatalTargetError, InterruptSource, ResumeAction, SessionState, SignalDisposition, StopReason,
};
use crate::simple32::Simple32Regs;

verus! {

/// One contiguous mapped range of the modelled target's memory.
struct Region {
    base: u32,
    writable: bool,
    data: Vec<u8>,
}

/// A region lies within the 32-bit address space.
spec fn rg_wf(r: Region) -> bool {
    r.base + r.data@.len() <= 0x1_0000_0000
}

/// Two regions share no address (empty regions never overlap anything).
spec fn rg_no_overlap(a: Region, b: Region) -> bool {
    ||| a.data@.len() == 0
    ||| b.data@.len() == 0
    ||| a.base + a.data@.len() <= b.base
    ||| b.base + b.data@.len() <= a.base
}

spec fn regions_wf(rs: Seq<Region>) -> bool {
    &&& forall|j: int| 0 <= j < rs.len() ==> rg_wf(#[trigger] rs[j])
    &&& forall|j: int, k: int|
        0 <= j < rs.len() && 0 <= k < rs.len() && j != k ==> rg_no_overlap(
            #[trigger] rs[j],
            #[trigger] rs[k],
        )
}

/// Address `a` lies in region `r`.
spec fn in_rg(r: Region, a: int) -> bool {
    r.base <= a < r.base + r.data@.len()
}

/// The whole range `[s, s + l)` lies in region `r`.
spec fn range_in_rg(r: Region, s: int, l: int) -> bool {
    r.base <= s && s + l <= r.base + r.data@.len()
}

/// A range is accessible when it is empty or lies wholly within one region.
spec fn mem_accessible(rs: Seq<Region>, s: int, l: int) -> bool {
    l <= 0 || exists|j: int| 0 <= j < rs.len() && range_in_rg(#[trigger] rs[j], s, l)
}

/// A range is writable when it is empty or lies wholly within one writable
/// region.
spec fn mem_writable(rs: Seq<Region>, s: int, l: int) -> bool {
    l <= 0 || exists|j: int|
        0 <= j < rs.len() && range_in_rg(#[trigger] rs[j], s, l) && rs[j].writable
}

spec fn mem_mapped(rs: Seq<Region>, a: int) -> bool {
    exists|j: int| 0 <= j < rs.len() && in_rg(#[trigger] rs[j], a)
}

spec fn mem_byte(rs: Seq<Region>, a: int) -> u8 {
    let j = choose|j: int| 0 <= j < rs.len() && in_rg(#[trigger] rs[j], a);
    rs[j].data@[a - rs[j].base]
}

/// With disjoint regions the region holding an address is unique, so the
/// byte at a mapped address is the byte of whichever region contains it.
proof fn lemma_mem_byte_at(rs: Seq<Region>, j: int, a: int)
    requires
        regions_wf(rs),
        0 <= j < rs.len(),
        in_rg(rs[j], a),
    ensures
        mem_mapped(rs, a),
        mem_byte(rs, a) == rs[j].data@[a - rs[j].base],
{
    assert(mem_mapped(rs, a));
    let k = choose|k: int| 0 <= k < rs.len() && in_rg(#[trigger] rs[k], a);
    if k != j {
        assert(rg_no_overlap(rs[j], rs[k]));
        assert(false);
    }
}

/// On a four-byte-aligned program counter strictly below an aligned exit
/// address, one more instruction still fits.
proof fn lemma_aligned_step(pc: u32, exit: u32)
    requires
        pc % 4 == 0,
        exit % 4 == 0,
        pc < exit,
    ensures
        pc + 4 <= exit,
{
    vstd::arithmetic::div_mod::lemma_fundamental_div_mod(pc as int, 4);
    vstd::arithmetic::div_mod::lemma_fundamental_div_mod(exit as int, 4);
    assert(pc as int == 4 * ((pc as int) / 4));
    assert(exit as int == 4 * ((exit as int) / 4));
    assert((pc as int) / 4 < (exit as int) / 4);
}

/// The outcome of executing one instruction from `pc`: the stop reason and
/// the new program counter. Reaching the exit address reports `Exited`;
/// otherwise the counter advances by one instruction and the step reports
/// `BreakpointHit` exactly when it lands on a breakpoint address — with the
/// reported counter already rolled back to (i.e. resting on) the breakpoint
/// address itself — and `StepCompleted` on every other address.
pub open spec fn step_once(pc: u32, exit: u32, code: u8, bps: Seq<u32>) -> (StopReason, u32) {
    if pc == exit {
        (StopReason::Exited(code), pc)
    } else if bps.contains((pc + 4) as u32) {
        (StopReason::BreakpointHit, (pc + 4) as u32)
    } else {
        (StopReason::StepCompleted, (pc + 4) as u32)
    }
}

/// The outcome of a full `Continue` from `pc`, polling the interrupt source
/// once per step starting at poll number `i`: the stop reason, the final
/// program counter, and the poll count afterwards. A poll answered `true`
/// ends the run immediately, before the next instruction; otherwise the run
/// ends at the exit address or on the first breakpoint address reached.
pub open spec fn continue_run<I: InterruptSource>(
    pc: u32,
    exit: u32,
    code: u8,
    bps: Seq<u32>,
    intr: I,
    i: nat,
) -> (StopReason, u32, nat)
    decreases exit - pc,
    when pc <= exit && pc % 4 == 0 && exit % 4 == 0
    via continue_run_decreases::<I>
{
    if intr.answer_at(i) {
        (StopReason::Interrupted, pc, (i + 1) as nat)
    } else if pc == exit {
        (StopReason::Exited(code), pc, (i + 1) as nat)
    } else if bps.contains((pc + 4) as u32) {
        (StopReason::BreakpointHit, (pc + 4) as u32, (i + 1) as nat)
    } else {
        continue_run((pc + 4) as u32, exit, code, bps, intr, (i + 1) as nat)
    }
}

#[via_fn]
proof fn continue_run_decreases<I: InterruptSource>(
    pc: u32,
    exit: u32,
    code: u8,
    bps: Seq<u32>,
    intr: I,
    i: nat,
) {
    if !intr.answer_at(i) && pc != exit {
        lemma_aligned_step(pc, exit);
    }
}

/// Interrupt responsiveness: an interrupt pending at a poll point ends a
/// continue right there — the run stops with the interrupt-class reason
/// before executing anything further, whether or not the debuggee was at a
/// natural stopping point.
pub proof fn lemma_interrupt_responsive<I: InterruptSource>(
    pc: u32,
    exit: u32,
    code: u8,
    bps: Seq<u32>,
    intr: I,
    i: nat,
)
    requires
        pc <= exit,
        pc % 4 == 0,
        exit % 4 == 0,
        intr.answer_at(i),
    ensures
        continue_run(pc, exit, code, bps, intr, i) == (StopReason::Interrupted, pc, (i + 1) as nat),
{
}

/// Conversely, a continue whose polls all answer `false` never reports an
/// interrupt: it runs to a breakpoint or to the exit.
pub proof fn lemma_no_interrupt_no_interrupted<I: InterruptSource>(
    pc: u32,
    exit: u32,
    code: u8,
    bps: Seq<u32>,
    intr: I,
    i: nat,
)
    requires
        pc <= exit,
        pc % 4 == 0,
        exit % 4 == 0,
        forall|k: nat| k >= i ==> !intr.answer_at(k),
    ensures
        !(continue_run(pc, exit, code, bps, intr, i).0 is Interrupted),
        continue_run(pc, exit, code, bps, intr, i).0 is Exited || continue_run(
            pc,
            exit,
            code,
            bps,
            intr,
            i,
        ).0 is BreakpointHit,
    decreases exit - pc,
{
    assert(!intr.answer_at(i));
    if pc != exit {
        lemma_aligned_step(pc, exit);
        if !bps.contains((pc + 4) as u32) {
            lemma_no_interrupt_no_interrupted(
                (pc + 4) as u32,
                exit,
                code,
                bps,
                intr,
                (i + 1) as nat,
            );
        }
    }
}

/// A verified execution controller for the modelled target.
pub struct Controller {
    connected: bool,
    alive: bool,
    session: SessionState,
    pc: u32,
    exit_addr: u32,
    exit_code: u8,
    regs: Simple32Regs,
    breakpoints: Vec<u32>,
    regions: Vec<Region>,
    ignored_signals: Vec<u8>,
    caught_signals: Vec<u8>,
}

impl Controller {
    /// The connection to the target is up.
    pub closed spec fn connected(&self) -> bool {
        self.connected
    }

    /// The debuggee is still there to resume (it has not exited or been
    /// terminated).
    pub closed spec fn alive(&self) -> bool {
        self.alive
    }

    /// The session state between calls.
    pub closed spec fn session(&self) -> SessionState {
        self.session
    }

    /// The current program counter.
    pub closed spec fn pc(&self) -> u32 {
        self.pc
    }

    /// The address at which the modelled debuggee exits.
    pub closed spec fn exit_addr(&self) -> u32 {
        self.exit_addr
    }

    /// The exit code it exits with.
    pub closed spec fn exit_code(&self) -> u8 {
        self.exit_code
    }

    /// The target's register file.
    pub closed spec fn regs_file(&self) -> Seq<Option<u32>> {
        self.regs@
    }

    /// The configured breakpoint addresses.
    pub closed spec fn bps(&self) -> Seq<u32> {
        self.breakpoints@
    }

    /// A breakpoint is set at `a`.
    pub open spec fn bp_at(&self, a: u32) -> bool {
        self.bps().contains(a)
    }

    /// The range `[s, s + l)` can be accessed.
    pub closed spec fn accessible(&self, s: int, l: int) -> bool {
        mem_accessible(self.regions@, s, l)
    }

    /// The range `[s, s + l)` can be written.
    pub closed spec fn writable_range(&self, s: int, l: int) -> bool {
        mem_writable(self.regions@, s, l)
    }

    /// Address `a` is mapped.
    pub closed spec fn mapped_at(&self, a: int) -> bool {
        mem_mapped(self.regions@, a)
    }

    /// The byte at mapped address `a`.
    pub closed spec fn byte_at(&self, a: int) -> u8 {
        mem_byte(self.regions@, a)
    }

    /// The modelled debuggee ignores this signal.
    pub closed spec fn signal_ignored(&self, sig: u8) -> bool {
        self.ignored_signals@.contains(sig)
    }

    /// The modelled debuggee catches this signal (unless it ignores it).
    pub closed spec fn signal_caught(&self, sig: u8) -> bool {
        self.caught_signals@.contains(sig)
    }

    /// What delivering a signal does to the modelled debuggee: an ignored
    /// signal has no effect, a caught one is raised straight back to the
    /// debugger, and any other terminates the debuggee.
    pub open spec fn disposition(&self, sig: u8) -> SignalDisposition {
        if self.signal_ignored(sig) {
            SignalDisposition::Ignored
        } else if self.signal_caught(sig) {
            SignalDisposition::Caught
        } else {
            SignalDisposition::Fatal
        }
    }

    /// Well-formedness: aligned program counter at or before the aligned
    /// exit address, a full register file, and disjoint in-bounds regions.
    pub closed spec fn wf(&self) -> bool {
        &&& self.regs.inv()
        &&& self.pc % 4 == 0
        &&& self.exit_addr % 4 == 0
        &&& self.pc <= self.exit_addr
        &&& regions_wf(self.regions@)
    }

    /// What well-formedness exports to a caller: a four-byte-aligned
    /// program counter at or before the aligned exit address, and a full
    /// register file — the facts `continue_run`, `step_once` and the
    /// interrupt lemmas ask for.
    pub proof fn lemma_wf_bounds(&self)
        requires
            self.wf(),
        ensures
            self.pc() % 4 == 0,
            self.exit_addr() % 4 == 0,
            self.pc() <= self.exit_addr(),
            self.regs_file().len() == 16,
    {
    }

    /// A writable range is in particular accessible: a range that is not
    /// even accessible can never be written.
    pub proof fn lemma_writable_accessible(&self, s: int, l: int)
        requires
            self.writable_range(s, l),
        ensures
            self.accessible(s, l),
    {
        if l > 0 {
            let j = choose|j: int|
                0 <= j < self.regions@.len() && range_in_rg(#[trigger] self.regions@[j], s, l)
                    && self.regions@[j].writable;
            assert(range_in_rg(self.regions@[j], s, l));
            assert(mem_accessible(self.regions@, s, l));
        }
    }
}

/// The two controllers expose the same memory: identical accessible and
/// writable ranges, identical mapped addresses, identical bytes.
pub open spec fn same_memory(a: Controller, b: Controller) -> bool {
    &&& forall|s: int, l: int| #[trigger] b.accessible(s, l) == a.accessible(s, l)
    &&& forall|s: int, l: int| #[trigger] b.writable_range(s, l) == a.writable_range(s, l)
    &&& forall|x: int| #[trigger] b.mapped_at(x) == a.mapped_at(x)
    &&& forall|x: int| a.mapped_at(x) ==> #[trigger] b.byte_at(x) == a.byte_at(x)
}

/// The two controllers run the same program: same exit, breakpoints, and
/// signal dispositions.
pub open spec fn same_program(a: Controller, b: Controller) -> bool {
    &&& b.exit_addr() == a.exit_addr()
    &&& b.exit_code() == a.exit_code()
    &&& b.bps() == a.bps()
    &&& forall|s: u8| #[trigger] b.signal_ignored(s) == a.signal_ignored(s)
    &&& forall|s: u8| #[trigger] b.signal_caught(s) == a.signal_caught(s)
}

/// `r` is the result `resume` owes for a single step: the step's stop
/// reason, the stepped program counter, and a debuggee that stays alive
/// except on exit.
pub open spec fn steps_to(pre: Controller, post: Controller, r: Result<
    StopReason,
    FatalTargetError,
>) -> bool {
    let o = step_once(pre.pc(), pre.exit_addr(), pre.exit_code(), pre.bps());
    &&& r == Result::<StopReason, FatalTargetError>::Ok(o.0)
    &&& post.pc() == o.1
    &&& post.alive() == !(o.0 is Exited)
}

/// `r` is the result `resume` owes for a continue: exactly the outcome of
/// `continue_run` from the pre-state, with the source polled exactly as
/// often as the run says.
pub open spec fn continues_to<I: InterruptSource>(
    pre: Controller,
    pre_intr: I,
    post: Controller,
    post_intr: I,
    r: Result<StopReason, FatalTargetError>,
) -> bool {
    let o = continue_run(
        pre.pc(),
        pre.exit_addr(),
        pre.exit_code(),
        pre.bps(),
        pre_intr,
        pre_intr.polled(),
    );
    &&& r == Result::<StopReason, FatalTargetError>::Ok(o.0)
    &&& post.pc() == o.1
    &&& post_intr.polled() == o.2
    &&& post.alive() == !(o.0 is Exited)
}

/// Whether `v` holds `x`.
fn vec_has_u32(v: &Vec<u32>, x: u32) -> (r: bool)
    ensures
        r == v@.contains(x),
{
    let mut j: usize = 0;
    while j < v.len()
        invariant
            j <= v@.len(),
            forall|k: int| 0 <= k < j ==> v@[k] != x,
        decreases v@.len() - j,
    {
        if v[j] == x {
            return true;
        }
        j = j + 1;
    }
    false
}

/// Whether `v` holds `x`.
fn vec_has_u8(v: &Vec<u8>, x: u8) -> (r: bool)
    ensures
        r == v@.contains(x),
{
    let mut j: usize = 0;
    while j < v.len()
        invariant
            j <= v@.len(),
            forall|k: int| 0 <= k < j ==> v@[k] != x,
        decreases v@.len() - j,
    {
        if v[j] == x {
            return true;
        }
        j = j + 1;
    }
    false
}

impl Controller {
    /// A fresh controller for a debuggee about to run from `pc` until
    /// `exit_addr`, connected, alive, with no memory mapped, no breakpoints,
    /// an uncollected register file, and every signal fatal.
    pub fn new(pc: u32, exit_addr: u32, exit_code: u8) -> (r: Controller)
        requires
            pc % 4 == 0,
            exit_addr % 4 == 0,
            pc <= exit_addr,
        ensures
            r.wf(),
            r.connected(),
            r.alive(),
            r.session() == SessionState::Idle,
            r.pc() == pc,
            r.exit_addr() == exit_addr,
            r.exit_code() == exit_code,
            forall|a: u32| !r.bp_at(a),
            forall|s: int, l: int| #[trigger] r.accessible(s, l) <==> l <= 0,
            forall|s: int, l: int| #[trigger] r.writable_range(s, l) <==> l <= 0,
            forall|x: int| !r.mapped_at(x),
            forall|s: u8| !r.signal_ignored(s) && !r.signal_caught(s),
            r.regs_file().len() == 16,
            forall|i: int| 0 <= i < 16 ==> r.regs_file()[i] is None,
    {
        let r = Controller {
            connected: true,
            alive: true,
            session: SessionState::Idle,
            pc,
            exit_addr,
            exit_code,
            regs: Simple32Regs::new_unknown(),
            breakpoints: Vec::new(),
            regions: Vec::new(),
            ignored_signals: Vec::new(),
            caught_signals: Vec::new(),
        };
        proof {
            assert(forall|a: u32| !r.breakpoints@.contains(a));
        }
        r
    }

    /// Sever the connection to the target: every later operation fails
    /// fatally.
    pub fn disconnect(&mut self)
        requires
            old(self).wf(),
        ensures
            final(self).wf(),
            !final(self).connected(),
            final(self).alive() == old(self).alive(),
            final(self).session() == old(self).session(),
            final(self).pc() == old(self).pc(),
            final(self).regs_file() == old(self).regs_file(),
            same_program(*old(self), *final(self)),
            same_memory(*old(self), *final(self)),
    {
        self.connected = false;
    }

    /// Set a breakpoint at `addr`.
    pub fn set_breakpoint(&mut self, addr: u32)
        requires
            old(self).wf(),
        ensures
            final(self).wf(),
            final(self).connected() == old(self).connected(),
            final(self).alive() == old(self).alive(),
            final(self).session() == old(self).session(),
            final(self).pc() == old(self).pc(),
            final(self).exit_addr() == old(self).exit_addr(),
            final(self).exit_code() == old(self).exit_code(),
            final(self).regs_file() == old(self).regs_file(),
            same_memory(*old(self), *final(self)),
            forall|s: u8| #[trigger] final(self).signal_ignored(s) == old(self).signal_ignored(s),
            forall|s: u8| #[trigger] final(self).signal_caught(s) == old(self).signal_caught(s),
            forall|a: u32| #[trigger] final(self).bp_at(a) <==> (old(self).bp_at(a) || a == addr),
    {
        self.breakpoints.push(addr);
        proof {
            assert forall|a: u32| #[trigger]
                self.breakpoints@.contains(a) <==> (old(self).breakpoints@.contains(a) || a
                    == addr) by {
                if self.breakpoints@.contains(a) {
                    let k = choose|k: int|
                        0 <= k < self.breakpoints@.len() && self.breakpoints@[k] == a;
                    if k < old(self).breakpoints@.len() {
                        assert(old(self).breakpoints@[k] == a);
                    }
                }
                if old(self).breakpoints@.contains(a) {
                    let k = choose|k: int|
                        0 <= k < old(self).breakpoints@.len() && old(self).breakpoints@[k] == a;
                    assert(self.breakpoints@[k] == a);
                }
                if a == addr {
                    assert(self.breakpoints@[old(self).breakpoints@.len() as int] == a);
                }
            }
        }
    }

    /// Make the modelled debuggee ignore a signal.
    pub fn ignore_signal(&mut self, sig: u8)
        requires
            old(self).wf(),
        ensures
            final(self).wf(),
            final(self).connected() == old(self).connected(),
            final(self).alive() == old(self).alive(),
            final(self).session() == old(self).session(),
            final(self).pc() == old(self).pc(),
            final(self).exit_addr() == old(self).exit_addr(),
            final(self).exit_code() == old(self).exit_code(),
            final(self).regs_file() == old(self).regs_file(),
            final(self).bps() == old(self).bps(),
            same_memory(*old(self), *final(self)),
            forall|s: u8| #[trigger]
                final(self).signal_ignored(s) <==> (old(self).signal_ignored(s) || s == sig),
            forall|s: u8| #[trigger] final(self).signal_caught(s) == old(self).signal_caught(s),
    {
        self.ignored_signals.push(sig);
        proof {
            assert forall|s: u8| #[trigger]
                self.ignored_signals@.contains(s) <==> (old(self).ignored_signals@.contains(s) || s
                    == sig) by {
                if self.ignored_signals@.contains(s) {
                    let k = choose|k: int|
                        0 <= k < self.ignored_signals@.len() && self.ignored_signals@[k] == s;
                    if k < old(self).ignored_signals@.len() {
                        assert(old(self).ignored_signals@[k] == s);
                    }
                }
                if old(self).ignored_signals@.contains(s) {
                    let k = choose|k: int|
                        0 <= k < old(self).ignored_signals@.len() && old(self).ignored_signals@[k] == s;
                    assert(self.ignored_signals@[k] == s);
                }
                if s == sig {
                    assert(self.ignored_signals@[old(self).ignored_signals@.len() as int] == s);
                }
            }
        }
    }

    /// Make the modelled debuggee catch a signal (and raise it back to the
    /// debugger), unless it also ignores it.
    pub fn catch_signal(&mut self, sig: u8)
        requires
            old(self).wf(),
        ensures
            final(self).wf(),
            final(self).connected() == old(self).connected(),
            final(self).alive() == old(self).alive(),
            final(self).session() == old(self).session(),
            final(self).pc() == old(self).pc(),
            final(self).exit_addr() == old(self).exit_addr(),
            final(self).exit_code() == old(self).exit_code(),
            final(self).regs_file() == old(self).regs_file(),
            final(self).bps() == old(self).bps(),
            same_memory(*old(self), *final(self)),
            forall|s: u8| #[trigger] final(self).signal_ignored(s) == old(self).signal_ignored(s),
            forall|s: u8| #[trigger]
                final(self).signal_caught(s) <==> (old(self).signal_caught(s) || s == sig),
    {
        self.caught_signals.push(sig);
        proof {
            assert forall|s: u8| #[trigger]
                self.caught_signals@.contains(s) <==> (old(self).caught_signals@.contains(s) || s
                    == sig) by {
                if self.caught_signals@.contains(s) {
                    let k = choose|k: int|
                        0 <= k < self.caught_signals@.len() && self.caught_signals@[k] == s;
                    if k < old(self).caught_signals@.len() {
                        assert(old(self).caught_signals@[k] == s);
                    }
                }
                if old(self).caught_signals@.contains(s) {
                    let k = choose|k: int|
                        0 <= k < old(self).caught_signals@.len() && old(self).caught_signals@[k] == s;
                    assert(self.caught_signals@[k] == s);
                }
                if s == sig {
                    assert(self.caught_signals@[old(self).caught_signals@.len() as int] == s);
                }
            }
        }
    }

    /// The current program counter.
    pub fn current_pc(&self) -> (r: u32)
        ensures
            r == self.pc(),
    {
        self.pc
    }

    /// Whether the connection is up.
    pub fn is_connected(&self) -> (r: bool)
        ensures
            r == self.connected(),
    {
        self.connected
    }

    /// Whether the debuggee is still there to resume.
    pub fn is_alive(&self) -> (r: bool)
        ensures
            r == self.alive(),
    {
        self.alive
    }

    /// The session state between calls.
    pub fn session_state(&self) -> (r: SessionState)
        ensures
            r == self.session(),
    {
        self.session
    }
}

/// Overlap of two address intervals `[b1, b1 + l1)` and `[b2, b2 + l2)`.
spec fn ivl_overlap(b1: int, l1: int, b2: int, l2: int) -> bool {
    l1 > 0 && l2 > 0 && b1 < b2 + l2 && b2 < b1 + l1
}

impl Controller {
    /// Map a memory region holding `data` at `[base, base + data.len())`,
    /// read-only or writable. Fails — leaving the controller unchanged —
    /// exactly when the range would run past the 32-bit address space or
    /// touch an address that is already mapped.
    pub fn map_region(&mut self, base: u32, writable: bool, data: Vec<u8>) -> (r: bool)
        requires
            old(self).wf(),
        ensures
            final(self).wf(),
            final(self).connected() == old(self).connected(),
            final(self).alive() == old(self).alive(),
            final(self).session() == old(self).session(),
            final(self).pc() == old(self).pc(),
            final(self).exit_addr() == old(self).exit_addr(),
            final(self).exit_code() == old(self).exit_code(),
            final(self).regs_file() == old(self).regs_file(),
            final(self).bps() == old(self).bps(),
            forall|s: u8| #[trigger] final(self).signal_ignored(s) == old(self).signal_ignored(s),
            forall|s: u8| #[trigger] final(self).signal_caught(s) == old(self).signal_caught(s),
            !r ==> *final(self) == *old(self),
            r <==> (base + data@.len() <= 0x1_0000_0000 && (forall|x: int|
                base <= x < base + data@.len() ==> !old(self).mapped_at(x))),
            r ==> (forall|x: int| #[trigger]
                final(self).mapped_at(x) <==> (old(self).mapped_at(x) || (base <= x < base
                    + data@.len()))),
            r ==> (forall|x: int|
                base <= x < base + data@.len() ==> #[trigger] final(self).byte_at(x) == data@[x
                    - base]),
            r ==> (forall|x: int|
                old(self).mapped_at(x) ==> #[trigger] final(self).byte_at(x) == old(self).byte_at(x)),
            r ==> (forall|s: int, l: int| #[trigger]
                final(self).accessible(s, l) <==> (old(self).accessible(s, l) || (base <= s && s
                    + l <= base + data@.len()))),
            r ==> (forall|s: int, l: int| #[trigger]
                final(self).writable_range(s, l) <==> (old(self).writable_range(s, l) || (writable
                    && base <= s && s + l <= base + data@.len()))),
    {
        let len = data.len();
        if (len as u64) > 0x1_0000_0000u64 - (base as u64) {
            return false;
        }
        let n = self.regions.len();
        let mut j: usize = 0;
        while j < n
            invariant
                old(self).wf(),
                *self == *old(self),
                n == self.regions@.len(),
                j <= n,
                len == data@.len(),
                base + len <= 0x1_0000_0000,
                forall|jj: int|
                    0 <= jj < j ==> !ivl_overlap(
                        base as int,
                        len as int,
                        (#[trigger] self.regions@[jj]).base as int,
                        self.regions@[jj].data@.len() as int,
                    ),
            decreases n - j,
        {
            let rgbase = self.regions[j].base;
            let rglen = self.regions[j].data.len();
            if len > 0 && rglen > 0 && (rgbase as u64) < (base as u64) + (len as u64) && (
            base as u64) < (rgbase as u64) + (rglen as u64) {
                proof {
                    let x: int = if base as int > rgbase as int {
                        base as int
                    } else {
                        rgbase as int
                    };
                    assert(in_rg(self.regions@[j as int], x));
                    assert(self.mapped_at(x));
                    assert(base <= x < base + len);
                }
                return false;
            }
            j = j + 1;
        }
        let ghost d = data@;
        let ghost olds = self.regions@;
        let newr = Region { base, writable, data };
        self.regions.push(newr);
        proof {
            let news = self.regions@;
            let ni = olds.len() as int;
            assert(news[ni].base == base && news[ni].writable == writable && news[ni].data@ == d);
            assert forall|jj: int| 0 <= jj < news.len() implies rg_wf(#[trigger] news[jj]) by {
                if jj < ni {
                    assert(news[jj] == olds[jj]);
                }
            }
            assert forall|jj: int, kk: int|
                0 <= jj < news.len() && 0 <= kk < news.len() && jj != kk implies rg_no_overlap(
                #[trigger] news[jj],
                #[trigger] news[kk],
            ) by {
                if jj < ni && kk < ni {
                    assert(news[jj] == olds[jj] && news[kk] == olds[kk]);
                    assert(rg_no_overlap(olds[jj], olds[kk]));
                } else if jj == ni {
                    assert(news[kk] == olds[kk]);
                    assert(!ivl_overlap(
                        base as int,
                        d.len() as int,
                        olds[kk].base as int,
                        olds[kk].data@.len() as int,
                    ));
                } else {
                    assert(news[jj] == olds[jj]);
                    assert(!ivl_overlap(
                        base as int,
                        d.len() as int,
                        olds[jj].base as int,
                        olds[jj].data@.len() as int,
                    ));
                }
            }
            assert forall|x: int|
                base <= x < base + d.len() implies !mem_mapped(olds, x) by {
                if mem_mapped(olds, x) {
                    let k = choose|k: int| 0 <= k < olds.len() && in_rg(#[trigger] olds[k], x);
                    assert(ivl_overlap(
                        base as int,
                        d.len() as int,
                        olds[k].base as int,
                        olds[k].data@.len() as int,
                    ));
                }
            }
            assert forall|x: int| #[trigger]
                mem_mapped(news, x) <==> (mem_mapped(olds, x) || (base <= x < base
                    + d.len())) by {
                if mem_mapped(news, x) {
                    let k = choose|k: int| 0 <= k < news.len() && in_rg(#[trigger] news[k], x);
                    if k < ni {
                        assert(news[k] == olds[k]);
                        assert(in_rg(olds[k], x));
                        assert(mem_mapped(olds, x));
                    } else {
                        assert(base <= x < base + d.len());
                    }
                }
                if mem_mapped(olds, x) {
                    let k = choose|k: int| 0 <= k < olds.len() && in_rg(#[trigger] olds[k], x);
                    assert(news[k] == olds[k]);
                    assert(in_rg(news[k], x));
                    assert(mem_mapped(news, x));
                }
                if base <= x < base + d.len() {
                    assert(in_rg(news[ni], x));
                    assert(mem_mapped(news, x));
                }
            }
            assert forall|x: int|
                base <= x < base + d.len() implies #[trigger] mem_byte(news, x) == d[x
                - base] by {
                lemma_mem_byte_at(news, ni, x);
            }
            assert forall|x: int|
                mem_mapped(olds, x) implies #[trigger] mem_byte(news, x) == mem_byte(
                olds,
                x,
            ) by {
                let k = choose|k: int| 0 <= k < olds.len() && in_rg(#[trigger] olds[k], x);
                lemma_mem_byte_at(olds, k, x);
                assert(news[k] == olds[k]);
                assert(in_rg(news[k], x));
                lemma_mem_byte_at(news, k, x);
            }
            assert forall|s: int, l: int| #[trigger]
                mem_accessible(news, s, l) <==> (mem_accessible(olds, s, l) || (base <= s && s + l
                    <= base + d.len())) by {
                if l > 0 {
                    if mem_accessible(news, s, l) {
                        let k = choose|k: int|
                            0 <= k < news.len() && range_in_rg(#[trigger] news[k], s, l);
                        if k < ni {
                            assert(news[k] == olds[k]);
                            assert(range_in_rg(olds[k], s, l));
                            assert(mem_accessible(olds, s, l));
                        }
                    }
                    if mem_accessible(olds, s, l) {
                        let k = choose|k: int|
                            0 <= k < olds.len() && range_in_rg(#[trigger] olds[k], s, l);
                        assert(news[k] == olds[k]);
                        assert(range_in_rg(news[k], s, l));
                        assert(mem_accessible(news, s, l));
                    }
                    if base <= s && s + l <= base + d.len() {
                        assert(range_in_rg(news[ni], s, l));
                        assert(mem_accessible(news, s, l));
                    }
                }
            }
            assert forall|s: int, l: int| #[trigger]
                mem_writable(news, s, l) <==> (mem_writable(olds, s, l) || (writable && base <= s
                    && s + l <= base + d.len())) by {
                if l > 0 {
                    if mem_writable(news, s, l) {
                        let k = choose|k: int|
                            0 <= k < news.len() && range_in_rg(#[trigger] news[k], s, l)
                                && news[k].writable;
                        if k < ni {
                            assert(news[k] == olds[k]);
                            assert(range_in_rg(olds[k], s, l) && olds[k].writable);
                            assert(mem_writable(olds, s, l));
                        }
                    }
                    if mem_writable(olds, s, l) {
                        let k = choose|k: int|
                            0 <= k < olds.len() && range_in_rg(#[trigger] olds[k], s, l)
                                && olds[k].writable;
                        assert(news[k] == olds[k]);
                        assert(range_in_rg(news[k], s, l) && news[k].writable);
                        assert(mem_writable(news, s, l));
                    }
                    if writable && base <= s && s + l <= base + d.len() {
                        assert(range_in_rg(news[ni], s, l) && news[ni].writable);
                        assert(mem_writable(news, s, l));
                    }
                }
            }
        }
        true
    }

    /// Read `buf.len()` bytes from `[start, start + buf.len())` into `buf`.
    ///
    /// `Ok(true)` with the bytes exactly when the connection is up and the
    /// range is accessible; `Ok(false)` — non-fatal, the controller is left
    /// untouched and the session stays usable — exactly when the connection
    /// is up but the range is not accessible; `Err` exactly when the
    /// connection is down.
    pub fn read_addrs(&mut self, start: u32, buf: &mut Vec<u8>) -> (r: Result<
        bool,
        FatalTargetError,
    >)
        requires
            old(self).wf(),
        ensures
            *final(self) == *old(self),
            final(buf)@.len() == old(buf)@.len(),
            r is Err <==> !old(self).connected(),
            r matches Err(e) ==> e == FatalTargetError::ConnectionLost && *final(buf) == *old(buf),
            r == Ok::<bool, FatalTargetError>(true) <==> (old(self).connected() && old(self).accessible(start as int, old(buf)@.len() as int)),
            r == Ok::<bool, FatalTargetError>(false) ==> *final(buf) == *old(buf),
            r == Ok::<bool, FatalTargetError>(true) ==> (forall|k: int|
                0 <= k < old(buf)@.len() ==> final(buf)@[k] == old(self).byte_at(start + k)),
    {
        if !self.connected {
            return Err(FatalTargetError::ConnectionLost);
        }
        let len = buf.len();
        if len == 0 {
            return Ok(true);
        }
        if (len as u64) > 0x1_0000_0000u64 {
            proof {
                if self.accessible(start as int, len as int) {
                    let k = choose|k: int|
                        0 <= k < self.regions@.len() && range_in_rg(
                            #[trigger] self.regions@[k],
                            start as int,
                            len as int,
                        );
                    assert(rg_wf(self.regions@[k]));
                    assert(false);
                }
            }
            return Ok(false);
        }
        let n = self.regions.len();
        let mut j: usize = 0;
        while j < n
            invariant
                old(self).wf(),
                *self == *old(self),
                self.connected,
                n == self.regions@.len(),
                j <= n,
                0 < len <= 0x1_0000_0000,
                len == buf@.len(),
                *buf == *old(buf),
                forall|jj: int|
                    0 <= jj < j ==> !range_in_rg(
                        #[trigger] self.regions@[jj],
                        start as int,
                        len as int,
                    ),
            decreases n - j,
        {
            let rgbase = self.regions[j].base;
            let rglen = self.regions[j].data.len();
            if rgbase <= start && (start as u64) + (len as u64) <= (rgbase as u64) + (
            rglen as u64) {
                let off = (start - rgbase) as usize;
                let mut k: usize = 0;
                while k < len
                    invariant
                        old(self).wf(),
                        *self == *old(self),
                        n == self.regions@.len(),
                        j < n,
                        k <= len,
                        0 < len <= 0x1_0000_0000,
                        len == buf@.len(),
                        rgbase == self.regions@[j as int].base,
                        rglen == self.regions@[j as int].data@.len(),
                        off == start - rgbase,
                        off + len <= rglen,
                        forall|m: int|
                            0 <= m < k ==> buf@[m] == self.regions@[j as int].data@[off + m],
                    decreases len - k,
                {
                    let b = self.regions[j].data[off + k];
                    buf.set(k, b);
                    k = k + 1;
                }
                proof {
                    assert(range_in_rg(self.regions@[j as int], start as int, len as int));
                    assert(self.accessible(start as int, len as int));
                    assert forall|m: int|
                        0 <= m < len implies buf@[m] == mem_byte(self.regions@, start + m) by {
                        assert(in_rg(self.regions@[j as int], start + m));
                        lemma_mem_byte_at(self.regions@, j as int, start + m);
                    }
                }
                return Ok(true);
            }
            j = j + 1;
        }
        proof {
            if self.accessible(start as int, len as int) {
                let k = choose|k: int|
                    0 <= k < self.regions@.len() && range_in_rg(
                        #[trigger] self.regions@[k],
                        start as int,
                        len as int,
                    );
                assert(false);
            }
        }
        Ok(false)
    }

    /// Write `data` to `[start, start + data.len())`.
    ///
    /// `Ok(true)` exactly when the connection is up and the range is
    /// writable, and then exactly those bytes change; `Ok(false)` —
    /// non-fatal, the controller is left untouched and the session stays
    /// usable — exactly when the connection is up but the range is not
    /// writable; `Err` exactly when the connection is down.
    pub fn write_addrs(&mut self, start: u32, data: &Vec<u8>) -> (r: Result<
        bool,
        FatalTargetError,
    >)
        requires
            old(self).wf(),
        ensures
            final(self).wf(),
            final(self).connected() == old(self).connected(),
            final(self).alive() == old(self).alive(),
            final(self).session() == old(self).session(),
            final(self).pc() == old(self).pc(),
            final(self).regs_file() == old(self).regs_file(),
            same_program(*old(self), *final(self)),
            r is Err <==> !old(self).connected(),
            r matches Err(e) ==> e == FatalTargetError::ConnectionLost && *final(self) == *old(self),
            r == Ok::<bool, FatalTargetError>(true) <==> (old(self).connected() && old(self).writable_range(start as int, data@.len() as int)),
            r == Ok::<bool, FatalTargetError>(false) ==> *final(self) == *old(self),
            forall|s: int, l: int| #[trigger]
                final(self).accessible(s, l) == old(self).accessible(s, l),
            forall|s: int, l: int| #[trigger]
                final(self).writable_range(s, l) == old(self).writable_range(s, l),
            forall|x: int| #[trigger] final(self).mapped_at(x) == old(self).mapped_at(x),
            r == Ok::<bool, FatalTargetError>(true) ==> (forall|k: int|
                0 <= k < data@.len() ==> #[trigger] final(self).byte_at(start + k) == data@[k]),
            r == Ok::<bool, FatalTargetError>(true) ==> (forall|x: int|
                old(self).mapped_at(x) && !(start <= x < start + data@.len())
                    ==> #[trigger] final(self).byte_at(x) == old(self).byte_at(x)),
    {
        if !self.connected {
            return Err(FatalTargetError::ConnectionLost);
        }
        let len = data.len();
        if len == 0 {
            return Ok(true);
        }
        if (len as u64) > 0x1_0000_0000u64 {
            proof {
                if self.writable_range(start as int, len as int) {
                    let k = choose|k: int|
                        0 <= k < self.regions@.len() && range_in_rg(
                            #[trigger] self.regions@[k],
                            start as int,
                            len as int,
                        ) && self.regions@[k].writable;
                    assert(rg_wf(self.regions@[k]));
                    assert(false);
                }
            }
            return Ok(false);
        }
        let n = self.regions.len();
        let mut j: usize = 0;
        let mut idx: usize = n;
        while j < n
            invariant
                old(self).wf(),
                *self == *old(self),
                self.connected,
                n == self.regions@.len(),
                j <= n,
                0 < len <= 0x1_0000_0000,
                len == data@.len(),
                idx <= n,
                idx == n ==> forall|jj: int|
                    0 <= jj < j ==> !(range_in_rg(
                        #[trigger] self.regions@[jj],
                        start as int,
                        len as int,
                    ) && self.regions@[jj].writable),
                idx < n ==> range_in_rg(self.regions@[idx as int], start as int, len as int)
                    && self.regions@[idx as int].writable,
            decreases n - j,
        {
            if idx == n {
                let rgbase = self.regions[j].base;
                let rglen = self.regions[j].data.len();
                let rgw = self.regions[j].writable;
                if rgw && rgbase <= start && (start as u64) + (len as u64) <= (rgbase as u64) + (
                rglen as u64) {
                    idx = j;
                }
            }
            j = j + 1;
        }
        if idx == n {
            proof {
                if self.writable_range(start as int, len as int) {
                    let k = choose|k: int|
                        0 <= k < self.regions@.len() && range_in_rg(
                            #[trigger] self.regions@[k],
                            start as int,
                            len as int,
                        ) && self.regions@[k].writable;
                    assert(false);
                }
            }
            return Ok(false);
        }
        let ghost olds = self.regions@;
        let mut rg = self.regions.remove(idx);
        let ghost dsnap = rg.data@;
        proof {
            assert(rg == olds[idx as int]);
            assert(range_in_rg(olds[idx as int], start as int, len as int));
        }
        let off = (start - rg.base) as usize;
        let rgdl = rg.data.len();
        let mut k: usize = 0;
        while k < len
            invariant
                k <= len,
                len == data@.len(),
                0 < len <= 0x1_0000_0000,
                idx < olds.len(),
                rg.base == olds[idx as int].base,
                rg.writable == olds[idx as int].writable,
                rg.data@.len() == dsnap.len(),
                dsnap == olds[idx as int].data@,
                off == start - rg.base,
                rgdl == rg.data@.len(),
                off + len <= rgdl,
                forall|m: int| 0 <= m < k ==> rg.data@[off + m] == data@[m],
                forall|m: int|
                    0 <= m < rg.data@.len() && !(off <= m < off + k) ==> rg.data@[m] == dsnap[m],
                self.regions@ == olds.remove(idx as int),
            decreases len - k,
        {
            let b = data[k];
            rg.data.set(off + k, b);
            k = k + 1;
        }
        self.regions.insert(idx, rg);
        proof {
            let news = self.regions@;
            let ii = idx as int;
            assert(news == olds.remove(ii).insert(ii, news[ii]));
            assert(news.len() == olds.len());
            assert forall|m: int| 0 <= m < news.len() && m != ii implies news[m] == olds[m] by {
                if m < ii {
                    assert(news[m] == olds.remove(ii)[m]);
                    assert(olds.remove(ii)[m] == olds[m]);
                } else {
                    assert(news[m] == olds.remove(ii)[m - 1]);
                    assert(olds.remove(ii)[m - 1] == olds[m]);
                }
            }
            assert(news[ii].base == olds[ii].base);
            assert(news[ii].writable == olds[ii].writable);
            assert(news[ii].data@.len() == olds[ii].data@.len());
            assert forall|jj: int| 0 <= jj < news.len() implies rg_wf(#[trigger] news[jj]) by {
                assert(rg_wf(olds[jj]));
            }
            assert forall|jj: int, kk: int|
                0 <= jj < news.len() && 0 <= kk < news.len() && jj != kk implies rg_no_overlap(
                #[trigger] news[jj],
                #[trigger] news[kk],
            ) by {
                assert(rg_no_overlap(olds[jj], olds[kk]));
            }
            assert forall|s: int, l: int| #[trigger]
                mem_accessible(news, s, l) == mem_accessible(olds, s, l) by {
                if l > 0 {
                    if mem_accessible(news, s, l) {
                        let kk = choose|kk: int|
                            0 <= kk < news.len() && range_in_rg(#[trigger] news[kk], s, l);
                        assert(range_in_rg(olds[kk], s, l));
                        assert(mem_accessible(olds, s, l));
                    }
                    if mem_accessible(olds, s, l) {
                        let kk = choose|kk: int|
                            0 <= kk < olds.len() && range_in_rg(#[trigger] olds[kk], s, l);
                        assert(range_in_rg(news[kk], s, l));
                        assert(mem_accessible(news, s, l));
                    }
                }
            }
            assert forall|s: int, l: int| #[trigger]
                mem_writable(news, s, l) == mem_writable(olds, s, l) by {
                if l > 0 {
                    if mem_writable(news, s, l) {
                        let kk = choose|kk: int|
                            0 <= kk < news.len() && range_in_rg(#[trigger] news[kk], s, l)
                                && news[kk].writable;
                        assert(range_in_rg(olds[kk], s, l) && olds[kk].writable);
                        assert(mem_writable(olds, s, l));
                    }
                    if mem_writable(olds, s, l) {
                        let kk = choose|kk: int|
                            0 <= kk < olds.len() && range_in_rg(#[trigger] olds[kk], s, l)
                                && olds[kk].writable;
                        assert(range_in_rg(news[kk], s, l) && news[kk].writable);
                        assert(mem_writable(news, s, l));
                    }
                }
            }
            assert forall|x: int| #[trigger] mem_mapped(news, x) == mem_mapped(olds, x) by {
                if mem_mapped(news, x) {
                    let kk = choose|kk: int| 0 <= kk < news.len() && in_rg(#[trigger] news[kk], x);
                    assert(in_rg(olds[kk], x));
                    assert(mem_mapped(olds, x));
                }
                if mem_mapped(olds, x) {
                    let kk = choose|kk: int| 0 <= kk < olds.len() && in_rg(#[trigger] olds[kk], x);
                    assert(in_rg(news[kk], x));
                    assert(mem_mapped(news, x));
                }
            }
            assert(range_in_rg(olds[ii], start as int, len as int) && olds[ii].writable);
            assert(mem_writable(olds, start as int, len as int));
            assert forall|m: int|
                0 <= m < len implies #[trigger] mem_byte(news, start + m) == data@[m] by {
                assert(in_rg(news[ii], start + m));
                lemma_mem_byte_at(news, ii, start + m);
                assert(news[ii].data@[start + m - news[ii].base] == data@[m]);
            }
            assert forall|x: int|
                mem_mapped(olds, x) && !(start <= x < start + len) implies #[trigger] mem_byte(
                news,
                x,
            ) == mem_byte(olds, x) by {
                let kk = choose|kk: int| 0 <= kk < olds.len() && in_rg(#[trigger] olds[kk], x);
                lemma_mem_byte_at(olds, kk, x);
                assert(in_rg(news[kk], x));
                lemma_mem_byte_at(news, kk, x);
                if kk == ii {
                    assert(news[ii].data@[x - news[ii].base] == dsnap[x - olds[ii].base]);
                }
            }
        }
        Ok(true)
    }

    /// Read the target's registers into `out`, atomically, as one full
    /// file. Fails exactly when the connection is down.
    pub fn read_registers(&mut self, out: &mut Simple32Regs) -> (r: Result<(), FatalTargetError>)
        requires
            old(self).wf(),
            old(out).inv(),
        ensures
            *final(self) == *old(self),
            final(out).inv(),
            r is Ok <==> old(self).connected(),
            r matches Err(e) ==> e == FatalTargetError::ConnectionLost && *final(out) == *old(out),
            r is Ok ==> final(out)@ == old(self).regs_file(),
    {
        if !self.connected {
            return Err(FatalTargetError::ConnectionLost);
        }
        let mut i: usize = 0;
        while i < 16
            invariant
                old(self).wf(),
                *self == *old(self),
                i <= 16,
                out.inv(),
                forall|m: int| 0 <= m < i ==> out@[m] == self.regs@[m],
            decreases 16 - i,
        {
            let v = self.regs.get_reg(i);
            out.set_reg(i, v);
            i = i + 1;
        }
        proof {
            assert(out@ =~= self.regs@);
        }
        Ok(())
    }

    /// Write the full register file `regs` to the target, atomically.
    /// Fails exactly when the connection is down.
    pub fn write_registers(&mut self, regs: &Simple32Regs) -> (r: Result<(), FatalTargetError>)
        requires
            old(self).wf(),
            regs.inv(),
        ensures
            final(self).wf(),
            final(self).connected() == old(self).connected(),
            final(self).alive() == old(self).alive(),
            final(self).session() == old(self).session(),
            final(self).pc() == old(self).pc(),
            same_program(*old(self), *final(self)),
            same_memory(*old(self), *final(self)),
            r is Ok <==> old(self).connected(),
            r matches Err(e) ==> e == FatalTargetError::ConnectionLost && *final(self) == *old(self),
            r is Ok ==> final(self).regs_file() == regs@,
    {
        if !self.connected {
            return Err(FatalTargetError::ConnectionLost);
        }
        let mut i: usize = 0;
        while i < 16
            invariant
                i <= 16,
                self.regs.inv(),
                regs.inv(),
                self.connected == old(self).connected,
                self.alive == old(self).alive,
                self.session == old(self).session,
                self.pc == old(self).pc,
                self.exit_addr == old(self).exit_addr,
                self.exit_code == old(self).exit_code,
                self.breakpoints == old(self).breakpoints,
                self.regions == old(self).regions,
                self.ignored_signals == old(self).ignored_signals,
                self.caught_signals == old(self).caught_signals,
                old(self).wf(),
                forall|m: int| 0 <= m < i ==> self.regs@[m] == regs@[m],
            decreases 16 - i,
        {
            let v = regs.get_reg(i);
            self.regs.set_reg(i, v);
            i = i + 1;
        }
        proof {
            assert(self.regs@ =~= regs@);
        }
        Ok(())
    }
}

impl Controller {
    /// Execute one instruction of the modelled debuggee.
    fn do_step(&mut self) -> (r: StopReason)
        requires
            old(self).wf(),
            old(self).connected,
            old(self).alive,
        ensures
            final(self).wf(),
            final(self).connected == old(self).connected,
            final(self).session == old(self).session,
            final(self).exit_addr == old(self).exit_addr,
            final(self).exit_code == old(self).exit_code,
            final(self).regs == old(self).regs,
            final(self).breakpoints == old(self).breakpoints,
            final(self).regions == old(self).regions,
            final(self).ignored_signals == old(self).ignored_signals,
            final(self).caught_signals == old(self).caught_signals,
            ({
                let o = step_once(
                    old(self).pc,
                    old(self).exit_addr,
                    old(self).exit_code,
                    old(self).breakpoints@,
                );
                r == o.0 && final(self).pc == o.1 && final(self).alive == !(o.0 is Exited)
            }),
    {
        if self.pc == self.exit_addr {
            self.alive = false;
            StopReason::Exited(self.exit_code)
        } else {
            proof {
                lemma_aligned_step(self.pc, self.exit_addr);
            }
            let npc = self.pc + 4;
            self.pc = npc;
            if vec_has_u32(&self.breakpoints, npc) {
                StopReason::BreakpointHit
            } else {
                StopReason::StepCompleted
            }
        }
    }

    /// Run the modelled debuggee until an interrupt, a breakpoint, or exit,
    /// polling the interrupt source once per step.
    fn run_continue<I: InterruptSource>(&mut self, intr: &mut I) -> (r: StopReason)
        requires
            old(self).wf(),
            old(self).connected,
            old(self).alive,
            old(intr).inv(),
        ensures
            final(self).wf(),
            final(intr).inv(),
            forall|k: nat| final(intr).answer_at(k) == old(intr).answer_at(k),
            final(self).connected == old(self).connected,
            final(self).session == old(self).session,
            final(self).exit_addr == old(self).exit_addr,
            final(self).exit_code == old(self).exit_code,
            final(self).regs == old(self).regs,
            final(self).breakpoints == old(self).breakpoints,
            final(self).regions == old(self).regions,
            final(self).ignored_signals == old(self).ignored_signals,
            final(self).caught_signals == old(self).caught_signals,
            ({
                let o = continue_run(
                    old(self).pc,
                    old(self).exit_addr,
                    old(self).exit_code,
                    old(self).breakpoints@,
                    *old(intr),
                    old(intr).polled(),
                );
                r == o.0 && final(self).pc == o.1 && final(intr).polled() == o.2 && final(self).alive == !(o.0 is Exited)
            }),
    {
        let ghost snap: I = *intr;
        let ghost p0: nat = intr.polled();
        loop
            invariant
                self.wf(),
                self.connected,
                self.alive,
                intr.inv(),
                forall|k: nat| intr.answer_at(k) == snap.answer_at(k),
                snap == *old(intr),
                p0 == old(intr).polled(),
                self.connected == old(self).connected,
                self.session == old(self).session,
                self.exit_addr == old(self).exit_addr,
                self.exit_code == old(self).exit_code,
                self.regs == old(self).regs,
                self.breakpoints == old(self).breakpoints,
                self.regions == old(self).regions,
                self.ignored_signals == old(self).ignored_signals,
                self.caught_signals == old(self).caught_signals,
                old(self).wf(),
                old(self).connected,
                old(self).alive,
                continue_run(
                    old(self).pc,
                    old(self).exit_addr,
                    old(self).exit_code,
                    old(self).breakpoints@,
                    snap,
                    p0,
                ) == continue_run(
                    self.pc,
                    self.exit_addr,
                    self.exit_code,
                    self.breakpoints@,
                    snap,
                    intr.polled(),
                ),
            decreases self.exit_addr - self.pc,
        {
            let ghost ppc = self.pc;
            let ghost pp = intr.polled();
            let stop = intr.check_interrupt();
            if stop {
                proof {
                    assert(snap.answer_at(pp));
                }
                return StopReason::Interrupted;
            }
            if self.pc == self.exit_addr {
                self.alive = false;
                return StopReason::Exited(self.exit_code);
            }
            proof {
                lemma_aligned_step(self.pc, self.exit_addr);
            }
            let npc = self.pc + 4;
            self.pc = npc;
            if vec_has_u32(&self.breakpoints, npc) {
                return StopReason::BreakpointHit;
            }
            proof {
                assert(!snap.answer_at(pp));
                assert(continue_run(
                    ppc,
                    self.exit_addr,
                    self.exit_code,
                    self.breakpoints@,
                    snap,
                    pp,
                ) == continue_run(
                    npc,
                    self.exit_addr,
                    self.exit_code,
                    self.breakpoints@,
                    snap,
                    (pp + 1) as nat,
                ));
            }
        }
    }

    /// Resume execution of the target.
    ///
    /// Drives the session from `Idle` or `Stopped` through the running
    /// phase back to `Stopped` and reports why execution halted. During a
    /// continue the injected interrupt source is polled once per step; a
    /// `true` answer ends the run immediately with `Interrupted`. A step
    /// reports `StepCompleted` unless the instruction lands exactly on a
    /// breakpoint address (or on the exit address). Delivering a signal
    /// follows the modelled debuggee's disposition: ignored signals have no
    /// effect, caught ones stop immediately with `SignalDelivered`, and any
    /// other terminates the debuggee. Fails — exactly when the connection
    /// is down or the debuggee is gone — with a fatal error: the session
    /// must be torn down, never retried.
    pub fn resume<I: InterruptSource>(&mut self, action: ResumeAction, intr: &mut I) -> (r: Result<
        StopReason,
        FatalTargetError,
    >)
        requires
            old(self).wf(),
            old(intr).inv(),
        ensures
            final(self).wf(),
            final(intr).inv(),
            forall|k: nat| final(intr).answer_at(k) == old(intr).answer_at(k),
            final(self).connected() == old(self).connected(),
            final(self).regs_file() == old(self).regs_file(),
            same_program(*old(self), *final(self)),
            same_memory(*old(self), *final(self)),
            r is Err <==> !(old(self).connected() && old(self).alive()),
            r matches Err(e) ==> *final(self) == *old(self) && *final(intr) == *old(intr) && e == (
                if !old(self).connected() {
                    FatalTargetError::ConnectionLost
                } else {
                    FatalTargetError::TargetGone
                }
            ),
            r is Ok ==> final(self).session() == SessionState::Stopped,
            (old(self).connected() && old(self).alive() && action == ResumeAction::SingleStep)
                ==> (steps_to(*old(self), *final(self), r) && *final(intr) == *old(intr)),
            (old(self).connected() && old(self).alive() && action == ResumeAction::Continue)
                ==> continues_to(*old(self), *old(intr), *final(self), *final(intr), r),
            action matches ResumeAction::SingleStepWithSignal(sig) ==> ((old(self).connected()
                && old(self).alive()) ==> (match old(self).disposition(sig) {
                SignalDisposition::Ignored => steps_to(*old(self), *final(self), r) && *final(intr)
                    == *old(intr),
                SignalDisposition::Caught => r == Result::<StopReason, FatalTargetError>::Ok(
                    StopReason::SignalDelivered(sig),
                ) && final(self).pc() == old(self).pc() && final(self).alive() && *final(intr)
                    == *old(intr),
                SignalDisposition::Fatal => r == Result::<StopReason, FatalTargetError>::Ok(
                    StopReason::Terminated(sig),
                ) && final(self).pc() == old(self).pc() && !final(self).alive() && *final(intr)
                    == *old(intr),
            })),
            action matches ResumeAction::ContinueWithSignal(sig) ==> ((old(self).connected()
                && old(self).alive()) ==> (match old(self).disposition(sig) {
                SignalDisposition::Ignored => continues_to(
                    *old(self),
                    *old(intr),
                    *final(self),
                    *final(intr),
                    r,
                ),
                SignalDisposition::Caught => r == Result::<StopReason, FatalTargetError>::Ok(
                    StopReason::SignalDelivered(sig),
                ) && final(self).pc() == old(self).pc() && final(self).alive() && *final(intr)
                    == *old(intr),
                SignalDisposition::Fatal => r == Result::<StopReason, FatalTargetError>::Ok(
                    StopReason::Terminated(sig),
                ) && final(self).pc() == old(self).pc() && !final(self).alive() && *final(intr)
                    == *old(intr),
            })),
    {
        if !self.connected {
            return Err(FatalTargetError::ConnectionLost);
        }
        if !self.alive {
            return Err(FatalTargetError::TargetGone);
        }
        match action {
            ResumeAction::SingleStep => {
                let reason = self.do_step();
                self.session = SessionState::Stopped;
                Ok(reason)
            }
            ResumeAction::SingleStepWithSignal(sig) => {
                if vec_has_u8(&self.ignored_signals, sig) {
                    let reason = self.do_step();
                    self.session = SessionState::Stopped;
                    Ok(reason)
                } else if vec_has_u8(&self.caught_signals, sig) {
                    self.session = SessionState::Stopped;
                    Ok(StopReason::SignalDelivered(sig))
                } else {
                    self.alive = false;
                    self.session = SessionState::Stopped;
                    Ok(StopReason::Terminated(sig))
                }
            }
            ResumeAction::Continue => {
                let reason = self.run_continue(intr);
                self.session = SessionState::Stopped;
                Ok(reason)
            }
            ResumeAction::ContinueWithSignal(sig) => {
                if vec_has_u8(&self.ignored_signals, sig) {
                    let reason = self.run_continue(intr);
                    self.session = SessionState::Stopped;
                    Ok(reason)
                } else if vec_has_u8(&self.caught_signals, sig) {
                    self.session = SessionState::Stopped;
                    Ok(StopReason::SignalDelivered(sig))
                } else {
                    self.alive = false;
                    self.session = SessionState::Stopped;
                    Ok(StopReason::Terminated(sig))
                }
            }
        }
    }
}


} // verus!
