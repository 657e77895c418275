use gdbstub::control::{
    CountdownInterrupt, FatalTargetError, NeverInterrupt, ResumeAction, SessionState, StopReason,
};
use gdbstub::controller::Controller;
use gdbstub::simple32::Simple32Regs;

#[test]
fn fresh_controller_is_idle() {
    let c = Controller::new(0x1000, 0x2000, 0);
    assert!(c.is_connected());
    assert!(c.is_alive());
    assert_eq!(c.session_state(), SessionState::Idle);
    assert_eq!(c.current_pc(), 0x1000);
}

#[test]
fn single_step_completes() {
    let mut c = Controller::new(0x1000, 0x2000, 0);
    let mut intr = NeverInterrupt::new();
    let r = c.resume(ResumeAction::SingleStep, &mut intr);
    assert_eq!(r, Ok(StopReason::StepCompleted));
    assert_eq!(c.current_pc(), 0x1004);
    assert_eq!(c.session_state(), SessionState::Stopped);
}

#[test]
fn single_step_onto_breakpoint_reports_it() {
    // The step lands exactly on a breakpoint address; the reported counter
    // rests on the breakpoint itself.
    let mut c = Controller::new(0x1000, 0x2000, 0);
    c.set_breakpoint(0x1004);
    let mut intr = NeverInterrupt::new();
    let r = c.resume(ResumeAction::SingleStep, &mut intr);
    assert_eq!(r, Ok(StopReason::BreakpointHit));
    assert_eq!(c.current_pc(), 0x1004);
}

#[test]
fn single_step_elsewhere_ignores_breakpoint() {
    let mut c = Controller::new(0x1000, 0x2000, 0);
    c.set_breakpoint(0x1010);
    let mut intr = NeverInterrupt::new();
    let r = c.resume(ResumeAction::SingleStep, &mut intr);
    assert_eq!(r, Ok(StopReason::StepCompleted));
}

#[test]
fn step_at_exit_reports_exit_then_fatal() {
    let mut c = Controller::new(0x2000, 0x2000, 7);
    let mut intr = NeverInterrupt::new();
    assert_eq!(c.resume(ResumeAction::SingleStep, &mut intr), Ok(StopReason::Exited(7)));
    assert!(!c.is_alive());
    assert_eq!(
        c.resume(ResumeAction::SingleStep, &mut intr),
        Err(FatalTargetError::TargetGone)
    );
}

#[test]
fn continue_runs_to_breakpoint() {
    let mut c = Controller::new(0x0, 0x1_0000, 0);
    c.set_breakpoint(0x10);
    let mut intr = NeverInterrupt::new();
    let r = c.resume(ResumeAction::Continue, &mut intr);
    assert_eq!(r, Ok(StopReason::BreakpointHit));
    assert_eq!(c.current_pc(), 0x10);
}

#[test]
fn continue_runs_to_exit() {
    let mut c = Controller::new(0x0, 0x40, 3);
    let mut intr = NeverInterrupt::new();
    let r = c.resume(ResumeAction::Continue, &mut intr);
    assert_eq!(r, Ok(StopReason::Exited(3)));
    assert_eq!(c.current_pc(), 0x40);
    assert!(!c.is_alive());
}

#[test]
fn continue_interrupted_on_fiftieth_poll() {
    // The source answers true on its 50th poll: the run stops with the
    // interrupt-class reason without the debuggee reaching any trap, after
    // exactly 49 executed instructions.
    let mut c = Controller::new(0x0, 0x10_0000, 0);
    let mut intr = CountdownInterrupt::new(50);
    let r = c.resume(ResumeAction::Continue, &mut intr);
    assert_eq!(r, Ok(StopReason::Interrupted));
    assert_eq!(c.current_pc(), 49 * 4);
    assert!(c.is_alive());
}

#[test]
fn continue_interrupted_immediately() {
    let mut c = Controller::new(0x0, 0x10_0000, 0);
    let mut intr = CountdownInterrupt::new(1);
    let r = c.resume(ResumeAction::Continue, &mut intr);
    assert_eq!(r, Ok(StopReason::Interrupted));
    assert_eq!(c.current_pc(), 0);
}

#[test]
fn countdown_fires_once_only() {
    let mut c = Controller::new(0x0, 0x20, 9);
    let mut intr = CountdownInterrupt::new(2);
    assert_eq!(c.resume(ResumeAction::Continue, &mut intr), Ok(StopReason::Interrupted));
    // The one-shot source never fires again: the next continue runs to exit.
    assert_eq!(c.resume(ResumeAction::Continue, &mut intr), Ok(StopReason::Exited(9)));
}

#[test]
fn write_to_readonly_region_is_nonfatal_and_session_survives() {
    // A write into a read-only region returns Ok(false) — not Err — and a
    // read of an accessible region immediately afterwards still succeeds
    // with valid data.
    let mut c = Controller::new(0x1000, 0x2000, 0);
    let ro: Vec<u8> = vec![0xEE; 32];
    assert!(c.map_region(0xFFFF_0000, false, ro));
    let rw: Vec<u8> = vec![0x11, 0x22, 0x33, 0x44, 0x55, 0x66, 0x77, 0x88];
    assert!(c.map_region(0x1000, true, rw));

    let data = vec![1u8, 2, 3, 4];
    assert_eq!(c.write_addrs(0xFFFF_0000, &data), Ok(false));

    let mut buf = vec![0u8; 4];
    assert_eq!(c.read_addrs(0x1000, &mut buf), Ok(true));
    assert_eq!(buf, vec![0x11, 0x22, 0x33, 0x44]);

    // The read-only region kept its contents.
    let mut ro_buf = vec![0u8; 4];
    assert_eq!(c.read_addrs(0xFFFF_0000, &mut ro_buf), Ok(true));
    assert_eq!(ro_buf, vec![0xEE; 4]);
}

#[test]
fn write_then_read_back() {
    let mut c = Controller::new(0x0, 0x40, 0);
    assert!(c.map_region(0x3000, true, vec![0u8; 64]));
    let data = vec![9u8, 8, 7, 6, 5];
    assert_eq!(c.write_addrs(0x3010, &data), Ok(true));
    let mut buf = vec![0u8; 5];
    assert_eq!(c.read_addrs(0x3010, &mut buf), Ok(true));
    assert_eq!(buf, data);
    // Bytes around the written range are untouched.
    let mut edge = vec![0u8; 1];
    assert_eq!(c.read_addrs(0x300F, &mut edge), Ok(true));
    assert_eq!(edge, vec![0]);
}

#[test]
fn unmapped_range_reads_nonfatally() {
    let mut c = Controller::new(0x0, 0x40, 0);
    assert!(c.map_region(0x3000, true, vec![0u8; 16]));
    let mut buf = vec![0xABu8; 4];
    assert_eq!(c.read_addrs(0x9000, &mut buf), Ok(false));
    assert_eq!(buf, vec![0xAB; 4]);
    // A range straddling past the end of a region is inaccessible too.
    assert_eq!(c.read_addrs(0x300E, &mut buf), Ok(false));
}

#[test]
fn overlapping_region_is_refused() {
    let mut c = Controller::new(0x0, 0x40, 0);
    assert!(c.map_region(0x3000, true, vec![0u8; 16]));
    assert!(!c.map_region(0x3008, true, vec![0u8; 16]));
    assert!(c.map_region(0x3010, true, vec![0u8; 16]));
}

#[test]
fn region_past_address_space_is_refused() {
    let mut c = Controller::new(0x0, 0x40, 0);
    assert!(!c.map_region(0xFFFF_FFFC, true, vec![0u8; 8]));
    assert!(c.map_region(0xFFFF_FFFC, true, vec![0u8; 4]));
}

#[test]
fn registers_round_trip_through_target() {
    let mut c = Controller::new(0x0, 0x40, 0);
    let mut file = Simple32Regs::new_unknown();
    for i in 0..16usize {
        file.set_reg(i, Some(i as u32 * 3 + 1));
    }
    assert_eq!(c.write_registers(&file), Ok(()));
    let mut out = Simple32Regs::default();
    assert_eq!(c.read_registers(&mut out), Ok(()));
    for i in 0..16usize {
        assert_eq!(out.get_reg(i), file.get_reg(i));
    }
}

#[test]
fn disconnect_makes_every_operation_fatal() {
    let mut c = Controller::new(0x0, 0x40, 0);
    assert!(c.map_region(0x3000, true, vec![0u8; 16]));
    c.disconnect();
    let mut intr = NeverInterrupt::new();
    assert_eq!(
        c.resume(ResumeAction::Continue, &mut intr),
        Err(FatalTargetError::ConnectionLost)
    );
    let mut buf = vec![0u8; 4];
    assert_eq!(c.read_addrs(0x3000, &mut buf), Err(FatalTargetError::ConnectionLost));
    assert_eq!(c.write_addrs(0x3000, &buf), Err(FatalTargetError::ConnectionLost));
    let mut regs = Simple32Regs::default();
    assert_eq!(c.read_registers(&mut regs), Err(FatalTargetError::ConnectionLost));
    assert_eq!(c.write_registers(&regs), Err(FatalTargetError::ConnectionLost));
}

#[test]
fn ignored_signal_continues_to_exit() {
    let mut c = Controller::new(0x0, 0x20, 4);
    c.ignore_signal(5);
    let mut intr = NeverInterrupt::new();
    assert_eq!(
        c.resume(ResumeAction::ContinueWithSignal(5), &mut intr),
        Ok(StopReason::Exited(4))
    );
}

#[test]
fn caught_signal_is_raised_back() {
    let mut c = Controller::new(0x0, 0x20, 4);
    c.catch_signal(7);
    let mut intr = NeverInterrupt::new();
    assert_eq!(
        c.resume(ResumeAction::ContinueWithSignal(7), &mut intr),
        Ok(StopReason::SignalDelivered(7))
    );
    assert_eq!(c.current_pc(), 0);
    assert!(c.is_alive());
}

#[test]
fn unhandled_signal_terminates() {
    let mut c = Controller::new(0x0, 0x20, 4);
    let mut intr = NeverInterrupt::new();
    assert_eq!(
        c.resume(ResumeAction::SingleStepWithSignal(9), &mut intr),
        Ok(StopReason::Terminated(9))
    );
    assert!(!c.is_alive());
    assert_eq!(
        c.resume(ResumeAction::Continue, &mut intr),
        Err(FatalTargetError::TargetGone)
    );
}

#[test]
fn ignored_signal_single_steps() {
    let mut c = Controller::new(0x1000, 0x2000, 0);
    c.ignore_signal(2);
    let mut intr = NeverInterrupt::new();
    assert_eq!(
        c.resume(ResumeAction::SingleStepWithSignal(2), &mut intr),
        Ok(StopReason::StepCompleted)
    );
    assert_eq!(c.current_pc(), 0x1004);
}
