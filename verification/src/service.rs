//! How the daemon behaves as a Windows service.

use vstd::prelude::*;

verus! {

/// How long WinFsp is waited for when the service starts, in milliseconds.
pub const WINFSP_WAIT_TIMEOUT_MS: u64 = 60000;

/// How long to wait between attempts, in milliseconds.
pub const WINFSP_POLL_INTERVAL_MS: u64 = 500;

/// The states that a service reports.
#[derive(Debug, Clone, Copy, PartialEq, Eq, Structural)]
pub enum Phase {
    StartPending,
    Running,
    Stopped,
}

/// What a service reports of itself.
#[derive(Debug, Clone, Copy, PartialEq, Eq, Structural)]
pub struct StatusReport {
    pub phase: Phase,
    /// Whether a request to stop is accepted.
    pub accepts_stop: bool,
    /// The exit code that is the service's own, or 0.
    pub service_code: u32,
    pub checkpoint: u32,
    pub wait_hint_ms: u64,
}

/// What comes of an attempt to load WinFsp.
#[derive(Debug, Clone, Copy, PartialEq, Eq, Structural)]
pub enum WaitStep {
    /// WinFsp is there.
    Ready,
    /// Report this, and fail.
    GiveUp(StatusReport),
    /// Report this, and try again after the poll interval.
    Again(StatusReport),
}

/// The report of a service in one of its settled states.
pub open spec fn settled_report(phase: Phase, service_code: u32) -> StatusReport {
    StatusReport {
        phase,
        accepts_stop: phase == Phase::Running,
        service_code,
        checkpoint: 0,
        wait_hint_ms: 0,
    }
}

/// The report of a service in one of its settled states. Only a running
/// service accepts a request to stop.
pub fn report(phase: Phase, service_code: u32) -> (r: StatusReport)
    ensures
        r == settled_report(phase, service_code),
{
    StatusReport {
        phase,
        accepts_stop: phase == Phase::Running,
        service_code,
        checkpoint: 0,
        wait_hint_ms: 0,
    }
}

/// What to do after an attempt to load WinFsp, `elapsed_ms` after the start
/// and with `checkpoint` attempts behind it.
pub open spec fn waited(available: bool, elapsed_ms: u64, checkpoint: u32) -> WaitStep {
    if available {
        WaitStep::Ready
    } else if elapsed_ms >= WINFSP_WAIT_TIMEOUT_MS {
        WaitStep::GiveUp(settled_report(Phase::Stopped, 1))
    } else {
        WaitStep::Again(
            StatusReport {
                phase: Phase::StartPending,
                accepts_stop: false,
                service_code: 0,
                checkpoint: (checkpoint + 1) as u32,
                wait_hint_ms: WINFSP_WAIT_TIMEOUT_MS,
            },
        )
    }
}

/// What to do after an attempt to load WinFsp, `elapsed_ms` after the start
/// and with `checkpoint` attempts behind it.
pub fn wait_step(available: bool, elapsed_ms: u64, checkpoint: u32) -> (s: WaitStep)
    requires
        checkpoint < u32::MAX,
    ensures
        s == waited(available, elapsed_ms, checkpoint),
{
    if available {
        return WaitStep::Ready;
    }
    if elapsed_ms >= WINFSP_WAIT_TIMEOUT_MS {
        return WaitStep::GiveUp(report(Phase::Stopped, 1));
    }
    WaitStep::Again(
        StatusReport {
            phase: Phase::StartPending,
            accepts_stop: false,
            service_code: 0,
            checkpoint: checkpoint + 1,
            wait_hint_ms: WINFSP_WAIT_TIMEOUT_MS,
        },
    )
}

/// Requests that the service manager makes.
#[derive(Debug, Clone, Copy, PartialEq, Eq, Structural)]
pub enum Control {
    Stop,
    Interrogate,
    Other,
}

/// Whether a request is handled.
pub open spec fn handled(control: Control) -> bool {
    control != Control::Other
}

/// Whether a service has to be stopped before it can be removed.
pub open spec fn stopped_first(phase: Phase) -> bool {
    phase != Phase::Stopped
}

/// Whether a request is handled. A handled request ends the service.
pub fn handles(control: Control) -> (b: bool)
    ensures
        b == handled(control),
{
    match control {
        Control::Stop => true,
        Control::Interrogate => true,
        Control::Other => false,
    }
}

/// Whether a service has to be stopped before it can be removed.
pub fn must_stop_first(phase: Phase) -> (b: bool)
    ensures
        b == stopped_first(phase),
{
    match phase {
        Phase::Stopped => false,
        _ => true,
    }
}

/// The service waits for WinFsp for a minute. Meanwhile it reports that it is
/// starting, with every attempt counted and a minute as the hint, and then that
/// it has stopped with its own exit code 1.
pub proof fn law_service_waits_for_a_minute(elapsed_ms: u64, checkpoint: u32)
    requires
        checkpoint < u32::MAX,
    ensures
        waited(true, elapsed_ms, checkpoint) is Ready,
        elapsed_ms < 60000 ==> (waited(false, elapsed_ms, checkpoint) matches WaitStep::Again(r) && {
            &&& r.phase is StartPending
            &&& !r.accepts_stop
            &&& r.service_code == 0
            &&& r.checkpoint == checkpoint + 1
            &&& r.wait_hint_ms == 60000
        }),
        elapsed_ms >= 60000 ==> (waited(false, elapsed_ms, checkpoint) matches WaitStep::GiveUp(r)
            && {
            &&& r.phase is Stopped
            &&& !r.accepts_stop
            &&& r.service_code == 1
            &&& r.checkpoint == 0
            &&& r.wait_hint_ms == 0
        }),
        WINFSP_POLL_INTERVAL_MS == 500,
{
}

/// Only a running service accepts a request to stop.
pub proof fn law_only_running_services_stop(phase: Phase, code: u32)
    ensures
        settled_report(phase, code).accepts_stop <==> phase is Running,
        settled_report(phase, code).phase == phase,
        settled_report(phase, code).service_code == code,
{
}

/// Requests to stop and to report are handled, and no others. Only a service
/// that has stopped need not be stopped before it is removed.
pub proof fn law_requests(control: Control, phase: Phase)
    ensures
        handled(control) <==> control is Stop || control is Interrogate,
        stopped_first(phase) <==> !(phase is Stopped),
{
}

} // verus!
