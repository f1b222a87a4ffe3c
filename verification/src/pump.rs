//! Decisions of the streaming pump.
//!
//! The pump pulls jobs from the session, hands each to a worker and reports one
//! outcome per job. What it does at each step is decided here; the channels and
//! the threads are the caller's.
use vstd::prelude::*;

use crate::sampler_core::SamplerResult;

verus! {

/// Why a backend refuses a job.
#[derive(Debug)]
pub enum SampleError {
    /// The job is too large for this backend.
    Capacity,
    /// The device is busy.
    DeviceBusy,
    /// The device failed; the session ends.
    DeviceFault(String),
}

impl SampleError {
    /// Whether the session cannot go on.
    pub open spec fn fatal(&self) -> bool {
        self is DeviceFault
    }

    /// Whether the session cannot go on.
    pub fn is_fatal(&self) -> (r: bool)
        ensures
            r <==> self.fatal(),
    {
        match self {
            SampleError::DeviceFault(_) => true,
            SampleError::Capacity => false,
            SampleError::DeviceBusy => false,
        }
    }
}

/// Why a kernel returned no samples.
#[derive(Debug)]
pub enum StreamKernelError {
    /// The kernel saw the cancellation point and stopped.
    Cancelled,
    /// The backend refuses the job.
    Reject(SampleError),
}

/// What is reported of a job.
#[derive(Debug)]
pub enum StreamOutcome {
    /// The job ran to its end or was refused.
    Completed(Result<Vec<SamplerResult>, SampleError>),
    /// The job was abandoned.
    Cancelled,
}

/// What a finished kernel run is reported as. `cancelled` says whether the job
/// is abandoned by the time the kernel is done.
///
/// A cancellation during the run suppresses the completion, also of a kernel
/// that never polls. It gives way to a failure that ends the session.
pub open spec fn outcome_of(
    step: Result<Vec<SamplerResult>, StreamKernelError>,
    cancelled: bool,
) -> StreamOutcome {
    match step {
        Err(StreamKernelError::Cancelled) => StreamOutcome::Cancelled,
        Ok(samples) => if cancelled {
            StreamOutcome::Cancelled
        } else {
            StreamOutcome::Completed(Ok(samples))
        },
        Err(StreamKernelError::Reject(e)) => if cancelled && !e.fatal() {
            StreamOutcome::Cancelled
        } else {
            StreamOutcome::Completed(Err(e))
        },
    }
}

/// Settle the outcome of a kernel run.
pub fn settle(step: Result<Vec<SamplerResult>, StreamKernelError>, cancelled: bool) -> (o:
    StreamOutcome)
    ensures
        o == outcome_of(step, cancelled),
{
    match step {
        Err(StreamKernelError::Cancelled) => StreamOutcome::Cancelled,
        Ok(samples) => {
            if cancelled {
                StreamOutcome::Cancelled
            } else {
                StreamOutcome::Completed(Ok(samples))
            }
        },
        Err(StreamKernelError::Reject(e)) => {
            if cancelled && !e.is_fatal() {
                StreamOutcome::Cancelled
            } else {
                StreamOutcome::Completed(Err(e))
            }
        },
    }
}

/// An abandoned job never reports samples.
pub proof fn abandoned_job_reports_no_samples(step: Result<Vec<SamplerResult>, StreamKernelError>)
    ensures
        outcome_of(step, true) matches StreamOutcome::Completed(r) ==> r is Err && r->Err_0.fatal(),
{
}

/// A live job reports exactly what its kernel returned.
pub proof fn live_job_reports_its_kernel(step: Result<Vec<SamplerResult>, StreamKernelError>)
    ensures
        step matches Ok(samples) ==> outcome_of(step, false) == StreamOutcome::Completed(
            Ok(samples),
        ),
        step matches Err(StreamKernelError::Reject(e)) ==> outcome_of(step, false)
            == StreamOutcome::Completed(Err(e)),
        step matches Err(StreamKernelError::Cancelled) ==> outcome_of(step, false)
            == StreamOutcome::Cancelled,
{
}

/// What happens at the input side of the pump.
#[derive(Debug, Clone, Copy, PartialEq, Eq, Structural)]
pub enum PumpEvent {
    /// A job came in; `cancelled` says whether it is already abandoned.
    Job {
        /// Whether the job is abandoned.
        cancelled: bool,
    },
    /// The session closed the input.
    InputClosed,
    /// The session no longer takes outcomes.
    OutputClosed,
    /// No worker takes jobs any more.
    WorkersGone,
}

/// What the pump does next.
#[derive(Debug, Clone, Copy, PartialEq, Eq, Structural)]
pub enum PumpAction {
    /// Hand the job to a worker.
    Dispatch,
    /// Report the job as cancelled, with no device time.
    ReportCancelled,
    /// Close the hand-off and wait for the workers.
    Drain,
}

/// The state of the pump.
#[derive(Debug, Clone, Copy, PartialEq, Eq, Structural)]
pub struct Pump {
    /// Workers that were started; `None` before the first job.
    width: Option<usize>,
    /// Whether jobs are still taken.
    open: bool,
}

impl Pump {
    /// Workers that were started.
    pub closed spec fn workers(&self) -> Option<usize> {
        self.width
    }

    /// Whether jobs are still taken.
    pub closed spec fn is_open(&self) -> bool {
        self.open
    }

    /// Started workers are never 0.
    pub closed spec fn wf(&self) -> bool {
        self.width matches Some(w) ==> w >= 1
    }

    /// A pump that waits for its first job.
    pub fn new() -> (p: Self)
        ensures
            p.wf(),
            p.workers() is None,
            p.is_open(),
    {
        Pump { width: None, open: true }
    }

    /// Take one event. `width` is the stream width at that moment; it counts at
    /// the first job only, after the settings of the session have arrived.
    pub fn step(&mut self, event: PumpEvent, width: usize) -> (a: PumpAction)
        requires
            old(self).wf(),
        ensures
            final(self).wf(),
            !old(self).is_open() ==> a == PumpAction::Drain && *final(self) == *old(self),
            old(self).is_open() ==> match event {
                PumpEvent::Job { cancelled } => {
                    &&& final(self).is_open()
                    &&& final(self).workers() == Some(
                        match old(self).workers() {
                            Some(w) => w,
                            None => if width == 0 {
                                1
                            } else {
                                width
                            },
                        },
                    )
                    &&& a == if cancelled {
                        PumpAction::ReportCancelled
                    } else {
                        PumpAction::Dispatch
                    }
                },
                _ => {
                    &&& !final(self).is_open()
                    &&& final(self).workers() == old(self).workers()
                    &&& a == PumpAction::Drain
                },
            },
    {
        if !self.open {
            return PumpAction::Drain;
        }
        match event {
            PumpEvent::Job { cancelled } => {
                if self.width.is_none() {
                    self.width = Some(
                        if width == 0 {
                            1
                        } else {
                            width
                        },
                    );
                }
                if cancelled {
                    PumpAction::ReportCancelled
                } else {
                    PumpAction::Dispatch
                }
            },
            _ => {
                self.open = false;
                PumpAction::Drain
            },
        }
    }

    /// Workers that were started, 0 before the first job.
    pub fn width(&self) -> (w: usize)
        ensures
            w == match self.workers() {
                Some(w) => w,
                None => 0,
            },
    {
        match self.width {
            Some(w) => w,
            None => 0,
        }
    }
}

} // verus!
