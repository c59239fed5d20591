//! One scan worker as a state machine.
//!
//! A worker walks its stride of ports in increasing order. It does no
//! input or output itself: each call of [`Worker::step`] moves it to its
//! next state and names the one thing its driver has to do before the next
//! call. A worker starts idle, probes each port of its stride in turn,
//! reports the port or skips it, and is done when the stride is exhausted.
//! Nothing cancels a worker and nothing leads out of its final state.

use crate::address::{Endpoint, IpAddress};
use crate::stride::{in_stride, lemma_successor_in_stride, next_port, successor, PORT_LIMIT};
use vstd::arithmetic::div_mod::lemma_small_mod;
use vstd::prelude::*;

verus! {

/// How long one connection attempt may take, in milliseconds.
pub const PROBE_TIMEOUT_MS: u64 = 300;

/// Where a worker stands.
#[derive(Clone, Copy, Debug, PartialEq, Eq, Structural)]
pub enum WorkerState {
    /// Created, nothing probed yet.
    Idle,
    /// A connection attempt to this port is under way.
    Probing(u16),
    /// This port accepted the connection and is being reported.
    Reporting(u16),
    /// This port did not accept the connection and is passed over.
    Skipping(u16),
    /// The stride is exhausted.
    Done,
}

/// What a worker's driver has to do before it steps the worker again.
#[derive(Clone, Copy, Debug, PartialEq, Eq, Structural)]
pub enum Action {
    /// Attempt one connection to this endpoint, waiting no longer than
    /// [`PROBE_TIMEOUT_MS`], and hand the outcome to the next step.
    Probe(Endpoint),
    /// Report this port as open.
    Report(u16),
    /// Nothing: this port is not open.
    Skip(u16),
    /// Stop: the worker is done.
    Finish,
}

/// A worker as a mathematical value.
pub struct WorkerView {
    /// The host that is scanned.
    pub target: IpAddress,
    /// The first port of the worker's stride.
    pub start: u16,
    /// The distance between two ports of the stride.
    pub stride: u16,
    /// Where the worker stands.
    pub state: WorkerState,
}

impl WorkerView {
    /// The stride advances, and the port that the worker is busy with lies
    /// on it.
    pub open spec fn wf(self) -> bool {
        &&& self.stride >= 1
        &&& match self.state {
            WorkerState::Probing(port) | WorkerState::Reporting(port) | WorkerState::Skipping(
                port,
            ) => in_stride(self.start as int, self.stride as int, port as int),
            WorkerState::Idle | WorkerState::Done => true,
        }
    }

    /// The same worker in another state.
    pub open spec fn at(self, state: WorkerState) -> WorkerView {
        WorkerView { state, ..self }
    }

    /// The request to probe `port` on the worker's target.
    pub open spec fn probe(self, port: u16) -> Action {
        Action::Probe(Endpoint { address: self.target, port })
    }

    /// The worker after it has dealt with `port`: it probes the next port
    /// of its stride, or is done if there is none.
    pub open spec fn advance(self, port: u16) -> (WorkerView, Action) {
        match successor(port as int, self.stride as int) {
            Some(next) => (self.at(WorkerState::Probing(next)), self.probe(next)),
            None => (self.at(WorkerState::Done), Action::Finish),
        }
    }

    /// One step of the worker: the state it moves to and the action it
    /// asks for. `open` says whether the last probe connected; it counts
    /// only while the worker is probing.
    pub open spec fn step(self, open: bool) -> (WorkerView, Action) {
        match self.state {
            WorkerState::Idle => (self.at(WorkerState::Probing(self.start)), self.probe(self.start)),
            WorkerState::Probing(port) => if open {
                (self.at(WorkerState::Reporting(port)), Action::Report(port))
            } else {
                (self.at(WorkerState::Skipping(port)), Action::Skip(port))
            },
            WorkerState::Reporting(port) | WorkerState::Skipping(port) => self.advance(port),
            WorkerState::Done => (self, Action::Finish),
        }
    }

    /// An upper bound on the number of steps that the worker still takes
    /// before it is done.
    pub open spec fn steps_left(self) -> nat {
        (match self.state {
            WorkerState::Idle => 2 * (PORT_LIMIT - self.start) + 1,
            WorkerState::Probing(port) => 2 * (PORT_LIMIT - port),
            WorkerState::Reporting(port) | WorkerState::Skipping(port) => 2 * (PORT_LIMIT - port)
                - 1,
            WorkerState::Done => 0,
        }) as nat
    }
}

/// A step keeps a worker well formed and changes nothing but its state.
pub proof fn lemma_step_keeps_stride(worker: WorkerView, open: bool)
    requires
        worker.wf(),
    ensures
        worker.step(open).0.wf(),
        worker.step(open).0 == worker.at(worker.step(open).0.state),
{
    match worker.state {
        WorkerState::Reporting(port) | WorkerState::Skipping(port) => {
            lemma_successor_in_stride(worker.start as int, worker.stride as int, port as int);
        },
        WorkerState::Idle => {
            lemma_small_mod(0, worker.stride as nat);
        },
        _ => {},
    }
}

/// Every worker finishes: each step of a worker that is not done brings
/// it closer to its final state, which it never leaves.
pub proof fn lemma_step_makes_progress(worker: WorkerView, open: bool)
    requires
        worker.wf(),
    ensures
        worker.state != WorkerState::Done ==> worker.step(open).0.steps_left()
            < worker.steps_left(),
        worker.state == WorkerState::Done ==> worker.step(open).0 == worker,
        worker.steps_left() == 0 <==> worker.state == WorkerState::Done,
{
}

/// A scan worker: a target, a stride of ports on it, and the point that
/// the worker has reached.
#[derive(Debug, PartialEq, Eq)]
pub struct Worker {
    target: IpAddress,
    start: u16,
    stride: u16,
    state: WorkerState,
}

impl View for Worker {
    type V = WorkerView;

    closed spec fn view(&self) -> WorkerView {
        WorkerView {
            target: self.target,
            start: self.start,
            stride: self.stride,
            state: self.state,
        }
    }
}

impl Worker {
    #[verifier::type_invariant]
    spec fn well_formed(self) -> bool {
        self@.wf()
    }

    /// Creates the idle worker that scans `target` on the ports `start`,
    /// `start + stride`, `start + 2 * stride`, ...
    pub fn new(target: IpAddress, start: u16, stride: u16) -> (worker: Worker)
        requires
            stride >= 1,
        ensures
            worker@ == (WorkerView { target, start, stride, state: WorkerState::Idle }),
    {
        Worker { target, start, stride, state: WorkerState::Idle }
    }

    /// Moves the worker to its next state and returns what its driver has
    /// to do now. `open` is the outcome of the probe that the last step
    /// asked for; after any other action its value does not matter.
    pub fn step(&mut self, open: bool) -> (action: Action)
        ensures
            (final(self)@, action) == old(self)@.step(open),
            old(self)@.wf(),
            final(self)@.wf(),
    {
        proof {
            use_type_invariant(&*self);
            lemma_step_keeps_stride(self@, open);
        }
        match self.state {
            WorkerState::Idle => {
                self.state = WorkerState::Probing(self.start);
                Action::Probe(Endpoint { address: self.target, port: self.start })
            },
            WorkerState::Probing(port) => {
                if open {
                    self.state = WorkerState::Reporting(port);
                    Action::Report(port)
                } else {
                    self.state = WorkerState::Skipping(port);
                    Action::Skip(port)
                }
            },
            WorkerState::Reporting(port) | WorkerState::Skipping(port) => {
                match next_port(port, self.stride) {
                    Some(next) => {
                        self.state = WorkerState::Probing(next);
                        Action::Probe(Endpoint { address: self.target, port: next })
                    },
                    None => {
                        self.state = WorkerState::Done;
                        Action::Finish
                    },
                }
            },
            WorkerState::Done => Action::Finish,
        }
    }

    /// Where the worker stands.
    pub fn state(&self) -> (state: WorkerState)
        ensures
            state == self@.state,
    {
        self.state
    }

    /// Whether the worker has exhausted its stride.
    pub fn is_done(&self) -> (done: bool)
        ensures
            done == (self@.state == WorkerState::Done),
    {
        match self.state {
            WorkerState::Done => true,
            _ => false,
        }
    }

    /// The host that the worker scans.
    pub fn target(&self) -> (target: IpAddress)
        ensures
            target == self@.target,
    {
        self.target
    }

    /// The first port of the worker's stride.
    pub fn start(&self) -> (start: u16)
        ensures
            start == self@.start,
    {
        self.start
    }

    /// The distance between two ports of the worker's stride, at least one.
    pub fn stride(&self) -> (stride: u16)
        ensures
            stride == self@.stride,
            stride >= 1,
    {
        proof {
            use_type_invariant(self);
        }
        self.stride
    }
}

} // verus!
