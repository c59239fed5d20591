//! A scan as a whole: the workers that share the port space, and what they
//! probe and report however their steps interleave.
//!
//! The workers of a scan run concurrently and share nothing. [`Scan`]
//! describes every such run as a sequence of turns, each of them one step
//! of one worker, in any order and with any probe outcomes.

use crate::address::IpAddress;
use crate::stride::{
    in_stride,
    lemma_stride_owner,
    lemma_stride_partition,
    lemma_successor_in_stride,
    PORT_LIMIT,
};
use crate::worker::{lemma_step_keeps_stride, Action, Worker, WorkerState, WorkerView};
use vstd::arithmetic::div_mod::lemma_small_mod;
use vstd::prelude::*;
use vstd::set_lib::{lemma_int_range, lemma_len_subset, set_int_range};

verus! {

/// A scan between two steps of its workers.
pub struct Scan {
    /// The workers, each at the point that it has reached.
    pub workers: Seq<WorkerView>,
    /// The ports that the workers have asked to probe so far, in the order
    /// in which they asked.
    pub probes: Seq<u16>,
    /// The ports that the workers have reported so far, in the order in
    /// which they reported them.
    pub reports: Seq<u16>,
}

/// One turn of a scan: the index of the worker that steps, and the probe
/// outcome that it is handed.
pub type Turn = (int, bool);

impl Scan {
    /// The scan of `target` by `count` idle workers. Worker `i` starts at
    /// port `i`, and every stride is `count` wide.
    pub open spec fn start(target: IpAddress, count: u16) -> Scan {
        Scan {
            workers: Seq::new(
                count as nat,
                |i: int|
                    WorkerView { target, start: i as u16, stride: count, state: WorkerState::Idle },
            ),
            probes: Seq::empty(),
            reports: Seq::empty(),
        }
    }

    /// The scan after worker `index` has taken one step with the probe
    /// outcome `open`. A turn of a worker that does not exist changes
    /// nothing.
    pub open spec fn turn(self, index: int, open: bool) -> Scan {
        if 0 <= index < self.workers.len() {
            let (worker, action) = self.workers[index].step(open);
            Scan {
                workers: self.workers.update(index, worker),
                probes: match action {
                    Action::Probe(endpoint) => self.probes.push(endpoint.port),
                    _ => self.probes,
                },
                reports: match action {
                    Action::Report(port) => self.reports.push(port),
                    _ => self.reports,
                },
            }
        } else {
            self
        }
    }

    /// The scan of `target` by `count` workers after the turns of
    /// `schedule`, taken in order.
    pub open spec fn run(target: IpAddress, count: u16, schedule: Seq<Turn>) -> Scan
        decreases schedule.len(),
    {
        if schedule.len() == 0 {
            Scan::start(target, count)
        } else {
            Scan::run(target, count, schedule.drop_last()).turn(
                schedule.last().0,
                schedule.last().1,
            )
        }
    }

    /// Whether the probe outcomes of `schedule` tell the truth about
    /// `open`, the set of ports that accept a connection: each time that a
    /// probing worker steps, it is handed whether its port is in `open`.
    pub open spec fn truthful(
        target: IpAddress,
        count: u16,
        schedule: Seq<Turn>,
        open: Set<u16>,
    ) -> bool
        decreases schedule.len(),
    {
        schedule.len() == 0 || {
            let before = Scan::run(target, count, schedule.drop_last());
            let (index, outcome) = schedule.last();
            &&& Scan::truthful(target, count, schedule.drop_last(), open)
            &&& 0 <= index < before.workers.len() ==> (before.workers[index].state matches WorkerState::Probing(
                port,
            ) ==> outcome == open.contains(port))
        }
    }

    /// Whether every worker is done.
    pub open spec fn finished(self) -> bool {
        forall|i: int| 0 <= i < self.workers.len() ==> (#[trigger] self.workers[i]).state
            == WorkerState::Done
    }
}

/// Whether the ports of each of `count` strides stand in increasing order
/// in `ports`, whatever lies between them.
pub open spec fn ascending_by_stride(ports: Seq<u16>, count: int) -> bool {
    forall|i: int, a: int, b: int|
        0 <= i < count && 0 <= a < b < ports.len() && #[trigger] in_stride(
            i,
            count,
            ports[a] as int,
        ) && #[trigger] in_stride(i, count, ports[b] as int) ==> ports[a] < ports[b]
}

/// The bound below which a worker in `state` has asked for every port of
/// its stride, and at or above which it has asked for none.
spec fn probe_bound(state: WorkerState) -> int {
    match state {
        WorkerState::Idle => 0,
        WorkerState::Probing(port) | WorkerState::Reporting(port) | WorkerState::Skipping(port) => port
            + 1,
        WorkerState::Done => PORT_LIMIT as int,
    }
}

/// The bound below which all reports of a worker in `state` lie.
spec fn report_bound(state: WorkerState) -> int {
    match state {
        WorkerState::Idle => 0,
        WorkerState::Probing(port) | WorkerState::Skipping(port) => port as int,
        WorkerState::Reporting(port) => port + 1,
        WorkerState::Done => PORT_LIMIT as int,
    }
}

/// The bound below which a worker in `state` has learnt of every port of
/// its stride whether it is open.
spec fn verdict_bound(state: WorkerState) -> int {
    match state {
        WorkerState::Idle => 0,
        WorkerState::Probing(port) => port as int,
        WorkerState::Reporting(port) | WorkerState::Skipping(port) => port + 1,
        WorkerState::Done => PORT_LIMIT as int,
    }
}

impl Scan {
    /// Every reported port is open, every open port below the bound of the
    /// worker that owns it has been reported, and no open port is skipped.
    spec fn verdicts_kept(self, open: Set<u16>) -> bool {
        let count = self.workers.len() as int;
        &&& forall|k: int| 0 <= k < self.reports.len() ==> open.contains(#[trigger] self.reports[k])
        &&& forall|i: int, port: u16|
            0 <= i < count && #[trigger] in_stride(i, count, port as int) && open.contains(port)
                && port < verdict_bound(self.workers[i].state) ==> self.reports.contains(port)
        &&& forall|i: int|
            0 <= i < count ==> ((#[trigger] self.workers[i]).state matches WorkerState::Skipping(
                port,
            ) ==> !open.contains(port))
    }

    /// The workers are those that the scan started with, each somewhere on
    /// its own stride.
    spec fn crew_kept(self, target: IpAddress, count: u16) -> bool {
        &&& count >= 1
        &&& self.workers.len() == count
        &&& forall|i: int|
            0 <= i < count ==> {
                &&& (#[trigger] self.workers[i]).wf()
                &&& self.workers[i] == Scan::start(target, count).workers[i].at(
                    self.workers[i].state,
                )
            }
    }

    /// No port was asked for twice, and each worker has asked for exactly
    /// the ports of its stride that lie below its bound.
    spec fn probes_kept(self) -> bool {
        let count = self.workers.len() as int;
        &&& self.probes.no_duplicates()
        &&& forall|i: int, k: int|
            0 <= i < count && 0 <= k < self.probes.len() && in_stride(
                i,
                count,
                #[trigger] self.probes[k] as int,
            ) ==> self.probes[k] < probe_bound((#[trigger] self.workers[i]).state)
        &&& forall|i: int, port: u16|
            0 <= i < count && #[trigger] in_stride(i, count, port as int) && port < probe_bound(
                self.workers[i].state,
            ) ==> self.probes.contains(port)
    }

    /// No port was reported twice, each report lies below the bound of the
    /// worker that owns the port, and nothing was reported that was not
    /// asked for.
    spec fn reports_kept(self) -> bool {
        let count = self.workers.len() as int;
        &&& self.reports.no_duplicates()
        &&& forall|i: int, k: int|
            0 <= i < count && 0 <= k < self.reports.len() && in_stride(
                i,
                count,
                #[trigger] self.reports[k] as int,
            ) ==> self.reports[k] < report_bound((#[trigger] self.workers[i]).state)
        &&& forall|k: int|
            0 <= k < self.reports.len() ==> self.probes.contains(#[trigger] self.reports[k])
    }

    /// What holds of a scan at every moment.
    spec fn consistent(self, target: IpAddress, count: u16) -> bool {
        &&& self.crew_kept(target, count)
        &&& self.probes_kept()
        &&& self.reports_kept()
    }
}

/// A port lies on the stride of one worker only.
proof fn lemma_one_owner(count: int, i: int, j: int, port: int)
    requires
        0 <= i < count,
        0 <= j < count,
        in_stride(i, count, port),
        in_stride(j, count, port),
    ensures
        i == j,
{
    lemma_stride_owner(count, i, port);
    lemma_stride_owner(count, j, port);
}

/// A worker's first port lies on its stride.
proof fn lemma_start_in_stride(count: int, i: int)
    requires
        0 <= i < count,
        i < PORT_LIMIT,
    ensures
        in_stride(i, count, i),
{
    lemma_small_mod(0, count as nat);
}

/// A turn keeps a scan consistent.
proof fn lemma_turn_consistent(scan: Scan, target: IpAddress, count: u16, index: int, open: bool)
    requires
        scan.consistent(target, count),
    ensures
        scan.turn(index, open).consistent(target, count),
{
    if 0 <= index < count {
        let n = count as int;
        let before = scan.workers[index];
        let after = scan.turn(index, open);
        let (worker, action) = before.step(open);
        lemma_step_keeps_stride(before, open);
        assert(after.workers[index] == worker);
        assert(after.crew_kept(target, count)) by {
            assert forall|i: int| 0 <= i < count implies {
                &&& (#[trigger] after.workers[i]).wf()
                &&& after.workers[i] == Scan::start(target, count).workers[i].at(
                    after.workers[i].state,
                )
            } by {
                if i != index {
                    assert(after.workers[i] == scan.workers[i]);
                }
            }
        }
        match action {
            Action::Probe(endpoint) => {
                let port = endpoint.port;
                assert(in_stride(index, n, port as int)) by {
                    lemma_start_in_stride(n, index);
                }
                assert(worker.state == WorkerState::Probing(port));
                assert(after.probes == scan.probes.push(port));
                assert(after.reports == scan.reports);
                // Nothing of this stride lies between the worker's old bound and the new port.
                assert forall|other: u16|
                    in_stride(index, n, other as int) && other < port implies other < probe_bound(
                    before.state,
                ) by {
                    match before.state {
                        WorkerState::Reporting(last) | WorkerState::Skipping(last) => {
                            lemma_successor_in_stride(index, n, last as int);
                        },
                        _ => {},
                    }
                }
                assert(probe_bound(before.state) <= port);
                assert(report_bound(before.state) <= port);
                assert forall|k: int| 0 <= k < scan.probes.len() implies scan.probes[k]
                    != port by {
                    assert(scan.workers[index] == before);
                }
                assert(after.probes.no_duplicates());
                assert forall|i: int, k: int|
                    0 <= i < n && 0 <= k < after.probes.len() && in_stride(
                        i,
                        n,
                        #[trigger] after.probes[k] as int,
                    ) implies after.probes[k] < probe_bound((#[trigger] after.workers[i]).state) by {
                    if k < scan.probes.len() {
                        assert(after.probes[k] == scan.probes[k]);
                        if i == index {
                            assert(scan.probes[k] < probe_bound(scan.workers[index].state));
                        } else {
                            assert(after.workers[i] == scan.workers[i]);
                        }
                    } else {
                        lemma_one_owner(n, i, index, port as int);
                    }
                }
                assert forall|i: int, other: u16|
                    0 <= i < n && #[trigger] in_stride(i, n, other as int) && other < probe_bound(
                        after.workers[i].state,
                    ) implies after.probes.contains(other) by {
                    if i == index && other == port {
                        assert(after.probes[scan.probes.len() as int] == port);
                    } else {
                        if i != index {
                            assert(after.workers[i] == scan.workers[i]);
                        }
                        assert(scan.probes.contains(other));
                        let k = choose|k: int| 0 <= k < scan.probes.len() && scan.probes[k] == other;
                        assert(after.probes[k] == other);
                    }
                }
                assert forall|i: int, k: int|
                    0 <= i < n && 0 <= k < after.reports.len() && in_stride(
                        i,
                        n,
                        #[trigger] after.reports[k] as int,
                    ) implies after.reports[k] < report_bound(
                    (#[trigger] after.workers[i]).state,
                ) by {
                    if i == index {
                        assert(scan.reports[k] < report_bound(scan.workers[index].state));
                    } else {
                        assert(after.workers[i] == scan.workers[i]);
                    }
                }
                assert forall|k: int| 0 <= k < after.reports.len() implies after.probes.contains(
                    #[trigger] after.reports[k],
                ) by {
                    assert(scan.probes.contains(scan.reports[k]));
                    let j = choose|j: int| 0 <= j < scan.probes.len() && scan.probes[j]
                        == scan.reports[k];
                    assert(after.probes[j] == scan.reports[k]);
                }
            },
            Action::Report(port) => {
                assert(before.state == WorkerState::Probing(port));
                assert(worker.state == WorkerState::Reporting(port));
                assert(in_stride(index, n, port as int));
                assert(after.probes == scan.probes);
                assert(after.reports == scan.reports.push(port));
                assert forall|k: int| 0 <= k < scan.reports.len() implies scan.reports[k]
                    != port by {
                    assert(scan.workers[index] == before);
                }
                assert(after.reports.no_duplicates());
                assert forall|i: int, k: int|
                    0 <= i < n && 0 <= k < after.probes.len() && in_stride(
                        i,
                        n,
                        #[trigger] after.probes[k] as int,
                    ) implies after.probes[k] < probe_bound((#[trigger] after.workers[i]).state) by {
                    if i == index {
                        assert(scan.probes[k] < probe_bound(scan.workers[index].state));
                    } else {
                        assert(after.workers[i] == scan.workers[i]);
                    }
                }
                assert forall|i: int, other: u16|
                    0 <= i < n && #[trigger] in_stride(i, n, other as int) && other < probe_bound(
                        after.workers[i].state,
                    ) implies after.probes.contains(other) by {
                    if i == index {
                        assert(other < probe_bound(scan.workers[index].state));
                    } else {
                        assert(after.workers[i] == scan.workers[i]);
                    }
                }
                assert forall|i: int, k: int|
                    0 <= i < n && 0 <= k < after.reports.len() && in_stride(
                        i,
                        n,
                        #[trigger] after.reports[k] as int,
                    ) implies after.reports[k] < report_bound(
                    (#[trigger] after.workers[i]).state,
                ) by {
                    if k < scan.reports.len() {
                        assert(after.reports[k] == scan.reports[k]);
                        if i == index {
                            assert(scan.reports[k] < report_bound(scan.workers[index].state));
                        } else {
                            assert(after.workers[i] == scan.workers[i]);
                        }
                    } else {
                        lemma_one_owner(n, i, index, port as int);
                    }
                }
                assert forall|k: int| 0 <= k < after.reports.len() implies after.probes.contains(
                    #[trigger] after.reports[k],
                ) by {
                    if k < scan.reports.len() {
                        assert(after.reports[k] == scan.reports[k]);
                    } else {
                        assert(port < probe_bound(scan.workers[index].state));
                    }
                }
            },
            Action::Skip(_) | Action::Finish => {
                assert(after.probes == scan.probes);
                assert(after.reports == scan.reports);
                assert(probe_bound(before.state) <= probe_bound(worker.state));
                assert(report_bound(before.state) <= report_bound(worker.state));
                assert forall|other: u16|
                    in_stride(index, n, other as int) && other < probe_bound(
                        worker.state,
                    ) implies other < probe_bound(before.state) by {
                    match before.state {
                        WorkerState::Reporting(last) | WorkerState::Skipping(last) => {
                            lemma_successor_in_stride(index, n, last as int);
                        },
                        _ => {},
                    }
                }
                assert forall|i: int, k: int|
                    0 <= i < n && 0 <= k < after.probes.len() && in_stride(
                        i,
                        n,
                        #[trigger] after.probes[k] as int,
                    ) implies after.probes[k] < probe_bound((#[trigger] after.workers[i]).state) by {
                    if i == index {
                        assert(scan.probes[k] < probe_bound(scan.workers[index].state));
                    } else {
                        assert(after.workers[i] == scan.workers[i]);
                    }
                }
                assert forall|i: int, other: u16|
                    0 <= i < n && #[trigger] in_stride(i, n, other as int) && other < probe_bound(
                        after.workers[i].state,
                    ) implies after.probes.contains(other) by {
                    if i == index {
                        assert(other < probe_bound(scan.workers[index].state));
                    } else {
                        assert(after.workers[i] == scan.workers[i]);
                    }
                }
                assert forall|i: int, k: int|
                    0 <= i < n && 0 <= k < after.reports.len() && in_stride(
                        i,
                        n,
                        #[trigger] after.reports[k] as int,
                    ) implies after.reports[k] < report_bound(
                    (#[trigger] after.workers[i]).state,
                ) by {
                    if i == index {
                        assert(scan.reports[k] < report_bound(scan.workers[index].state));
                    } else {
                        assert(after.workers[i] == scan.workers[i]);
                    }
                }
            },
        }
    }
}

/// A turn keeps the probes and the reports of each stride in increasing
/// order.
proof fn lemma_turn_ascending(scan: Scan, target: IpAddress, count: u16, index: int, open: bool)
    requires
        scan.consistent(target, count),
        ascending_by_stride(scan.probes, count as int),
        ascending_by_stride(scan.reports, count as int),
    ensures
        ascending_by_stride(scan.turn(index, open).probes, count as int),
        ascending_by_stride(scan.turn(index, open).reports, count as int),
{
    if 0 <= index < count {
        let n = count as int;
        let before = scan.workers[index];
        let after = scan.turn(index, open);
        let (worker, action) = before.step(open);
        lemma_step_keeps_stride(before, open);
        match action {
            Action::Probe(endpoint) => {
                let port = endpoint.port;
                assert(after.probes == scan.probes.push(port));
                assert(probe_bound(before.state) <= port);
                assert forall|i: int, a: int, b: int|
                    0 <= i < n && 0 <= a < b < after.probes.len() && #[trigger] in_stride(
                        i,
                        n,
                        after.probes[a] as int,
                    ) && #[trigger] in_stride(
                        i,
                        n,
                        after.probes[b] as int,
                    ) implies after.probes[a] < after.probes[b] by {
                    assert(after.probes[a] == scan.probes[a]);
                    if b < scan.probes.len() {
                        assert(after.probes[b] == scan.probes[b]);
                    } else {
                        lemma_start_in_stride(n, index);
                        lemma_one_owner(n, i, index, port as int);
                        assert(scan.probes[a] < probe_bound(scan.workers[index].state));
                    }
                }
            },
            Action::Report(port) => {
                assert(after.reports == scan.reports.push(port));
                assert(report_bound(before.state) <= port);
                assert forall|i: int, a: int, b: int|
                    0 <= i < n && 0 <= a < b < after.reports.len() && #[trigger] in_stride(
                        i,
                        n,
                        after.reports[a] as int,
                    ) && #[trigger] in_stride(
                        i,
                        n,
                        after.reports[b] as int,
                    ) implies after.reports[a] < after.reports[b] by {
                    assert(after.reports[a] == scan.reports[a]);
                    if b < scan.reports.len() {
                        assert(after.reports[b] == scan.reports[b]);
                    } else {
                        lemma_one_owner(n, i, index, port as int);
                        assert(scan.reports[a] < report_bound(scan.workers[index].state));
                    }
                }
            },
            Action::Skip(_) | Action::Finish => {},
        }
    }
}

/// Every scan is consistent, whatever its schedule.
proof fn lemma_run_consistent(target: IpAddress, count: u16, schedule: Seq<Turn>)
    requires
        count >= 1,
    ensures
        Scan::run(target, count, schedule).consistent(target, count),
    decreases schedule.len(),
{
    if schedule.len() == 0 {
    } else {
        lemma_run_consistent(target, count, schedule.drop_last());
        lemma_turn_consistent(
            Scan::run(target, count, schedule.drop_last()),
            target,
            count,
            schedule.last().0,
            schedule.last().1,
        );
    }
}

/// A turn that tells the truth keeps the reports of a scan in step with
/// the open ports.
proof fn lemma_turn_truthful(
    scan: Scan,
    target: IpAddress,
    count: u16,
    index: int,
    outcome: bool,
    open: Set<u16>,
)
    requires
        scan.consistent(target, count),
        scan.verdicts_kept(open),
        0 <= index < count ==> (scan.workers[index].state matches WorkerState::Probing(port)
            ==> outcome == open.contains(port)),
    ensures
        scan.turn(index, outcome).verdicts_kept(open),
{
    if 0 <= index < count {
        let n = count as int;
        let before = scan.workers[index];
        let after = scan.turn(index, outcome);
        let (worker, action) = before.step(outcome);
        lemma_step_keeps_stride(before, outcome);
        assert(after.workers[index] == worker);
        assert forall|i: int| 0 <= i < n implies ((#[trigger] after.workers[i]).state matches WorkerState::Skipping(
            port,
        ) ==> !open.contains(port)) by {
            if i != index {
                assert(after.workers[i] == scan.workers[i]);
            }
        }
        // Below its new bound the worker has no open port that it had not below the old one,
        // but for the port that it reports in this turn.
        assert forall|other: u16|
            in_stride(index, n, other as int) && open.contains(other) && other < verdict_bound(
                worker.state,
            ) implies other < verdict_bound(before.state) || action == Action::Report(other) by {
            match before.state {
                WorkerState::Reporting(last) | WorkerState::Skipping(last) => {
                    lemma_successor_in_stride(index, n, last as int);
                },
                _ => {},
            }
        }
        assert forall|k: int| 0 <= k < after.reports.len() implies open.contains(
            #[trigger] after.reports[k],
        ) by {
            if k < scan.reports.len() {
                assert(after.reports[k] == scan.reports[k]);
            }
        }
        assert forall|i: int, other: u16|
            0 <= i < n && #[trigger] in_stride(i, n, other as int) && open.contains(other) && other
                < verdict_bound(after.workers[i].state) implies after.reports.contains(other) by {
            if i == index && action == Action::Report(other) {
                assert(after.reports[scan.reports.len() as int] == other);
            } else {
                if i != index {
                    assert(after.workers[i] == scan.workers[i]);
                }
                assert(scan.reports.contains(other));
                let k = choose|k: int| 0 <= k < scan.reports.len() && scan.reports[k] == other;
                assert(after.reports[k] == other);
            }
        }
    }
}

/// A scan whose probes tell the truth has its reports in step with the
/// open ports.
proof fn lemma_run_truthful(target: IpAddress, count: u16, schedule: Seq<Turn>, open: Set<u16>)
    requires
        count >= 1,
        Scan::truthful(target, count, schedule, open),
    ensures
        Scan::run(target, count, schedule).verdicts_kept(open),
    decreases schedule.len(),
{
    if schedule.len() == 0 {
    } else {
        lemma_run_truthful(target, count, schedule.drop_last(), open);
        lemma_run_consistent(target, count, schedule.drop_last());
        lemma_turn_truthful(
            Scan::run(target, count, schedule.drop_last()),
            target,
            count,
            schedule.last().0,
            schedule.last().1,
            open,
        );
    }
}

/// A sequence of ports without repetition is no longer than the port space.
pub proof fn lemma_distinct_ports_bounded(ports: Seq<u16>)
    requires
        ports.no_duplicates(),
    ensures
        ports.len() <= PORT_LIMIT,
{
    let numbers = ports.map_values(|port: u16| port as int);
    assert(numbers.no_duplicates());
    numbers.unique_seq_to_set();
    lemma_int_range(0, PORT_LIMIT as int);
    assert(numbers.to_set().subset_of(set_int_range(0, PORT_LIMIT as int))) by {
        assert forall|number: int| numbers.to_set().contains(number) implies set_int_range(
            0,
            PORT_LIMIT as int,
        ).contains(number) by {
            let k = choose|k: int| 0 <= k < numbers.len() && numbers[k] == number;
            assert(numbers[k] == ports[k] as int);
        }
    }
    lemma_len_subset(numbers.to_set(), set_int_range(0, PORT_LIMIT as int));
}

/// No duplicate reports: however the steps of the workers interleave and
/// whatever the probes find, no port is reported twice, and none is probed
/// twice.
pub proof fn lemma_reports_distinct(target: IpAddress, count: u16, schedule: Seq<Turn>)
    requires
        count >= 1,
    ensures
        Scan::run(target, count, schedule).reports.no_duplicates(),
        Scan::run(target, count, schedule).probes.no_duplicates(),
{
    lemma_run_consistent(target, count, schedule);
}

/// Bounded cardinality: a scan never reports more ports than there are,
/// nor probes more.
pub proof fn lemma_reports_bounded(target: IpAddress, count: u16, schedule: Seq<Turn>)
    requires
        count >= 1,
    ensures
        Scan::run(target, count, schedule).reports.len() <= PORT_LIMIT,
        Scan::run(target, count, schedule).probes.len() <= PORT_LIMIT,
{
    lemma_run_consistent(target, count, schedule);
    lemma_distinct_ports_bounded(Scan::run(target, count, schedule).reports);
    lemma_distinct_ports_bounded(Scan::run(target, count, schedule).probes);
}

/// Each worker probes the ports of its stride in increasing order, and
/// reports them in that order too. Nothing is said of the order between
/// the ports of two workers.
pub proof fn lemma_strides_ascend(target: IpAddress, count: u16, schedule: Seq<Turn>)
    requires
        count >= 1,
    ensures
        ascending_by_stride(Scan::run(target, count, schedule).probes, count as int),
        ascending_by_stride(Scan::run(target, count, schedule).reports, count as int),
    decreases schedule.len(),
{
    if schedule.len() == 0 {
    } else {
        lemma_strides_ascend(target, count, schedule.drop_last());
        lemma_run_consistent(target, count, schedule.drop_last());
        lemma_turn_ascending(
            Scan::run(target, count, schedule.drop_last()),
            target,
            count,
            schedule.last().0,
            schedule.last().1,
        );
    }
}

/// Only probed ports are reported.
pub proof fn lemma_reports_were_probed(
    target: IpAddress,
    count: u16,
    schedule: Seq<Turn>,
    port: u16,
)
    requires
        count >= 1,
        Scan::run(target, count, schedule).reports.contains(port),
    ensures
        Scan::run(target, count, schedule).probes.contains(port),
{
    lemma_run_consistent(target, count, schedule);
}

/// No missed probes: once every worker is done, every port has been
/// probed.
pub proof fn lemma_finished_scan_probed_all(
    target: IpAddress,
    count: u16,
    schedule: Seq<Turn>,
    port: u16,
)
    requires
        count >= 1,
        Scan::run(target, count, schedule).finished(),
    ensures
        Scan::run(target, count, schedule).probes.contains(port),
{
    let scan = Scan::run(target, count, schedule);
    lemma_run_consistent(target, count, schedule);
    lemma_stride_partition(count as int, port as int);
    let owner = port as int % count as int;
    assert(scan.workers[owner].state == WorkerState::Done);
    assert(in_stride(owner, count as int, port as int));
}

/// Where the probes tell the truth, only open ports are reported.
pub proof fn lemma_reports_are_open(
    target: IpAddress,
    count: u16,
    schedule: Seq<Turn>,
    open: Set<u16>,
    port: u16,
)
    requires
        count >= 1,
        Scan::truthful(target, count, schedule, open),
        Scan::run(target, count, schedule).reports.contains(port),
    ensures
        open.contains(port),
{
    lemma_run_truthful(target, count, schedule, open);
}

/// Where the probes tell the truth, a scan whose workers are all done has
/// reported every open port, each of them once, and nothing else.
pub proof fn lemma_finished_scan_reports_open(
    target: IpAddress,
    count: u16,
    schedule: Seq<Turn>,
    open: Set<u16>,
)
    requires
        count >= 1,
        Scan::truthful(target, count, schedule, open),
        Scan::run(target, count, schedule).finished(),
    ensures
        Scan::run(target, count, schedule).reports.to_set() == open,
        Scan::run(target, count, schedule).reports.no_duplicates(),
{
    let scan = Scan::run(target, count, schedule);
    lemma_run_consistent(target, count, schedule);
    lemma_run_truthful(target, count, schedule, open);
    assert forall|port: u16| open.contains(port) implies scan.reports.contains(port) by {
        lemma_stride_partition(count as int, port as int);
        let owner = port as int % count as int;
        assert(scan.workers[owner].state == WorkerState::Done);
        assert(in_stride(owner, count as int, port as int));
    }
    assert(scan.reports.to_set() =~= open);
}

/// Creates the workers of a scan of `target`: `count` of them, all idle,
/// worker `i` with the stride that starts at port `i` and is `count` wide.
pub fn assign_strides(target: IpAddress, count: u16) -> (workers: Vec<Worker>)
    requires
        count >= 1,
    ensures
        workers@.len() == count,
        forall|i: int|
            0 <= i < count ==> (#[trigger] workers@[i])@ == Scan::start(target, count).workers[i],
{
    let mut workers: Vec<Worker> = Vec::new();
    let mut index: u16 = 0;
    while index < count
        invariant
            count >= 1,
            index <= count,
            workers@.len() == index,
            forall|i: int|
                0 <= i < index ==> (#[trigger] workers@[i])@ == Scan::start(
                    target,
                    count,
                ).workers[i],
        decreases count - index,
    {
        workers.push(Worker::new(target, index, count));
        index += 1;
    }
    workers
}

} // verus!
