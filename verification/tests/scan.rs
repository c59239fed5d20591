use port_sniff::address::IpAddress;
use port_sniff::scan::assign_strides;
use port_sniff::worker::{Action, Worker, WorkerState};

const HOST: IpAddress = IpAddress::V4(127, 0, 0, 1);

struct Outcome {
    probed: Vec<u16>,
    reported: Vec<u16>,
}

/// Drives the workers to the end, one step of one worker at a time. The
/// worker that steps next is `pick(turn)` places after the last one that
/// has not finished.
fn run(mut workers: Vec<Worker>, is_open: fn(u16) -> bool, pick: fn(usize) -> usize) -> Outcome {
    let mut answers = vec![false; workers.len()];
    let mut outcome = Outcome { probed: Vec::new(), reported: Vec::new() };
    let mut turn = 0;
    let mut at = 0;
    while workers.iter().any(|worker| !worker.is_done()) {
        at = (at + pick(turn)) % workers.len();
        while workers[at].is_done() {
            at = (at + 1) % workers.len();
        }
        match workers[at].step(answers[at]) {
            Action::Probe(endpoint) => {
                assert_eq!(endpoint.address, HOST);
                outcome.probed.push(endpoint.port);
                answers[at] = is_open(endpoint.port);
            }
            Action::Report(port) => outcome.reported.push(port),
            Action::Skip(_) | Action::Finish => {}
        }
        turn += 1;
    }
    outcome
}

fn sorted(ports: &[u16]) -> Vec<u16> {
    let mut copy = ports.to_vec();
    copy.sort();
    copy
}

fn has_repetition(ports: &[u16]) -> bool {
    let ordered = sorted(ports);
    ordered.windows(2).any(|pair| pair[0] == pair[1])
}

fn round_robin(_turn: usize) -> usize {
    1
}

fn uneven(turn: usize) -> usize {
    (turn * turn + 3 * turn) % 7
}

fn nothing_open(_port: u16) -> bool {
    false
}

fn everything_open(_port: u16) -> bool {
    true
}

fn only_8080(port: u16) -> bool {
    port == 8080
}

fn multiples_of_1000(port: u16) -> bool {
    port % 1000 == 0
}

#[test]
fn strides_start_at_the_worker_index() {
    let workers = assign_strides(HOST, 400);
    assert_eq!(workers.len(), 400);
    for (index, worker) in workers.iter().enumerate() {
        assert_eq!(usize::from(worker.start()), index);
        assert_eq!(worker.stride(), 400);
        assert_eq!(worker.target(), HOST);
        assert_eq!(worker.state(), WorkerState::Idle);
    }
}

#[test]
fn one_worker_gets_the_whole_port_space() {
    let workers = assign_strides(HOST, 1);
    assert_eq!(workers.len(), 1);
    assert_eq!(workers[0].start(), 0);
    assert_eq!(workers[0].stride(), 1);
}

#[test]
fn most_workers_get_one_port_each() {
    let workers = assign_strides(HOST, 65535);
    assert_eq!(workers.len(), 65535);
    assert_eq!(workers[65534].start(), 65534);
    let outcome = run(workers, nothing_open, round_robin);
    assert_eq!(outcome.probed.len(), 65536);
    assert!(!has_repetition(&outcome.probed));
}

#[test]
fn every_port_is_probed_once() {
    for count in [1u16, 3, 50, 400] {
        let outcome = run(assign_strides(HOST, count), nothing_open, round_robin);
        assert_eq!(outcome.probed.len(), 65536, "count {}", count);
        let ordered = sorted(&outcome.probed);
        assert!(ordered.iter().enumerate().all(|(index, &port)| usize::from(port) == index));
        assert!(outcome.reported.is_empty());
    }
}

#[test]
fn no_port_is_reported_twice() {
    for count in [1u16, 7, 400] {
        for pick in [round_robin, uneven] {
            let outcome = run(assign_strides(HOST, count), multiples_of_1000, pick);
            assert!(!has_repetition(&outcome.reported), "count {}", count);
            assert_eq!(outcome.reported.len(), 66);
            assert!(outcome.reported.iter().all(|&port| port % 1000 == 0));
        }
    }
}

#[test]
fn reports_never_exceed_the_port_space() {
    let outcome = run(assign_strides(HOST, 400), everything_open, uneven);
    assert_eq!(outcome.reported.len(), 65536);
    assert!(!has_repetition(&outcome.reported));
}

#[test]
fn each_stride_is_walked_upwards() {
    let count = 50;
    let outcome = run(assign_strides(HOST, count), everything_open, uneven);
    for ports in [&outcome.probed, &outcome.reported] {
        let mut last_seen: Vec<Option<u16>> = vec![None; usize::from(count)];
        for &port in ports.iter() {
            let owner = usize::from(port % count);
            assert!(last_seen[owner].map_or(true, |last| last < port));
            last_seen[owner] = Some(port);
        }
    }
}

#[test]
fn reports_may_arrive_out_of_numeric_order() {
    let mut workers = assign_strides(HOST, 2);
    let mut reported = Vec::new();
    for index in [1usize, 0] {
        let mut open = false;
        loop {
            match workers[index].step(open) {
                Action::Probe(endpoint) => open = endpoint.port == 2 || endpoint.port == 65535,
                Action::Report(port) => reported.push(port),
                Action::Skip(_) => {}
                Action::Finish => break,
            }
        }
    }
    assert_eq!(reported, vec![65535, 2]);
}

#[test]
fn lone_listener_is_the_only_report() {
    for count in [1u16, 50, 400, 8081, 65535] {
        for pick in [round_robin, uneven] {
            let outcome = run(assign_strides(HOST, count), only_8080, pick);
            assert_eq!(outcome.reported, vec![8080], "count {}", count);
        }
    }
}
