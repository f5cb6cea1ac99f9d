use portscan::{
    Args, ProbeEvent, ProbeReport, ScanAction, ScanResult, ScanType, Scanner,
};
use std::time::Duration;

fn scanner(port_start: u16, port_end: u16, workers: usize, batch_size: usize) -> Scanner {
    let args = Args {
        target: "127.0.0.1".to_string(),
        port_start,
        port_end,
        scan_type: ScanType::Tcp,
        timeout_ms: 1000,
        workers,
        batch_size,
    };
    Scanner::new(&args).unwrap()
}

fn reports(ports: &[u16], open: &[u16]) -> Vec<ProbeReport> {
    ports
        .iter()
        .map(|port| ProbeReport {
            event: if open.contains(port) {
                ProbeEvent::Connected
            } else if port % 2 == 0 {
                ProbeEvent::Failed
            } else {
                ProbeEvent::TimedOut
            },
            latency: Duration::from_micros(u64::from(*port)),
        })
        .collect()
}

/// Runs a scan in which the batch that ends next is picked by `pick` from the
/// batches that are being probed.
fn run_with(
    scanner: &Scanner,
    open: &[u16],
    pick: fn(&[(usize, Vec<u16>)]) -> usize,
) -> Vec<ScanResult> {
    let mut state = scanner.start();
    let mut in_flight: Vec<(usize, Vec<u16>)> = Vec::new();
    loop {
        match state.next_action() {
            ScanAction::Probe { batch, ports } => {
                assert!(state.is_in_flight(batch));
                in_flight.push((batch, ports));
                assert!(in_flight.len() <= scanner.workers());
            }
            ScanAction::Wait => {
                assert!(!in_flight.is_empty());
                let (batch, ports) = in_flight.remove(pick(&in_flight));
                state.complete_batch(batch, &reports(&ports, open));
                assert!(!state.is_in_flight(batch));
            }
            ScanAction::Finish => break,
        }
    }
    assert!(in_flight.is_empty());
    state.finish().0
}

fn oldest(_: &[(usize, Vec<u16>)]) -> usize {
    0
}

fn newest(in_flight: &[(usize, Vec<u16>)]) -> usize {
    in_flight.len() - 1
}

fn ports_of(results: &[ScanResult]) -> Vec<u16> {
    results.iter().map(|r| r.port).collect()
}

#[test]
fn batches_are_handed_out_in_order_up_to_the_number_of_workers() {
    let scanner = scanner(1, 10, 2, 3);
    let mut state = scanner.start();

    assert_eq!(state.progress().total_batches(), 4);
    match state.next_action() {
        ScanAction::Probe { batch, ports } => {
            assert_eq!(batch, 0);
            assert_eq!(ports, vec![1, 2, 3]);
        }
        _ => panic!("the first batch is handed out first"),
    }
    match state.next_action() {
        ScanAction::Probe { batch, ports } => {
            assert_eq!(batch, 1);
            assert_eq!(ports, vec![4, 5, 6]);
        }
        _ => panic!("a second worker is free"),
    }
    assert!(matches!(state.next_action(), ScanAction::Wait));
    assert!(matches!(state.next_action(), ScanAction::Wait));
    assert!(state.is_in_flight(0));
    assert!(state.is_in_flight(1));
    assert!(!state.is_in_flight(2));

    state.complete_batch(1, &reports(&[4, 5, 6], &[]));
    assert!(!state.is_in_flight(1));
    match state.next_action() {
        ScanAction::Probe { batch, ports } => {
            assert_eq!(batch, 2);
            assert_eq!(ports, vec![7, 8, 9]);
        }
        _ => panic!("a worker has become free"),
    }
    assert!(matches!(state.next_action(), ScanAction::Wait));

    state.complete_batch(0, &reports(&[1, 2, 3], &[]));
    match state.next_action() {
        ScanAction::Probe { batch, ports } => {
            assert_eq!(batch, 3);
            assert_eq!(ports, vec![10]);
        }
        _ => panic!("the last batch is short"),
    }
    assert!(matches!(state.next_action(), ScanAction::Wait));
    state.complete_batch(3, &reports(&[10], &[]));
    assert!(matches!(state.next_action(), ScanAction::Wait));
    state.complete_batch(2, &reports(&[7, 8, 9], &[]));
    assert!(matches!(state.next_action(), ScanAction::Finish));
    assert!(matches!(state.next_action(), ScanAction::Finish));

    let (results, progress) = state.finish();
    assert!(results.is_empty());
    assert!(progress.is_finished());
    assert_eq!(progress.scanned(), 4);
    assert_eq!(progress.found(), 0);
}

#[test]
fn one_worker_probes_one_batch_at_a_time() {
    let scanner = scanner(100, 105, 1, 2);
    let mut state = scanner.start();

    for expected in 0..3 {
        match state.next_action() {
            ScanAction::Probe { batch, ports } => {
                assert_eq!(batch, expected);
                assert!(matches!(state.next_action(), ScanAction::Wait));
                state.complete_batch(batch, &reports(&ports, &[]));
            }
            _ => panic!("the only worker is free"),
        }
    }
    assert!(matches!(state.next_action(), ScanAction::Finish));
}

#[test]
fn open_ports_come_back_sorted_whatever_the_order_of_completion() {
    let scanner = scanner(1000, 1019, 4, 3);
    let open = [1019, 1000, 1007, 1008, 1012];

    let in_order = run_with(&scanner, &open, oldest);
    let reversed = run_with(&scanner, &open, newest);

    assert_eq!(ports_of(&in_order), vec![1000, 1007, 1008, 1012, 1019]);
    assert_eq!(ports_of(&reversed), vec![1000, 1007, 1008, 1012, 1019]);
    for (a, b) in in_order.iter().zip(reversed.iter()) {
        assert_eq!(a.port, b.port);
        assert_eq!(a.is_open, b.is_open);
        assert_eq!(a.latency, b.latency);
        assert_eq!(a.service, b.service);
    }
}

#[test]
fn sorting_undoes_a_completion_order_that_is_not_ascending() {
    let scanner = scanner(10, 15, 3, 2);
    let mut state = scanner.start();
    for _ in 0..3 {
        assert!(matches!(state.next_action(), ScanAction::Probe { .. }));
    }
    state.complete_batch(2, &reports(&[14, 15], &[14, 15]));
    state.complete_batch(0, &reports(&[10, 11], &[11]));
    state.complete_batch(1, &reports(&[12, 13], &[12]));
    assert_eq!(state.progress().scanned(), 3);
    assert_eq!(state.progress().found(), 3);

    let (results, _) = state.finish();
    assert_eq!(ports_of(&results), vec![11, 12, 14, 15]);
}

#[test]
fn only_open_ports_are_kept() {
    let scanner = scanner(1, 100, 3, 10);
    let results = run_with(&scanner, &[5, 50, 95], oldest);

    assert_eq!(ports_of(&results), vec![5, 50, 95]);
    assert!(results.iter().all(|r| r.is_open));
    assert_eq!(results[0].latency, Duration::from_micros(5));
    assert_eq!(results[1].latency, Duration::from_micros(50));
    assert_eq!(results[2].latency, Duration::from_micros(95));
}

#[test]
fn results_carry_the_service_name_of_their_port() {
    let scanner = scanner(20, 450, 2, 100);
    let results = run_with(&scanner, &[22, 80, 81, 443], newest);

    assert_eq!(ports_of(&results), vec![22, 80, 81, 443]);
    assert_eq!(results[0].service, Some("SSH".to_string()));
    assert_eq!(results[1].service, Some("HTTP".to_string()));
    assert_eq!(results[2].service, None);
    assert_eq!(results[3].service, Some("HTTPS".to_string()));
    assert_eq!(results[1].service_label(), "HTTP");
    assert_eq!(results[2].service_label(), "Unknown");
}

#[test]
fn found_counts_batches_with_an_open_port() {
    let scanner = scanner(1, 6, 3, 2);
    let mut state = scanner.start();
    for _ in 0..3 {
        assert!(matches!(state.next_action(), ScanAction::Probe { .. }));
    }

    state.complete_batch(0, &reports(&[1, 2], &[1, 2]));
    assert_eq!(state.progress().scanned(), 1);
    assert_eq!(state.progress().found(), 1);

    state.complete_batch(1, &reports(&[3, 4], &[]));
    assert_eq!(state.progress().scanned(), 2);
    assert_eq!(state.progress().found(), 1);

    state.complete_batch(2, &reports(&[5, 6], &[6]));
    assert_eq!(state.progress().scanned(), 3);
    assert_eq!(state.progress().found(), 2);
    assert!(!state.progress().is_finished());

    let (results, progress) = state.finish();
    assert_eq!(ports_of(&results), vec![1, 2, 6]);
    assert_eq!(progress.scanned(), 3);
    assert_eq!(progress.found(), 2);
    assert_eq!(progress.total_batches(), 3);
    assert!(progress.is_finished());
}

#[test]
fn single_port_range_is_one_batch() {
    let scanner = scanner(8080, 8080, 4, 100);
    let mut state = scanner.start();

    assert_eq!(state.progress().total_batches(), 1);
    match state.next_action() {
        ScanAction::Probe { batch, ports } => {
            assert_eq!(batch, 0);
            assert_eq!(ports, vec![8080]);
        }
        _ => panic!("there is one batch to probe"),
    }
    assert!(matches!(state.next_action(), ScanAction::Wait));
    state.complete_batch(0, &reports(&[8080], &[8080]));
    assert!(matches!(state.next_action(), ScanAction::Finish));

    let (results, _) = state.finish();
    assert_eq!(results.len(), 1);
    assert_eq!(results[0].port, 8080);
    assert!(results[0].is_open);
}

#[test]
fn more_workers_than_batches_starts_every_batch_at_once() {
    let scanner = scanner(1, 4, 16, 2);
    let mut state = scanner.start();

    assert!(matches!(state.next_action(), ScanAction::Probe { batch: 0, .. }));
    assert!(matches!(state.next_action(), ScanAction::Probe { batch: 1, .. }));
    assert!(matches!(state.next_action(), ScanAction::Wait));
    state.complete_batch(0, &reports(&[1, 2], &[]));
    assert!(matches!(state.next_action(), ScanAction::Wait));
    state.complete_batch(1, &reports(&[3, 4], &[]));
    assert!(matches!(state.next_action(), ScanAction::Finish));
}

#[test]
fn scan_of_the_last_ports() {
    let scanner = scanner(65530, 65535, 2, 4);
    let results = run_with(&scanner, &[65530, 65535], newest);

    assert_eq!(ports_of(&results), vec![65530, 65535]);
}
