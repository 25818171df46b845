use dns_fanout::ErrorKind;
use dns_fanout::QueryOutcome;
use dns_fanout::Summary;
use dns_fanout::Tracker;
use dns_fanout::aggregate;
use dns_fanout::flatten;
use dns_fanout::ipv4_value;
use dns_fanout::summarize;

fn ip(a: u8, b: u8, c: u8, d: u8) -> u32 {
    ipv4_value(a, b, c, d)
}

#[test]
fn ipv4_value_packs_octets() {
    assert_eq!(ip(1, 2, 3, 4), 0x01020304);
    assert_eq!(ip(0, 0, 0, 0), 0);
    assert_eq!(ip(255, 255, 255, 255), 0xFFFFFFFF);
    assert_eq!(ip(8, 8, 8, 8), 0x08080808);
}

#[test]
fn five_server_scenario() {
    let outcomes = vec![
        QueryOutcome::Success(vec![ip(1, 2, 3, 4)]),
        QueryOutcome::Success(vec![ip(1, 2, 3, 4)]),
        QueryOutcome::Success(vec![ip(5, 6, 7, 8)]),
        QueryOutcome::Failure(ErrorKind::Timeout),
        QueryOutcome::Failure(ErrorKind::ConnectionRefused),
    ];
    let s = summarize(&outcomes);
    assert_eq!(s.server_count, 5);
    assert_eq!(s.response_count, 3);
    assert_eq!(s.timeout_count, 1);
    assert_eq!(s.refused_count, 1);
    assert_eq!(s.other_count, 0);
    let ranked = aggregate(&outcomes);
    assert_eq!(ranked, vec![(ip(1, 2, 3, 4), 2), (ip(5, 6, 7, 8), 1)]);
}

#[test]
fn tracker_counts_each_class() {
    let mut t = Tracker::new(4);
    t.record(&QueryOutcome::Success(vec![ip(9, 9, 9, 9)]));
    t.record(&QueryOutcome::Failure(ErrorKind::Timeout));
    t.record(&QueryOutcome::Failure(ErrorKind::ConnectionRefused));
    t.record(&QueryOutcome::Failure(ErrorKind::Other));
    let s = t.finalize();
    assert_eq!(
        s,
        Summary {
            server_count: 4,
            response_count: 1,
            timeout_count: 1,
            refused_count: 1,
            other_count: 1,
        }
    );
}

#[test]
fn counters_reconcile_to_server_count() {
    let outcomes = vec![
        QueryOutcome::Failure(ErrorKind::Other),
        QueryOutcome::Success(vec![]),
        QueryOutcome::Failure(ErrorKind::Timeout),
        QueryOutcome::Failure(ErrorKind::Timeout),
        QueryOutcome::Success(vec![ip(10, 0, 0, 1)]),
        QueryOutcome::Failure(ErrorKind::ConnectionRefused),
        QueryOutcome::Failure(ErrorKind::Other),
    ];
    let s = summarize(&outcomes);
    assert_eq!(s.server_count, outcomes.len());
    assert_eq!(
        s.response_count + s.timeout_count + s.refused_count + s.other_count,
        s.server_count
    );
    assert_eq!(s.response_count, 2);
    assert_eq!(s.timeout_count, 2);
    assert_eq!(s.refused_count, 1);
    assert_eq!(s.other_count, 2);
}

#[test]
fn record_order_does_not_change_counters() {
    let forward = vec![
        QueryOutcome::Success(vec![ip(1, 1, 1, 1)]),
        QueryOutcome::Failure(ErrorKind::Timeout),
        QueryOutcome::Failure(ErrorKind::ConnectionRefused),
        QueryOutcome::Success(vec![ip(2, 2, 2, 2)]),
    ];
    let mut backward = forward.clone();
    backward.reverse();
    assert_eq!(summarize(&forward), summarize(&backward));
}

#[test]
fn aggregation_is_order_independent() {
    let a = ip(1, 2, 3, 4);
    let b = ip(5, 6, 7, 8);
    let c = ip(9, 10, 11, 12);
    let one = vec![
        QueryOutcome::Success(vec![a, b]),
        QueryOutcome::Failure(ErrorKind::Timeout),
        QueryOutcome::Success(vec![b]),
        QueryOutcome::Success(vec![c, b]),
    ];
    let two = vec![
        QueryOutcome::Success(vec![c, b]),
        QueryOutcome::Success(vec![b]),
        QueryOutcome::Success(vec![a, b]),
        QueryOutcome::Failure(ErrorKind::Timeout),
    ];
    assert_eq!(aggregate(&one), aggregate(&two));
    assert_eq!(aggregate(&one), vec![(b, 3), (a, 1), (c, 1)]);
}

#[test]
fn aggregation_is_idempotent() {
    let outcomes = vec![
        QueryOutcome::Success(vec![ip(4, 4, 4, 4), ip(8, 8, 8, 8)]),
        QueryOutcome::Success(vec![ip(8, 8, 8, 8)]),
        QueryOutcome::Failure(ErrorKind::Other),
    ];
    let first = aggregate(&outcomes);
    let second = aggregate(&outcomes);
    assert_eq!(first, second);
}

#[test]
fn all_errors_rank_empty() {
    let outcomes = vec![
        QueryOutcome::Failure(ErrorKind::Timeout),
        QueryOutcome::Failure(ErrorKind::ConnectionRefused),
        QueryOutcome::Failure(ErrorKind::Other),
    ];
    let ranked = aggregate(&outcomes);
    assert!(ranked.is_empty());
    let s = summarize(&outcomes);
    assert_eq!(s.response_count, 0);
    assert_eq!(s.server_count, 3);
}

#[test]
fn no_outcomes_no_report() {
    let outcomes: Vec<QueryOutcome> = vec![];
    let s = summarize(&outcomes);
    assert_eq!(s.server_count, 0);
    assert_eq!(s.response_count, 0);
    assert!(aggregate(&outcomes).is_empty());
}

#[test]
fn ties_break_by_ascending_address() {
    let low = ip(1, 0, 0, 1);
    let high = ip(200, 0, 0, 1);
    let outcomes = vec![
        QueryOutcome::Success(vec![high]),
        QueryOutcome::Success(vec![low]),
    ];
    assert_eq!(aggregate(&outcomes), vec![(low, 1), (high, 1)]);
}

#[test]
fn ranking_descends_by_count() {
    let a = ip(1, 1, 1, 1);
    let b = ip(2, 2, 2, 2);
    let c = ip(3, 3, 3, 3);
    let outcomes = vec![
        QueryOutcome::Success(vec![a]),
        QueryOutcome::Success(vec![b, a, c]),
        QueryOutcome::Success(vec![b, a]),
    ];
    assert_eq!(aggregate(&outcomes), vec![(a, 3), (b, 2), (c, 1)]);
}

#[test]
fn flatten_keeps_order_and_duplicates() {
    let a = ip(1, 1, 1, 1);
    let b = ip(2, 2, 2, 2);
    let outcomes = vec![
        QueryOutcome::Success(vec![a, b]),
        QueryOutcome::Failure(ErrorKind::Timeout),
        QueryOutcome::Success(vec![a]),
    ];
    assert_eq!(flatten(&outcomes), vec![a, b, a]);
}

#[test]
fn success_with_no_addresses_counts_as_response() {
    let outcomes = vec![QueryOutcome::Success(vec![])];
    let s = summarize(&outcomes);
    assert_eq!(s.response_count, 1);
    assert!(aggregate(&outcomes).is_empty());
}
