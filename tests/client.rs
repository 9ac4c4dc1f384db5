use libpaxos::config::proposer_address;
use libpaxos::error::{other_err, ConfigError, ConnectionError, EngineError, Error};
use libpaxos::learner::{stop_outcome, Decision, DecisionStream, StreamPoll};
use libpaxos::proposer::{
    Completion, ConnectionManager, Delivery, Phase, SubmitPoll, Submitted,
};

#[test]
fn it_works() {}

fn address_of(config: &str, pid: i64) -> Result<(String, u16), ConfigError> {
    proposer_address(config.as_bytes(), pid).map(|a| (String::from_utf8(a.host).unwrap(), a.port))
}

#[test]
fn unmatched_id_is_not_found() {
    let config = "proposer 1 127.0.0.1 5001\nproposer 2 127.0.0.1 5002";
    assert_eq!(address_of(config, 3), Err(ConfigError::NotFound));
}

#[test]
fn single_entry_resolves() {
    assert_eq!(
        address_of("proposer 0 127.0.0.1 4999", 0),
        Ok(("127.0.0.1".to_string(), 4999))
    );
}

#[test]
fn matching_entry_among_others() {
    let config = "proposer 1 127.0.0.1 5001\nproposer 2 127.0.0.1 5002";
    assert_eq!(address_of(config, 2), Ok(("127.0.0.1".to_string(), 5002)));
    assert_eq!(address_of(config, 1), Ok(("127.0.0.1".to_string(), 5001)));
}

#[test]
fn replica_lines_are_entries_and_first_match_wins() {
    let config = "## comment\nacceptor 0 10.0.0.1 6000\n\n  replica 7 10.0.0.2 7000  \nproposer 7 10.0.0.3 7001\n";
    assert_eq!(address_of(config, 7), Ok(("10.0.0.2".to_string(), 7000)));
    assert_eq!(address_of(config, 0), Err(ConfigError::NotFound));
}

#[test]
fn tabs_and_carriage_returns_separate_tokens() {
    let config = "proposer\t4\tlocalhost\t8800\r\nproposer 5 h 1\r\n";
    assert_eq!(address_of(config, 4), Ok(("localhost".to_string(), 8800)));
    assert_eq!(address_of(config, 5), Ok(("h".to_string(), 1)));
}

#[test]
fn non_numeric_id_is_malformed() {
    assert_eq!(address_of("proposer x 127.0.0.1 5001", 0), Err(ConfigError::Malformed));
    assert_eq!(address_of("proposer", 0), Err(ConfigError::Malformed));
    assert_eq!(address_of("proposer - 1.2.3.4 1", 0), Err(ConfigError::Malformed));
}

#[test]
fn malformed_entry_before_the_match_is_reported() {
    let config = "replica one 127.0.0.1 5001\nproposer 2 127.0.0.1 5002";
    assert_eq!(address_of(config, 2), Err(ConfigError::Malformed));
}

#[test]
fn malformed_address_of_matching_entry() {
    assert_eq!(address_of("proposer 3 127.0.0.1", 3), Err(ConfigError::Malformed));
    assert_eq!(address_of("proposer 3 127.0.0.1 65536", 3), Err(ConfigError::Malformed));
    assert_eq!(address_of("proposer 3 127.0.0.1 -1", 3), Err(ConfigError::Malformed));
    assert_eq!(address_of("proposer 3 127.0.0.1 80x", 3), Err(ConfigError::Malformed));
    assert_eq!(address_of("proposer 3 127.0.0.1 +", 3), Err(ConfigError::Malformed));
    assert_eq!(address_of("proposer 3 127.0.0.1 +80", 3), Err(ConfigError::Malformed));
}

#[test]
fn malformed_address_of_other_entry_is_skipped() {
    let config = "proposer 3 127.0.0.1\nproposer 4 127.0.0.1 80";
    assert_eq!(address_of(config, 4), Ok(("127.0.0.1".to_string(), 80)));
}

#[test]
fn signed_and_extreme_numbers() {
    assert_eq!(address_of("proposer -2 h 65535", -2), Ok(("h".to_string(), 65535)));
    assert_eq!(address_of("proposer +2 h 0", 2), Ok(("h".to_string(), 0)));
    assert_eq!(address_of("proposer +2 h +0", 2), Err(ConfigError::Malformed));
    assert_eq!(address_of("proposer 2 h +80", 2), Err(ConfigError::Malformed));
    assert_eq!(
        address_of("proposer -9223372036854775808 h 9", i64::MIN),
        Ok(("h".to_string(), 9))
    );
    assert_eq!(
        address_of("proposer 9223372036854775807 h 9", i64::MAX),
        Ok(("h".to_string(), 9))
    );
    assert_eq!(
        address_of("proposer 9223372036854775808 h 9", 0),
        Err(ConfigError::Malformed)
    );
}

#[test]
fn empty_config_is_not_found() {
    assert_eq!(address_of("", 0), Err(ConfigError::NotFound));
    assert_eq!(address_of("\n\n   \n", 0), Err(ConfigError::NotFound));
}

#[test]
fn keyword_must_be_a_whole_token() {
    assert_eq!(address_of("proposers 1 h 2", 1), Err(ConfigError::NotFound));
    assert_eq!(address_of("replic 1 h 2", 1), Err(ConfigError::NotFound));
}

fn ok(ticket: u64) -> Completion {
    Completion { ticket, result: Ok(()) }
}

fn failed(ticket: u64, e: ConnectionError) -> Completion {
    Completion { ticket, result: Err(e) }
}

#[test]
fn submit_on_idle_connection_writes_framed_bytes() {
    let mut m = ConnectionManager::new();
    let p = m.connected();
    assert!(p.completions.is_empty());
    assert!(p.write.is_none());
    assert_eq!(m.phase(), Phase::Connected);
    let framed = b"\x05\x00\x00\x00hello".to_vec();
    let (t, p) = m.submit(framed.clone());
    assert_eq!(t, 0);
    assert!(p.completions.is_empty());
    let w = p.write.unwrap();
    assert_eq!(w.ticket, 0);
    assert_eq!(w.framed, framed);
    let p = m.write_finished(true);
    assert_eq!(p.completions, vec![ok(0)]);
    assert!(p.write.is_none());
}

#[test]
fn writes_follow_submission_order() {
    let mut m = ConnectionManager::new();
    let _ = m.connected();
    let (ta, pa) = m.submit(b"A".to_vec());
    let (tb, pb) = m.submit(b"B".to_vec());
    assert!(ta < tb);
    assert_eq!(pa.write.unwrap().framed, b"A".to_vec());
    assert!(pb.write.is_none());
    let p = m.write_finished(true);
    assert_eq!(p.completions, vec![ok(ta)]);
    let w = p.write.unwrap();
    assert_eq!((w.ticket, w.framed), (tb, b"B".to_vec()));
    let p = m.write_finished(true);
    assert_eq!(p.completions, vec![ok(tb)]);
    assert!(p.write.is_none());
}

#[test]
fn submissions_before_connect_wait_in_order() {
    let mut m = ConnectionManager::new();
    let (t0, p0) = m.submit(b"x".to_vec());
    let (t1, _) = m.submit(b"y".to_vec());
    assert!(p0.write.is_none() && p0.completions.is_empty());
    let p = m.connected();
    let w = p.write.unwrap();
    assert_eq!((w.ticket, w.framed), (t0, b"x".to_vec()));
    let p = m.write_finished(true);
    assert_eq!(p.write.unwrap().ticket, t1);
}

#[test]
fn write_failure_drains_queue_and_rejects_later_submissions() {
    let mut m = ConnectionManager::new();
    let _ = m.connected();
    let (t0, _) = m.submit(b"a".to_vec());
    let (t1, _) = m.submit(b"b".to_vec());
    let (t2, _) = m.submit(b"c".to_vec());
    let p = m.write_finished(false);
    assert_eq!(
        p.completions,
        vec![
            failed(t0, ConnectionError::WriteFailed),
            failed(t1, ConnectionError::Disconnected),
            failed(t2, ConnectionError::Disconnected),
        ]
    );
    assert!(p.write.is_none());
    assert_eq!(m.phase(), Phase::Terminated(ConnectionError::WriteFailed));
    let (t3, p) = m.submit(b"d".to_vec());
    assert_eq!(p.completions, vec![failed(t3, ConnectionError::Disconnected)]);
    assert!(p.write.is_none());
    let p = m.write_finished(true);
    assert!(p.completions.is_empty() && p.write.is_none());
}

#[test]
fn connect_failure_terminates() {
    let mut m = ConnectionManager::new();
    let (t0, _) = m.submit(b"a".to_vec());
    let p = m.connect_failed();
    assert_eq!(p.completions, vec![failed(t0, ConnectionError::Disconnected)]);
    assert_eq!(m.phase(), Phase::Terminated(ConnectionError::ConnectFailed));
    let p = m.connected();
    assert!(p.completions.is_empty() && p.write.is_none());
    assert_eq!(m.phase(), Phase::Terminated(ConnectionError::ConnectFailed));
    let (t1, p) = m.submit(b"b".to_vec());
    assert_eq!(p.completions, vec![failed(t1, ConnectionError::Disconnected)]);
    assert!(m.can_submit());
}

#[test]
fn submitted_poll_outcomes() {
    let refused = Submitted::new(false);
    assert_eq!(
        refused.poll(Delivery::Waiting),
        SubmitPoll::Ready(Err(ConnectionError::Disconnected))
    );
    let s = Submitted::new(true);
    assert_eq!(s.poll(Delivery::Waiting), SubmitPoll::Pending);
    assert_eq!(s.poll(Delivery::Fired(Ok(()))), SubmitPoll::Ready(Ok(())));
    assert_eq!(
        s.poll(Delivery::Fired(Err(ConnectionError::WriteFailed))),
        SubmitPoll::Ready(Err(ConnectionError::WriteFailed))
    );
    assert_eq!(
        s.poll(Delivery::Abandoned),
        SubmitPoll::Ready(Err(ConnectionError::Disconnected))
    );
}

fn next_item(s: &mut DecisionStream) -> Decision {
    match s.poll() {
        StreamPoll::Item(d) => d,
        other => panic!("expected a decision, got {:?}", other),
    }
}

#[test]
fn stream_yields_from_starting_sequence_then_stops() {
    let mut s = DecisionStream::new();
    assert!(s.deliver(5, b"five"));
    assert!(s.deliver(6, b"six"));
    assert!(s.deliver(7, b"seven"));
    let d = next_item(&mut s);
    assert_eq!((d.iid, d.value), (5, b"five".to_vec()));
    let d = next_item(&mut s);
    assert_eq!((d.iid, d.value), (6, b"six".to_vec()));
    let d = next_item(&mut s);
    assert_eq!((d.iid, d.value), (7, b"seven".to_vec()));
    assert!(matches!(s.poll(), StreamPoll::Pending));
    s.close();
    assert!(matches!(s.poll(), StreamPoll::Ended));
    assert_eq!(stop_outcome(true, true), Ok(()));
}

#[test]
fn stream_keeps_delivery_order_without_loss() {
    let mut s = DecisionStream::new();
    let mut got = Vec::new();
    for i in 0..10u64 {
        assert!(s.deliver(i, &[i as u8; 3]));
        if i % 3 == 0 {
            got.push(next_item(&mut s));
        }
    }
    s.close();
    assert!(!s.deliver(99, b"late"));
    loop {
        match s.poll() {
            StreamPoll::Item(d) => got.push(d),
            StreamPoll::Ended => break,
            StreamPoll::Pending => panic!("closed stream must not stay pending"),
        }
    }
    let expected: Vec<Decision> =
        (0..10u64).map(|i| Decision { iid: i, value: vec![i as u8; 3] }).collect();
    assert_eq!(got, expected);
}

#[test]
fn empty_closed_stream_ends() {
    let mut s = DecisionStream::new();
    assert!(matches!(s.poll(), StreamPoll::Pending));
    s.close();
    assert!(matches!(s.poll(), StreamPoll::Ended));
    assert!(matches!(s.poll(), StreamPoll::Ended));
}

#[test]
fn delivery_copies_bytes() {
    let buf = vec![1u8, 2, 3];
    let d = Decision::from_delivery(42, &buf);
    drop(buf);
    assert_eq!(d, Decision { iid: 42, value: vec![1, 2, 3] });
    let e = Decision::from_delivery(0, &[]);
    assert!(e.value.is_empty());
}

#[test]
fn stop_outcomes() {
    assert_eq!(stop_outcome(false, true), Err(EngineError::CancelFailed));
    assert_eq!(stop_outcome(false, false), Err(EngineError::CancelFailed));
    assert_eq!(stop_outcome(true, false), Err(EngineError::Crashed));
}

#[test]
fn error_conversions() {
    assert_eq!(Error::from(ConfigError::Io), Error::Config(ConfigError::Io));
    assert_eq!(
        Error::from(ConnectionError::Disconnected),
        Error::Connection(ConnectionError::Disconnected)
    );
    assert_eq!(Error::from(EngineError::Crashed), Error::Engine(EngineError::Crashed));
    assert_eq!(Error::from("x".to_string()), Error::Other("x".to_string()));
    assert_eq!(other_err("error joining thread"), Error::Other("error joining thread".to_string()));
}

#[test]
fn stream_reports_closing() {
    let mut s = DecisionStream::new();
    assert!(!s.is_closed());
    s.close();
    assert!(s.is_closed());
}
