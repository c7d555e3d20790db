use gozo::dispatch::{drain_due, pop_due};
use gozo::intake::{get_when, schedule, InboundMsg, StoreAction};
use gozo::sched::{Entry, Sched};

fn create_msg(when: &str, reply: &str, ident: Option<&str>, payload: &[u8]) -> InboundMsg {
    InboundMsg {
        when: Some(when.to_string()),
        ident: ident.map(|s| s.to_string()),
        del_ident: None,
        reply: Some(reply.to_string()),
        payload: payload.to_vec(),
    }
}

fn cancel_msg(ident: &str) -> InboundMsg {
    InboundMsg {
        when: None,
        ident: None,
        del_ident: Some(ident.to_string()),
        reply: None,
        payload: Vec::new(),
    }
}

#[test]
fn get_when_relative() {
    assert_eq!(get_when("+5", 100), Some(105));
}

#[test]
fn get_when_absolute() {
    assert_eq!(get_when("90", 100), Some(90));
}

#[test]
fn get_when_rejects_non_numeric() {
    assert_eq!(get_when("abc", 100), None);
    assert_eq!(get_when("", 100), None);
    assert_eq!(get_when("+", 100), None);
    assert_eq!(get_when("++5", 100), None);
    assert_eq!(get_when("1 2", 100), None);
}

#[test]
fn get_when_limits() {
    assert_eq!(get_when("18446744073709551615", 0), Some(u64::MAX));
    assert_eq!(get_when("18446744073709551616", 0), None);
    assert_eq!(get_when("+1", u64::MAX), None);
}

#[test]
fn sort_order_with_fifo_ties() {
    let mut s = Sched::new();
    schedule(&mut s, create_msg("105", "r", None, b"a"), 0);
    schedule(&mut s, create_msg("103", "r", None, b"b"), 0);
    schedule(&mut s, create_msg("103", "r", None, b"c"), 0);
    schedule(&mut s, create_msg("104", "r", None, b"d"), 0);
    let whens: Vec<u64> = s.entry.iter().map(|e| e.when).collect();
    assert_eq!(whens, vec![103, 103, 104, 105]);
    // equal due times keep submission order
    assert_eq!(s.entry[0].payload, b"b".to_vec());
    assert_eq!(s.entry[1].payload, b"c".to_vec());
}

#[test]
fn index_consistency_after_churn() {
    let mut s = Sched::new();
    schedule(&mut s, create_msg("30", "r", Some("c"), b"3"), 0);
    schedule(&mut s, create_msg("10", "r", Some("a"), b"1"), 0);
    schedule(&mut s, create_msg("20", "r", Some("b"), b"2"), 0);
    schedule(&mut s, cancel_msg("a"), 0);
    for ident in ["b", "c"] {
        let key = ident.to_string();
        let p = s.lookup(&key).expect("identifier should be present");
        assert_eq!(s.id[p], Some(key));
    }
    assert!(s.lookup(&"a".to_string()).is_none());
}

#[test]
fn replace_keeps_one_entry_per_identifier() {
    let mut s = Sched::new();
    schedule(&mut s, create_msg("50", "old.reply", Some("x"), b"old"), 0);
    schedule(&mut s, create_msg("70", "new.reply", Some("x"), b"new"), 0);
    let with_x: Vec<usize> = (0..s.id.len())
        .filter(|&i| s.id[i] == Some("x".to_string()))
        .collect();
    assert_eq!(with_x.len(), 1);
    let e = &s.entry[with_x[0]];
    assert_eq!(e.when, 70);
    assert_eq!(e.subject, "new.reply");
    assert_eq!(e.payload, b"new".to_vec());
    assert_eq!(s.entry.len(), 1);
}

#[test]
fn cancel_unknown_is_noop() {
    let mut s = Sched::new();
    schedule(&mut s, create_msg("50", "r", Some("x"), b"p"), 0);
    let act = schedule(&mut s, cancel_msg("ghost"), 0);
    assert!(matches!(act, StoreAction::Delete { .. }));
    assert_eq!(s.entry.len(), 1);
    assert_eq!(s.id.len(), 1);
    // cancelling twice: second is a no-op too
    schedule(&mut s, cancel_msg("x"), 0);
    schedule(&mut s, cancel_msg("x"), 0);
    assert_eq!(s.entry.len(), 0);
}

#[test]
fn dispatch_drains_backlog_in_order() {
    let t: u64 = 1000;
    let mut s = Sched::new();
    schedule(&mut s, create_msg("999", "r", None, b"two"), 0);
    schedule(&mut s, create_msg("998", "r", None, b"one"), 0);
    schedule(&mut s, create_msg("1000", "r", None, b"three"), 0);
    let fired = drain_due(&mut s, t);
    assert_eq!(fired.len(), 3);
    assert_eq!(fired[0].0.when, 998);
    assert_eq!(fired[1].0.when, 999);
    assert_eq!(fired[2].0.when, 1000);
    assert_eq!(s.entry.len(), 0);
}

#[test]
fn dispatch_leaves_future_entries() {
    let mut s = Sched::new();
    schedule(&mut s, create_msg("90", "r", None, b"due"), 0);
    schedule(&mut s, create_msg("200", "r", None, b"later"), 0);
    let fired = drain_due(&mut s, 100);
    assert_eq!(fired.len(), 1);
    assert_eq!(fired[0].0.when, 90);
    assert_eq!(s.entry.len(), 1);
    assert_eq!(s.entry[0].when, 200);
    assert!(pop_due(&mut s, 100).is_none());
}

#[test]
fn scenario_cancel_before_due_and_immediate_fire() {
    // create(due=+5, target="reply.A", id="job1") at T=100
    let mut s = Sched::new();
    let act = schedule(&mut s, create_msg("+5", "reply.A", Some("job1"), b"hello"), 100);
    assert!(matches!(act, StoreAction::Put { .. }));
    assert_eq!(s.entry[0].when, 105);
    // cancel(id="job1") at T=102
    let act = schedule(&mut s, cancel_msg("job1"), 102);
    match act {
        StoreAction::Delete { ident } => assert_eq!(ident, "job1"),
        _ => panic!("cancel must ask for the record's deletion"),
    }
    assert_eq!(s.entry.len(), 0);
    // nothing fires at T=105
    assert!(drain_due(&mut s, 105).is_empty());
    // create(due=90, target="reply.B", id=none) at T=100: already due
    let act = schedule(&mut s, create_msg("90", "reply.B", None, b"late"), 100);
    assert!(matches!(act, StoreAction::Keep));
    let fired = drain_due(&mut s, 100);
    assert_eq!(fired.len(), 1);
    let (e, ident) = &fired[0];
    assert_eq!(e.subject, "reply.B");
    assert_eq!(e.payload, b"late".to_vec());
    assert!(ident.is_none(), "anonymous entry fires without an identifier marker");
}

#[test]
fn malformed_create_is_dropped() {
    let mut s = Sched::new();
    // bad directive
    let act = schedule(&mut s, create_msg("soon", "r", Some("x"), b"p"), 0);
    assert!(matches!(act, StoreAction::Keep));
    assert_eq!(s.entry.len(), 0);
    // missing reply destination
    let mut msg = create_msg("+5", "r", Some("x"), b"p");
    msg.reply = None;
    let act = schedule(&mut s, msg, 0);
    assert!(matches!(act, StoreAction::Keep));
    assert_eq!(s.entry.len(), 0);
}

#[test]
fn peek_due_matches_pop_due() {
    let mut s = Sched::new();
    let pos = s.insert(
        Entry { when: 7, subject: "r".to_string(), payload: vec![1, 2] },
        Some("k".to_string()),
    );
    assert_eq!(pos, 0);
    assert!(s.peek_due(6).is_none());
    assert_eq!(s.peek_due(7).unwrap().when, 7);
    let (e, ident) = s.pop_front();
    assert_eq!(e.when, 7);
    assert_eq!(ident, Some("k".to_string()));
    assert_eq!(s.len(), 0);
}
