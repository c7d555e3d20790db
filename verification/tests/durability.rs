use gozo::codec::{decode_record, encode_record};
use gozo::intake::{schedule, InboundMsg, StoreAction};
use gozo::recovery::{schedule_load, LoadError};
use gozo::sched::{Entry, Sched};

#[test]
fn record_round_trip_exec() {
    let e = Entry { when: 12345, subject: "reply.A".to_string(), payload: vec![0, 1, 2, 255] };
    let bytes = encode_record(&e);
    let back = decode_record(bytes.as_slice()).expect("a fresh record must decode");
    assert_eq!(back.when, 12345);
    assert_eq!(back.subject, "reply.A");
    assert_eq!(back.payload, vec![0, 1, 2, 255]);
}

#[test]
fn record_payload_is_byte_identical() {
    let payload: Vec<u8> = (0..=255).collect();
    let e = Entry { when: 1, subject: "s".to_string(), payload: payload.clone() };
    let back = decode_record(encode_record(&e).as_slice()).unwrap();
    assert_eq!(back.payload, payload);
}

#[test]
fn record_rejects_truncation_and_bad_subject() {
    assert!(decode_record(&[1, 2, 3]).is_none());
    let e = Entry { when: 9, subject: "ok".to_string(), payload: vec![7] };
    let mut bytes = encode_record(&e);
    // corrupt the subject bytes into invalid UTF-8
    bytes[16] = 0xFF;
    bytes[17] = 0xFF;
    assert!(decode_record(bytes.as_slice()).is_none());
    // claim a subject longer than the record
    let mut bytes = encode_record(&e);
    bytes[8] = 0xEE;
    assert!(decode_record(bytes.as_slice()).is_none());
}

#[test]
fn durability_round_trip_through_recovery() {
    // persist an identified entry via the intake path
    let mut s = Sched::new();
    let msg = InboundMsg {
        when: Some("+5".to_string()),
        ident: Some("job1".to_string()),
        del_ident: None,
        reply: Some("reply.A".to_string()),
        payload: b"hello".to_vec(),
    };
    let act = schedule(&mut s, msg, 100);
    let (ident, record) = match act {
        StoreAction::Put { ident, record } => (ident, record),
        _ => panic!("an identified create must write its durable record"),
    };
    assert_eq!(ident, "job1");
    // reload into a fresh schedule
    let mut fresh = Sched::new();
    schedule_load(&mut fresh, &vec![(ident, record)]).expect("recovery must accept the record");
    assert_eq!(fresh.entry.len(), 1);
    let p = fresh.lookup(&"job1".to_string()).expect("recovered under its identifier");
    assert_eq!(fresh.entry[p].when, 105);
    assert_eq!(fresh.entry[p].subject, "reply.A");
    assert_eq!(fresh.entry[p].payload, b"hello".to_vec());
}

#[test]
fn recovery_sorts_by_due_time() {
    let mk = |when: u64, subject: &str| {
        encode_record(&Entry { when, subject: subject.to_string(), payload: vec![] })
    };
    let records = vec![
        ("b".to_string(), mk(20, "r.b")),
        ("a".to_string(), mk(10, "r.a")),
        ("c".to_string(), mk(30, "r.c")),
    ];
    let mut s = Sched::new();
    schedule_load(&mut s, &records).unwrap();
    let whens: Vec<u64> = s.entry.iter().map(|e| e.when).collect();
    assert_eq!(whens, vec![10, 20, 30]);
    assert_eq!(s.id[0], Some("a".to_string()));
}

#[test]
fn recovery_fails_on_corrupt_record() {
    let good = encode_record(&Entry { when: 5, subject: "r".to_string(), payload: vec![] });
    let records = vec![("a".to_string(), good), ("bad".to_string(), vec![1, 2, 3])];
    let mut s = Sched::new();
    let r = schedule_load(&mut s, &records);
    assert!(matches!(r, Err(LoadError::BadRecord)));
}

#[test]
fn anonymous_entries_are_not_durable() {
    let mut s = Sched::new();
    let msg = InboundMsg {
        when: Some("90".to_string()),
        ident: None,
        del_ident: None,
        reply: Some("reply.B".to_string()),
        payload: b"late".to_vec(),
    };
    let act = schedule(&mut s, msg, 100);
    // no durable write is ever requested for an anonymous entry
    assert!(matches!(act, StoreAction::Keep));
    // a simulated restart reloads only what the store holds: nothing
    let mut restarted = Sched::new();
    schedule_load(&mut restarted, &Vec::new()).unwrap();
    assert_eq!(restarted.entry.len(), 0);
}
