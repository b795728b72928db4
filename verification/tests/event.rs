//! Events, and the records that carry them.

use promptrail::direction::{READ, WRITE};
use promptrail::event::{clamp_payload_len, Event, EVENT_SIZE, HEADER_SIZE};
use promptrail::event::{MAX_PAYLOAD, TASK_COMM_LEN};
use promptrail::stat;

fn event(payload_len: u32, comm: &[u8], payload: &[u8]) -> Event {
    let mut e = Event {
        timestamp_ns: 0x0102030405060708,
        ssl_ptr: 0x1112131415161718,
        tgid: 0x21222324,
        tid: 0x31323334,
        uid: 0x41424344,
        payload_len,
        direction: READ,
        _pad: [0; 7],
        comm: [0; TASK_COMM_LEN],
        payload: [0; MAX_PAYLOAD],
    };
    e.comm[..comm.len()].copy_from_slice(comm);
    e.payload[..payload.len()].copy_from_slice(payload);
    e
}

/// The record of an event, byte for byte.
fn record(e: &Event) -> Vec<u8> {
    let mut r = Vec::new();
    r.extend_from_slice(&e.timestamp_ns.to_le_bytes());
    r.extend_from_slice(&e.ssl_ptr.to_le_bytes());
    r.extend_from_slice(&e.tgid.to_le_bytes());
    r.extend_from_slice(&e.tid.to_le_bytes());
    r.extend_from_slice(&e.uid.to_le_bytes());
    r.extend_from_slice(&e.payload_len.to_le_bytes());
    r.push(e.direction);
    r.extend_from_slice(&e._pad);
    r.extend_from_slice(&e.comm);
    r.extend_from_slice(&e.payload);
    r
}

#[test]
fn sizes() {
    assert_eq!(TASK_COMM_LEN, 16);
    assert_eq!(MAX_PAYLOAD, 16384);
    assert_eq!(HEADER_SIZE, 56);
    assert_eq!(EVENT_SIZE, 16440);
    assert_eq!((WRITE, READ), (0, 1));
    assert_eq!(
        (stat::EVENTS_SUBMITTED, stat::RINGBUF_FULL, stat::USER_READ_FAULT, stat::STASH_FULL),
        (0, 1, 2, 3)
    );
    assert_eq!(stat::COUNT, 4);
}

#[test]
fn clamping() {
    assert_eq!(clamp_payload_len(i64::MIN), 0);
    assert_eq!(clamp_payload_len(-1), 0);
    assert_eq!(clamp_payload_len(0), 0);
    assert_eq!(clamp_payload_len(1), 1);
    assert_eq!(clamp_payload_len(16383), 16383);
    assert_eq!(clamp_payload_len(16384), 16383);
    assert_eq!(clamp_payload_len(16385), 16383);
    assert_eq!(clamp_payload_len(i64::MAX), 16383);
}

#[test]
fn the_payload_is_as_long_as_the_record_says() {
    assert_eq!(event(3, b"curl", b"abcdef").payload(), b"abc");
    assert_eq!(event(0, b"curl", b"abcdef").payload(), b"");
    assert_eq!(event(16384, b"", b"").payload().len(), 16384);
    assert_eq!(event(u32::MAX, b"", b"").payload().len(), 16384);
}

#[test]
fn the_name_ends_at_the_first_nul() {
    assert_eq!(event(0, b"curl", b"").comm_bytes(), b"curl");
    assert_eq!(event(0, b"", b"").comm_bytes(), b"");
    assert_eq!(event(0, b"cu\0rl", b"").comm_bytes(), b"cu");
    assert_eq!(event(0, b"0123456789abcdef", b"").comm_bytes(), b"0123456789abcdef");
}

#[test]
fn a_record_gives_its_event_back() {
    let e = event(5, b"curl", b"hello");
    let mut bytes = record(&e);
    assert_eq!(bytes.len(), EVENT_SIZE);
    let back = match Event::from_record(&bytes) {
        Ok(back) => back,
        Err(_) => panic!("the record is whole"),
    };
    assert_eq!(back.timestamp_ns, e.timestamp_ns);
    assert_eq!(back.ssl_ptr, e.ssl_ptr);
    assert_eq!((back.tgid, back.tid, back.uid), (e.tgid, e.tid, e.uid));
    assert_eq!(back.payload_len, 5);
    assert_eq!(back.direction, READ);
    assert_eq!(back.comm_bytes(), b"curl");
    assert_eq!(back.payload(), b"hello");
    assert_eq!(record(&back), bytes);
    // What follows an event is not read.
    bytes.push(0xff);
    assert!(Event::from_record(&bytes).is_ok());
}

#[test]
fn a_short_record_is_refused() {
    let bytes = record(&event(5, b"curl", b"hello"));
    match Event::from_record(&bytes[..EVENT_SIZE - 1]) {
        Ok(_) => panic!("the record is short"),
        Err(short) => assert_eq!((short.got, short.want), (16439, 16440)),
    }
    assert!(Event::from_record(&[]).is_err());
}
