//! Reports of events and counters.

use promptrail::event::{Event, EVENT_SIZE, MAX_PAYLOAD, TASK_COMM_LEN};
use promptrail::proc_watch::Severity;
use promptrail::report::{
    counter_total, direction_word, handle_record, render_preview, stats_notice, Counters,
    EventReport, StatsReporter,
};

#[test]
fn previews() {
    assert_eq!(render_preview(b""), "");
    assert_eq!(render_preview(b"GET / HTTP/1.1\r\n\tx"), "GET / HTTP/1.1\r\n\tx");
    assert_eq!(render_preview(&[0, 0x1f, 0x20, 0x7e, 0x7f, 0x80, 0xff]), ".. ~...");
    let exact = [b'a'; 256];
    assert_eq!(render_preview(&exact), "a".repeat(256));
    let over = [b'a'; 257];
    assert_eq!(render_preview(&over), "a".repeat(256) + " \u{2026}(+1 bytes)");
    let whole = vec![b'b'; 16383];
    assert_eq!(render_preview(&whole), "b".repeat(256) + " \u{2026}(+16127 bytes)");
}

#[test]
fn direction_words() {
    assert_eq!(direction_word(0), "write");
    assert_eq!(direction_word(1), "read");
    assert_eq!(direction_word(2), "?");
    assert_eq!(direction_word(255), "?");
}

fn record(direction: u8, comm: &[u8], payload: &[u8]) -> Vec<u8> {
    let mut r = vec![0u8; EVENT_SIZE];
    r[8..16].copy_from_slice(&0xdead_beefu64.to_le_bytes());
    r[16..20].copy_from_slice(&42u32.to_le_bytes());
    r[20..24].copy_from_slice(&43u32.to_le_bytes());
    r[24..28].copy_from_slice(&1000u32.to_le_bytes());
    r[28..32].copy_from_slice(&(payload.len() as u32).to_le_bytes());
    r[32] = direction;
    r[40..40 + comm.len()].copy_from_slice(comm);
    r[56..56 + payload.len()].copy_from_slice(payload);
    r
}

fn report(bytes: &[u8]) -> EventReport {
    match handle_record(bytes) {
        Ok(report) => report,
        Err(_) => panic!("the record is whole"),
    }
}

#[test]
fn plaintext_is_reported_with_its_origin() {
    let r = report(&record(0, b"curl", b"X-PromptRail-Canary: c\0"));
    assert_eq!((r.pid, r.tid, r.uid), (42, 43, 1000));
    assert_eq!(r.comm, "curl");
    assert_eq!((r.direction, r.dir), (0, "write"));
    assert_eq!(r.len, 23);
    assert_eq!(r.ssl, 0xdead_beef);
    assert_eq!(r.preview, "X-PromptRail-Canary: c.");
}

#[test]
fn names_that_are_no_text() {
    assert_eq!(report(&record(1, b"a\xffb", b"")).comm, "a\u{fffd}b");
    assert_eq!(report(&record(1, b"a\xe2\x82", b"")).comm, "a\u{fffd}");
    assert_eq!(report(&record(9, "\u{e9}\u{20ac}".as_bytes(), b"")).comm, "\u{e9}\u{20ac}");
    assert_eq!(report(&record(9, b"x", b"")).dir, "?");
}

#[test]
fn reports_of_short_records() {
    match handle_record(&[0; 100]) {
        Ok(_) => panic!("the record is short"),
        Err(short) => assert_eq!((short.got, short.want), (100, EVENT_SIZE)),
    }
}

#[test]
fn an_event_is_reported_as_its_record_is() {
    let mut e = Event {
        timestamp_ns: 1,
        ssl_ptr: 0xdead_beef,
        tgid: 42,
        tid: 43,
        uid: 1000,
        payload_len: 2,
        direction: 1,
        _pad: [0; 7],
        comm: [0; TASK_COMM_LEN],
        payload: [0; MAX_PAYLOAD],
    };
    e.comm[0] = b'a';
    e.payload[0] = b'h';
    e.payload[1] = b'i';
    let direct = EventReport::of_event(&e);
    let read = report(&record(1, b"a", b"hi"));
    assert_eq!((direct.pid, direct.tid, direct.uid), (read.pid, read.tid, read.uid));
    assert_eq!((direct.comm, direct.dir, direct.len), (read.comm, read.dir, read.len));
    assert_eq!((direct.ssl, direct.preview), (read.ssl, read.preview));
}

#[test]
fn counters_are_summed_over_the_cpus() {
    assert_eq!(counter_total(Some(&[1, 2, 3])), Some(6));
    assert_eq!(counter_total(Some(&[])), Some(0));
    assert_eq!(counter_total(None), Some(0));
    assert_eq!(counter_total(Some(&[u64::MAX, 0])), Some(u64::MAX));
    assert_eq!(counter_total(Some(&[u64::MAX, 1])), None);
}

fn counters(submitted: u64, ringbuf_full: u64, read_fault: u64, stash_full: u64) -> Counters {
    Counters { submitted, ringbuf_full, read_fault, stash_full }
}

#[test]
fn deltas_add_up_to_the_counter() {
    let mut reporter = StatsReporter::new();
    let mut sum = 0;
    for submitted in [5, 5, 9, 30] {
        let r = reporter.report(counters(submitted, 0, 0, 0));
        assert_eq!(r.counters.submitted, submitted);
        assert!(!r.drops);
        sum += r.submitted_delta;
    }
    assert_eq!(sum, 30);
    // A counter that could not be read counts as zero, and the next as new.
    assert_eq!(reporter.report(counters(0, 0, 0, 0)).submitted_delta, 0);
    assert_eq!(reporter.report(counters(31, 0, 0, 0)).submitted_delta, 31);
}

#[test]
fn any_drop_is_told() {
    let mut reporter = StatsReporter::new();
    assert!(reporter.report(counters(1, 1, 0, 0)).drops);
    assert!(reporter.report(counters(1, 0, 1, 0)).drops);
    assert!(reporter.report(counters(1, 0, 0, 1)).drops);
    assert!(!reporter.report(counters(1, 0, 0, 0)).drops);
}

#[test]
fn drops_are_warned_of() {
    let mut reporter = StatsReporter::new();
    let clean = reporter.report(counters(1, 0, 0, 0));
    assert_eq!(stats_notice(&clean), (Severity::Info, "capture stats (clean)"));
    let dropping = reporter.report(counters(1, 0, 2, 0));
    assert_eq!(stats_notice(&dropping), (Severity::Warn, "capture stats (DROPS PRESENT)"));
}
