//! The decisions of the probes.

use promptrail::capture::{
    emit_verdict, entry_counter, event_header, on_count_read, on_return, on_return_ex, probes,
    stash_entry, stash_entry_ex, EmitVerdict, NextStep, ReturnPlan, SslArgs, TaskInfo,
};
use promptrail::direction::WRITE;
use promptrail::stat;
use std::collections::HashMap;

const ARGS: SslArgs = SslArgs { ssl: 0x7f00, buf: 0x7f10, count_ptr: 0 };

#[test]
fn entries_stash_their_arguments() {
    assert_eq!(stash_entry(Some(0x7f00), Some(0x7f10)), Ok(ARGS));
    assert_eq!(stash_entry(None, Some(1)), Err(-1));
    assert_eq!(stash_entry(Some(1), None), Err(-1));
    assert_eq!(
        stash_entry_ex(Some(1), Some(2), Some(3)),
        Ok(SslArgs { ssl: 1, buf: 2, count_ptr: 3 })
    );
    assert_eq!(stash_entry_ex(Some(1), Some(2), None), Err(-1));
    assert_eq!(stash_entry_ex(None, Some(2), Some(3)), Err(-1));
    assert_eq!(entry_counter(Ok(())), None);
    assert_eq!(entry_counter(Err(-7)), Some(stat::STASH_FULL));
}

#[test]
fn returns_remove_the_stash_and_emit_positive_counts() {
    let done = ReturnPlan { remove: true, next: NextStep::Done };
    let nothing = ReturnPlan { remove: false, next: NextStep::Done };
    assert_eq!(on_return(None, 5), nothing);
    assert_eq!(on_return(Some(ARGS), 0), done);
    assert_eq!(on_return(Some(ARGS), -1), done);
    assert_eq!(
        on_return(Some(ARGS), 5),
        ReturnPlan { remove: true, next: NextStep::Emit { args: ARGS, reported: 5 } }
    );
    assert_eq!(on_return_ex(None, 1), nothing);
    assert_eq!(on_return_ex(Some(ARGS), 0), done);
    assert_eq!(on_return_ex(Some(ARGS), 2), done);
    assert_eq!(
        on_return_ex(Some(ARGS), 1),
        ReturnPlan { remove: true, next: NextStep::ReadCount { args: ARGS } }
    );
}

#[test]
fn counts_behind_a_pointer() {
    assert_eq!(on_count_read(Some(17)), Ok(17));
    assert_eq!(on_count_read(Some(u64::MAX)), Ok(-1));
    assert_eq!(on_count_read(Some(1 << 63)), Ok(i64::MIN));
    assert_eq!(on_count_read(Some((1 << 63) - 1)), Ok(i64::MAX));
    assert_eq!(on_count_read(None), Err(stat::USER_READ_FAULT));
}

#[test]
fn two_threads_inside_a_call_at_once() {
    let mut stash: HashMap<u64, SslArgs> = HashMap::new();
    let first = SslArgs { ssl: 1, buf: 2, count_ptr: 0 };
    let second = SslArgs { ssl: 3, buf: 4, count_ptr: 0 };
    stash.insert(10, first);
    stash.insert(11, second);
    let plan = on_return(stash.get(&10).copied(), 7);
    assert_eq!(plan.next, NextStep::Emit { args: first, reported: 7 });
    if plan.remove {
        stash.remove(&10);
    }
    assert_eq!(stash.get(&10), None);
    assert_eq!(stash.get(&11), Some(&second));
    assert_eq!(on_return(stash.get(&10).copied(), 7).next, NextStep::Done);
}

#[test]
fn headers_name_the_origin() {
    let task = TaskInfo {
        pid_tgid: (1234 << 32) | 5678,
        uid_gid: (100 << 32) | 1000,
        comm: Some(*b"curl\0\0\0\0\0\0\0\0\0\0\0\0"),
        timestamp_ns: 99,
    };
    let h = event_header(ARGS, WRITE, 20000, task);
    assert_eq!((h.tgid, h.tid, h.uid), (1234, 5678, 1000));
    assert_eq!((h.timestamp_ns, h.ssl_ptr, h.direction), (99, 0x7f00, WRITE));
    assert_eq!(h.payload_len, 16383);
    assert_eq!(&h.comm[..5], b"curl\0");
    let unnamed = event_header(ARGS, WRITE, 3, TaskInfo { comm: None, ..task });
    assert_eq!(unnamed.comm, [0; 16]);
    assert_eq!(unnamed.pad, [0; 7]);
    assert_eq!(unnamed.payload_len, 3);
}

#[test]
fn emissions_end_in_one_way() {
    assert_eq!(
        emit_verdict(true, true),
        EmitVerdict {
            submit: true,
            discard: false,
            counter: stat::EVENTS_SUBMITTED,
            result: Ok(()),
        }
    );
    assert_eq!(
        emit_verdict(true, false),
        EmitVerdict {
            submit: false,
            discard: true,
            counter: stat::USER_READ_FAULT,
            result: Err(-2),
        }
    );
    assert_eq!(
        emit_verdict(false, false),
        EmitVerdict {
            submit: false,
            discard: false,
            counter: stat::RINGBUF_FULL,
            result: Err(-1),
        }
    );
}

#[test]
fn four_probes_on_two_symbols() {
    let list: Vec<(&str, &str)> = probes().iter().map(|p| (p.program, p.symbol)).collect();
    assert_eq!(
        list,
        vec![
            ("ssl_write_entry", "SSL_write"),
            ("ssl_write_ret", "SSL_write"),
            ("ssl_read_entry", "SSL_read"),
            ("ssl_read_ret", "SSL_read"),
        ]
    );
}
