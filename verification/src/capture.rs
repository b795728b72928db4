//! Decisions of the probes on `SSL_write` and `SSL_read`.
//!
//! `SSL_read` fills its buffer only by the time it returns, so an entry probe
//! stashes the arguments of the call under the id of the thread, and the return
//! probe recovers them and copies as many bytes as the call reports. The stash is
//! keyed by the whole 64-bit id: several threads of a process can be inside a call
//! at once, while one thread is inside at most one.
//!
//! The maps, the ring buffer and the memory of the traced process belong to the
//! kernel. What is here says what to do with what they answered.

use vstd::prelude::*;

use crate::event::TASK_COMM_LEN;
use crate::event::{clamp_payload_len, clamped_len};
use crate::event::{Event, MAX_PAYLOAD};
use crate::stat;

verus! {

/// Arguments of a call, kept from its entry to its return.
#[derive(Debug, Clone, Copy, PartialEq, Eq)]
pub struct SslArgs {
    /// The session pointer.
    pub ssl: u64,
    /// Where the plaintext lies on return.
    pub buf: u64,
    /// Where the number of bytes lies on return, for the calls that report it
    /// through a pointer; zero for the others.
    pub count_ptr: u64,
}

/// The error for a probe context that lacks an argument.
pub const MISSING_ARGUMENT: i64 = -1;

/// The error for a full ring buffer.
pub const NO_SPACE: i64 = -1;

/// The error for plaintext that cannot be read.
pub const READ_FAULT: i64 = -2;

/// The arguments that an entry probe stashes, where those that it needs are there.
pub open spec fn entry_args(arg0: Option<u64>, arg1: Option<u64>, count_ptr: Option<u64>) -> Result<
    SslArgs,
    i64,
> {
    match (arg0, arg1, count_ptr) {
        (Some(ssl), Some(buf), Some(count_ptr)) => Ok(SslArgs { ssl, buf, count_ptr }),
        _ => Err(MISSING_ARGUMENT),
    }
}

/// What an entry probe stashes for a call that returns the number of bytes, from
/// the first two arguments of the call.
pub fn stash_entry(arg0: Option<u64>, arg1: Option<u64>) -> (stash: Result<SslArgs, i64>)
    ensures
        stash == match (arg0, arg1) {
            (Some(ssl), Some(buf)) => Ok::<SslArgs, i64>(SslArgs { ssl, buf, count_ptr: 0 }),
            _ => Err::<SslArgs, i64>(MISSING_ARGUMENT),
        },
        stash == entry_args(arg0, arg1, Some(0)),
{
    match (arg0, arg1) {
        (Some(ssl), Some(buf)) => Ok(SslArgs { ssl, buf, count_ptr: 0 }),
        _ => Err(MISSING_ARGUMENT),
    }
}

/// What an entry probe stashes for a call that reports the number of bytes through
/// a pointer, its fourth argument.
pub fn stash_entry_ex(arg0: Option<u64>, arg1: Option<u64>, arg3: Option<u64>) -> (stash: Result<
    SslArgs,
    i64,
>)
    ensures
        stash == match (arg0, arg1, arg3) {
            (Some(ssl), Some(buf), Some(count_ptr)) => Ok::<SslArgs, i64>(
                SslArgs { ssl, buf, count_ptr },
            ),
            _ => Err::<SslArgs, i64>(MISSING_ARGUMENT),
        },
        stash == entry_args(arg0, arg1, arg3),
{
    match (arg0, arg1, arg3) {
        (Some(ssl), Some(buf), Some(count_ptr)) => Ok(SslArgs { ssl, buf, count_ptr }),
        _ => Err(MISSING_ARGUMENT),
    }
}

/// The counter to increment after an entry probe: a call that could not be stashed
/// is counted as dropped.
pub fn entry_counter(stashed: Result<(), i64>) -> (counter: Option<u32>)
    ensures
        counter == match stashed {
            Ok(_) => None::<u32>,
            Err(_) => Some(stat::STASH_FULL),
        },
{
    match stashed {
        Ok(_) => None,
        Err(_) => Some(stat::STASH_FULL),
    }
}

/// What a return probe does next.
#[derive(Debug, Clone, Copy, PartialEq, Eq)]
pub enum NextStep {
    /// There is nothing to capture.
    Done,
    /// Emit an event for as many bytes as the call reported.
    Emit { args: SslArgs, reported: i64 },
    /// Read the number of bytes from the process first.
    ReadCount { args: SslArgs },
}

/// What a return probe does with the stash, and next.
#[derive(Debug, Clone, Copy, PartialEq, Eq)]
pub struct ReturnPlan {
    /// Remove the entry of the thread from the stash.
    pub remove: bool,
    pub next: NextStep,
}

/// The plan of a return probe for a call that returns the number of bytes. Without
/// an entry in the stash there is nothing to do: the probe was attached in the
/// middle of the call. A return value of zero or less means that no plaintext
/// moved.
pub open spec fn return_plan(stashed: Option<SslArgs>, ret: int) -> ReturnPlan {
    match stashed {
        None => ReturnPlan { remove: false, next: NextStep::Done },
        Some(args) => ReturnPlan {
            remove: true,
            next: if ret > 0 {
                NextStep::Emit { args, reported: ret as i64 }
            } else {
                NextStep::Done
            },
        },
    }
}

/// The plan of a return probe for a call that returns one on success and reports
/// the number of bytes through a pointer.
pub open spec fn return_plan_ex(stashed: Option<SslArgs>, ok: int) -> ReturnPlan {
    match stashed {
        None => ReturnPlan { remove: false, next: NextStep::Done },
        Some(args) => ReturnPlan {
            remove: true,
            next: if ok == 1 {
                NextStep::ReadCount { args }
            } else {
                NextStep::Done
            },
        },
    }
}

/// The plan of a return probe, from the stashed arguments of the thread and the
/// return value of the call.
pub fn on_return(stashed: Option<SslArgs>, ret: i32) -> (plan: ReturnPlan)
    ensures
        plan == return_plan(stashed, ret as int),
{
    match stashed {
        None => ReturnPlan { remove: false, next: NextStep::Done },
        Some(args) => {
            if ret <= 0 {
                ReturnPlan { remove: true, next: NextStep::Done }
            } else {
                ReturnPlan { remove: true, next: NextStep::Emit { args, reported: ret as i64 } }
            }
        },
    }
}

/// The plan of a return probe for a call that reports the number of bytes through
/// a pointer.
pub fn on_return_ex(stashed: Option<SslArgs>, ok: i32) -> (plan: ReturnPlan)
    ensures
        plan == return_plan_ex(stashed, ok as int),
{
    match stashed {
        None => ReturnPlan { remove: false, next: NextStep::Done },
        Some(args) => {
            if ok != 1 {
                ReturnPlan { remove: true, next: NextStep::Done }
            } else {
                ReturnPlan { remove: true, next: NextStep::ReadCount { args } }
            }
        },
    }
}

/// A 64-bit pattern read as a signed number.
pub open spec fn signed64(bits: int) -> int {
    if bits < 0x8000_0000_0000_0000 {
        bits
    } else {
        bits - 0x1_0000_0000_0000_0000
    }
}

/// Go on after the number of bytes was read from the process, or could not be: the
/// number of bytes to emit, or the counter to increment.
pub fn on_count_read(count: Option<u64>) -> (reported: Result<i64, u32>)
    ensures
        match (count, reported) {
            (Some(n), Ok(r)) => r == signed64(n as int),
            (None, Err(counter)) => counter == stat::USER_READ_FAULT,
            _ => false,
        },
{
    match count {
        Some(n) => Ok(
            if n < 0x8000_0000_0000_0000 {
                n as i64
            } else {
                -((u64::MAX - n) as i64) - 1
            },
        ),
        None => Err(stat::USER_READ_FAULT),
    }
}

// ---------------------------------------------------------------------------
// Events
// ---------------------------------------------------------------------------

/// The fields of an event before its payload.
#[derive(Debug, Clone, Copy)]
pub struct EventHeader {
    pub timestamp_ns: u64,
    pub ssl_ptr: u64,
    pub tgid: u32,
    pub tid: u32,
    pub uid: u32,
    pub payload_len: u32,
    pub direction: u8,
    /// Fills the space up to the name.
    pub pad: [u8; 7],
    pub comm: [u8; TASK_COMM_LEN],
}

/// What the kernel says about the task that made a call.
#[derive(Debug, Clone, Copy)]
pub struct TaskInfo {
    /// Process id in the upper half, thread id in the lower.
    pub pid_tgid: u64,
    /// Group id in the upper half, user id in the lower.
    pub uid_gid: u64,
    /// Name of the task, where it is known.
    pub comm: Option<[u8; TASK_COMM_LEN]>,
    /// Monotonic time.
    pub timestamp_ns: u64,
}

impl TaskInfo {
    /// The name field of an event: zeros where the name is not known.
    pub open spec fn name_field(self) -> Seq<u8> {
        match self.comm {
            Some(name) => name@,
            None => Seq::new(TASK_COMM_LEN as nat, |i: int| 0u8),
        }
    }
}

impl EventHeader {
    /// The header is that of a call which a task made with the stashed arguments
    /// and which reported a number of bytes.
    pub open spec fn is_of(
        self,
        args: SslArgs,
        direction: u8,
        reported: int,
        task: TaskInfo,
    ) -> bool {
        &&& self.timestamp_ns == task.timestamp_ns
        &&& self.ssl_ptr == args.ssl
        &&& self.tgid == task.pid_tgid / 0x1_0000_0000
        &&& self.tid == task.pid_tgid % 0x1_0000_0000
        &&& self.uid == task.uid_gid % 0x1_0000_0000
        &&& self.payload_len == clamped_len(reported)
        &&& self.direction == direction
        &&& self.pad@ == Seq::new(7, |i: int| 0u8)
        &&& self.comm@ == task.name_field()
    }

    /// The event has this header, and its payload begins with the bytes.
    pub open spec fn heads(self, e: Event, bytes: Seq<u8>) -> bool {
        &&& e.timestamp_ns == self.timestamp_ns
        &&& e.ssl_ptr == self.ssl_ptr
        &&& e.tgid == self.tgid
        &&& e.tid == self.tid
        &&& e.uid == self.uid
        &&& e.payload_len == self.payload_len
        &&& e.direction == self.direction
        &&& e._pad@ == self.pad@
        &&& e.comm@ == self.comm@
        &&& bytes.len() == self.payload_len
        &&& bytes.is_prefix_of(e.payload@)
    }
}

/// The header of the event for a call that reported `reported` bytes.
pub fn event_header(args: SslArgs, direction: u8, reported: i64, task: TaskInfo) -> (h: EventHeader)
    ensures
        h.is_of(args, direction, reported as int, task),
        h.payload_len < MAX_PAYLOAD,
{
    let comm: [u8; TASK_COMM_LEN] = match task.comm {
        Some(name) => name,
        None => [0u8; TASK_COMM_LEN],
    };
    assert(comm@ == task.name_field());
    let pad: [u8; 7] = [0u8; 7];
    assert(pad@ == Seq::new(7, |i: int| 0u8));
    EventHeader {
        timestamp_ns: task.timestamp_ns,
        ssl_ptr: args.ssl,
        tgid: (task.pid_tgid / 0x1_0000_0000) as u32,
        tid: (task.pid_tgid % 0x1_0000_0000) as u32,
        uid: (task.uid_gid % 0x1_0000_0000) as u32,
        payload_len: clamp_payload_len(reported) as u32,
        direction,
        pad,
        comm,
    }
}

/// How the emission of an event ends.
#[derive(Debug, Clone, Copy, PartialEq, Eq)]
pub struct EmitVerdict {
    /// Hand the reserved record to user space.
    pub submit: bool,
    /// Give the reserved record back, so that user space never sees it.
    pub discard: bool,
    /// The counter to increment.
    pub counter: u32,
    /// The result of the emission.
    pub result: Result<(), i64>,
}

/// How the emission of an event ends, from whether a record could be reserved and
/// whether the plaintext could be read into it.
pub fn emit_verdict(reserved: bool, read: bool) -> (v: EmitVerdict)
    ensures
        v.submit == (reserved && read),
        v.discard == (reserved && !read),
        v.counter == if !reserved {
            stat::RINGBUF_FULL
        } else if !read {
            stat::USER_READ_FAULT
        } else {
            stat::EVENTS_SUBMITTED
        },
        v.result == if !reserved {
            Err::<(), i64>(NO_SPACE)
        } else if !read {
            Err::<(), i64>(READ_FAULT)
        } else {
            Ok::<(), i64>(())
        },
{
    if !reserved {
        EmitVerdict {
            submit: false,
            discard: false,
            counter: stat::RINGBUF_FULL,
            result: Err(NO_SPACE),
        }
    } else if !read {
        EmitVerdict {
            submit: false,
            discard: true,
            counter: stat::USER_READ_FAULT,
            result: Err(READ_FAULT),
        }
    } else {
        EmitVerdict {
            submit: true,
            discard: false,
            counter: stat::EVENTS_SUBMITTED,
            result: Ok(()),
        }
    }
}

// ---------------------------------------------------------------------------
// Laws of the stash
// ---------------------------------------------------------------------------

/// A step that a thread takes on the stash.
pub enum StashStep {
    /// An entry probe stashed the arguments.
    Entry { key: u64, args: SslArgs },
    /// A return probe of a call that returns the number of bytes.
    Return { key: u64, ret: int },
    /// A return probe of a call that reports the number through a pointer.
    ReturnEx { key: u64, ok: int },
}

impl StashStep {
    /// The thread that takes the step.
    pub open spec fn key(self) -> u64 {
        match self {
            StashStep::Entry { key, .. } => key,
            StashStep::Return { key, .. } => key,
            StashStep::ReturnEx { key, .. } => key,
        }
    }
}

/// What the stash holds for a thread.
pub open spec fn stashed(stash: Map<u64, SslArgs>, key: u64) -> Option<SslArgs> {
    if stash.dom().contains(key) {
        Some(stash[key])
    } else {
        None
    }
}

/// The stash after a return probe followed its plan.
pub open spec fn after_plan(stash: Map<u64, SslArgs>, key: u64, plan: ReturnPlan) -> Map<
    u64,
    SslArgs,
> {
    if plan.remove {
        stash.remove(key)
    } else {
        stash
    }
}

/// The stash after a step.
pub open spec fn after_step(stash: Map<u64, SslArgs>, step: StashStep) -> Map<u64, SslArgs> {
    match step {
        StashStep::Entry { key, args } => stash.insert(key, args),
        StashStep::Return { key, ret } => after_plan(
            stash,
            key,
            return_plan(stashed(stash, key), ret),
        ),
        StashStep::ReturnEx { key, ok } => after_plan(
            stash,
            key,
            return_plan_ex(stashed(stash, key), ok),
        ),
    }
}

/// The stash after several steps.
pub open spec fn after_steps(stash: Map<u64, SslArgs>, steps: Seq<StashStep>) -> Map<u64, SslArgs>
    decreases steps.len(),
{
    if steps.len() == 0 {
        stash
    } else {
        after_step(after_steps(stash, steps.drop_last()), steps.last())
    }
}

/// A return probe leaves no entry of its thread in the stash, whatever the call
/// returned, and touches no other.
pub proof fn law_return_clears_stash(stash: Map<u64, SslArgs>, key: u64, ret: int)
    ensures
        after_step(stash, StashStep::Return { key, ret }) == stash.remove(key),
        after_step(stash, StashStep::ReturnEx { key, ok: ret }) == stash.remove(key),
{
    if !stash.dom().contains(key) {
        assert(stash.remove(key) =~= stash);
    }
}

/// Steps of other threads leave the entry of a thread as it is.
pub proof fn law_threads_are_apart(stash: Map<u64, SslArgs>, steps: Seq<StashStep>, key: u64)
    requires
        forall|i: int| 0 <= i < steps.len() ==> (#[trigger] steps[i]).key() != key,
    ensures
        stashed(after_steps(stash, steps), key) == stashed(stash, key),
    decreases steps.len(),
{
    if steps.len() > 0 {
        let front = steps.drop_last();
        assert forall|i: int| 0 <= i < front.len() implies (#[trigger] front[i]).key() != key by {
            assert(front[i] == steps[i]);
        }
        law_threads_are_apart(stash, front, key);
        assert(steps[steps.len() - 1].key() != key);
    }
}

/// A call is captured with the arguments of its own entry: whatever other threads
/// do between the entry and the return, the return probe emits the stashed session
/// and buffer with the number of bytes that the call returned.
pub proof fn law_call_is_captured(
    stash: Map<u64, SslArgs>,
    key: u64,
    args: SslArgs,
    between: Seq<StashStep>,
    ret: i32,
)
    requires
        forall|i: int| 0 <= i < between.len() ==> (#[trigger] between[i]).key() != key,
        ret > 0,
    ensures
        ({
            let entered = after_step(stash, StashStep::Entry { key, args });
            let before_return = after_steps(entered, between);
            return_plan(stashed(before_return, key), ret as int) == ReturnPlan {
                remove: true,
                next: NextStep::Emit { args, reported: ret as i64 },
            }
        }),
{
    let entered = after_step(stash, StashStep::Entry { key, args });
    law_threads_are_apart(entered, between, key);
}

/// The same for a call that reports the number of bytes through a pointer: the
/// return probe goes on to read the number through the stashed pointer.
pub proof fn law_ex_call_is_captured(
    stash: Map<u64, SslArgs>,
    key: u64,
    args: SslArgs,
    between: Seq<StashStep>,
)
    requires
        forall|i: int| 0 <= i < between.len() ==> (#[trigger] between[i]).key() != key,
    ensures
        ({
            let entered = after_step(stash, StashStep::Entry { key, args });
            let before_return = after_steps(entered, between);
            return_plan_ex(stashed(before_return, key), 1) == ReturnPlan {
                remove: true,
                next: NextStep::ReadCount { args },
            }
        }),
{
    let entered = after_step(stash, StashStep::Entry { key, args });
    law_threads_are_apart(entered, between, key);
}

/// An event with the header of a capture shows exactly the captured bytes: as many
/// as the call reported, but always fewer than a payload can hold. Its padding is zero.
pub proof fn law_captured_bytes_shown(
    e: Event,
    h: EventHeader,
    args: SslArgs,
    direction: u8,
    reported: i64,
    task: TaskInfo,
    bytes: Seq<u8>,
)
    requires
        h.is_of(args, direction, reported as int, task),
        h.heads(e, bytes),
    ensures
        e.plaintext() == bytes,
        bytes.len() == clamped_len(reported as int),
        bytes.len() < MAX_PAYLOAD,
        0 < reported < MAX_PAYLOAD ==> bytes.len() == reported,
        forall|i: int| 0 <= i < 7 ==> e._pad@[i] == 0,
{
    assert(e.plaintext() == bytes);
}

// ---------------------------------------------------------------------------
// Probes
// ---------------------------------------------------------------------------

/// A probe program and the symbol that it is attached to.
#[derive(Debug, Clone, Copy)]
pub struct Probe {
    pub program: &'static str,
    pub symbol: &'static str,
}

/// The texts of the probes, in the order in which they are attached. The calls that
/// report the number of bytes through a pointer are not hooked.
pub open spec fn probe_texts() -> Seq<(Seq<char>, Seq<char>)> {
    seq![
        ("ssl_write_entry"@, "SSL_write"@),
        ("ssl_write_ret"@, "SSL_write"@),
        ("ssl_read_entry"@, "SSL_read"@),
        ("ssl_read_ret"@, "SSL_read"@),
    ]
}

/// The probes, in the order in which they are attached.
pub fn probes() -> (list: Vec<Probe>)
    ensures
        list@.map_values(|p: Probe| (p.program@, p.symbol@)) == probe_texts(),
{
    let list: Vec<Probe> = vec![
        Probe { program: "ssl_write_entry", symbol: "SSL_write" },
        Probe { program: "ssl_write_ret", symbol: "SSL_write" },
        Probe { program: "ssl_read_entry", symbol: "SSL_read" },
        Probe { program: "ssl_read_ret", symbol: "SSL_read" },
    ];
    assert(list@.map_values(|p: Probe| (p.program@, p.symbol@)) == probe_texts());
    list
}

// ---------------------------------------------------------------------------
// Laws of the decisions
// ---------------------------------------------------------------------------

/// A return probe does nothing without an entry of its thread; with one it takes the
/// entry away, and emits exactly the bytes of a call that returned a positive number.
pub proof fn law_return_emits_positive_counts(args: SslArgs, ret: i32)
    ensures
        !return_plan(None, ret as int).remove,
        return_plan(None, ret as int).next is Done,
        return_plan(Some(args), ret as int).remove,
        ret <= 0 ==> return_plan(Some(args), ret as int).next is Done,
        ret > 0 ==> return_plan(Some(args), ret as int).next == (NextStep::Emit {
            args,
            reported: ret as i64,
        }),
{
}

/// A call that reports through a pointer is gone on with exactly where it returned
/// one, which says that it succeeded and is no count.
pub proof fn law_ex_return_reads_count_on_success(args: SslArgs, ok: i32)
    ensures
        !return_plan_ex(None, ok as int).remove,
        return_plan_ex(None, ok as int).next is Done,
        return_plan_ex(Some(args), ok as int).remove,
        ok == 1 ==> return_plan_ex(Some(args), ok as int).next == (NextStep::ReadCount { args }),
        ok != 1 ==> return_plan_ex(Some(args), ok as int).next is Done,
{
}

/// A count of 64 bits is taken as a signed number: the same up to its greatest, and
/// less by the size of the space beyond.
pub proof fn law_count_is_signed(n: u64)
    ensures
        n <= 9223372036854775807 ==> signed64(n as int) == n,
        n > 9223372036854775807 ==> signed64(n as int) == n - 18446744073709551616 < 0,
{
}

/// The ids in a header are the halves of those that the kernel gave, and the length
/// is what the call reported, cut at 16383.
pub proof fn law_header_names_the_task(
    h: EventHeader,
    args: SslArgs,
    direction: u8,
    reported: int,
    task: TaskInfo,
)
    requires
        h.is_of(args, direction, reported, task),
    ensures
        task.pid_tgid == 4294967296 * h.tgid + h.tid,
        task.uid_gid >= h.uid && (task.uid_gid - h.uid) % 4294967296 == 0,
        h.timestamp_ns == task.timestamp_ns,
        h.ssl_ptr == args.ssl,
        h.direction == direction,
        0 < reported <= 16383 ==> h.payload_len == reported,
        reported > 16383 ==> h.payload_len == 16383,
        reported <= 0 ==> h.payload_len == 0,
        forall|i: int| 0 <= i < 7 ==> #[trigger] h.pad@[i] == 0,
        forall|i: int|
            0 <= i < 16 ==> #[trigger] h.comm@[i] == match task.comm {
                Some(name) => name@[i],
                None => 0,
            },
{
}

/// An entry probe stashes the arguments as they are, whatever they are, and refuses only
/// where one is missing.
pub proof fn law_entry_keeps_its_arguments(
    arg0: Option<u64>,
    arg1: Option<u64>,
    count_ptr: Option<u64>,
)
    ensures
        entry_args(arg0, arg1, count_ptr) is Ok <==> arg0 is Some && arg1 is Some && count_ptr
            is Some,
        entry_args(arg0, arg1, count_ptr) matches Ok(args) ==> {
            &&& Some(args.ssl) == arg0
            &&& Some(args.buf) == arg1
            &&& Some(args.count_ptr) == count_ptr
        },
        entry_args(arg0, arg1, count_ptr) matches Err(e) ==> e == -1,
{
}

} // verus!
