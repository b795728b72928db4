//! The record that crosses the boundary between the kernel and user space.
//!
//! The ring buffer carries raw bytes, so both sides must agree on every byte. The
//! layout is that of a C structure with no implicit padding: two 64-bit fields,
//! four 32-bit fields, the direction with explicit padding, and the byte arrays.

use vstd::prelude::*;
use vstd::slice::slice_subrange;

use crate::le::{read_u32, read_u64};
use crate::le::{u32_at, u64_at};

verus! {

/// Length of the kernel's name for a task, NUL-padded.
pub const TASK_COMM_LEN: usize = 16;

/// Greatest number of plaintext bytes in one event: the largest TLS record. A
/// power of two, so that the kernel side can bound a length with a mask.
pub const MAX_PAYLOAD: usize = 0x4000;

/// Bytes before the payload.
pub const HEADER_SIZE: usize = 56;

/// Size of a record.
pub const EVENT_SIZE: usize = HEADER_SIZE + MAX_PAYLOAD;

/// One intercepted TLS plaintext event.
#[derive(Clone, Copy)]
pub struct Event {
    /// Monotonic time of capture, in nanoseconds.
    pub timestamp_ns: u64,
    /// The session pointer; only its identity matters.
    pub ssl_ptr: u64,
    /// The process id as user space sees it.
    pub tgid: u32,
    /// The kernel's thread id.
    pub tid: u32,
    /// Effective user id.
    pub uid: u32,
    /// Number of valid bytes in `payload`.
    pub payload_len: u32,
    /// `direction::WRITE` or `direction::READ`.
    pub direction: u8,
    /// Explicit padding; never read.
    pub _pad: [u8; 7],
    /// Short name of the task, NUL-padded.
    pub comm: [u8; TASK_COMM_LEN],
    /// Captured plaintext; bytes beyond `payload_len` are unspecified.
    pub payload: [u8; MAX_PAYLOAD],
}

/// Index of the first NUL from `from` on, or the length where there is none.
pub open spec fn nul_from(bytes: Seq<u8>, from: int) -> int
    decreases bytes.len() - from,
{
    if from < 0 || from >= bytes.len() {
        bytes.len() as int
    } else if bytes[from] == 0 {
        from
    } else {
        nul_from(bytes, from + 1)
    }
}

/// The bytes before the first NUL.
pub open spec fn until_nul(bytes: Seq<u8>) -> Seq<u8> {
    bytes.take(nul_from(bytes, 0))
}

impl Event {
    /// Number of payload bytes that are valid, whatever the record says.
    pub open spec fn valid_len(self) -> int {
        if self.payload_len < MAX_PAYLOAD {
            self.payload_len as int
        } else {
            MAX_PAYLOAD as int
        }
    }

    /// The valid plaintext.
    pub open spec fn plaintext(self) -> Seq<u8> {
        self.payload@.take(self.valid_len())
    }

    /// The name of the task, up to the first NUL.
    pub open spec fn name(self) -> Seq<u8> {
        until_nul(self.comm@)
    }

    /// The valid plaintext.
    pub fn payload(&self) -> (plaintext: &[u8])
        ensures
            plaintext@ == self.plaintext(),
    {
        let len: usize = if (self.payload_len as usize) < MAX_PAYLOAD {
            self.payload_len as usize
        } else {
            MAX_PAYLOAD
        };
        slice_subrange(self.payload.as_slice(), 0, len)
    }

    /// The name of the task, trimmed at the first NUL.
    pub fn comm_bytes(&self) -> (name: &[u8])
        ensures
            name@ == self.name(),
    {
        let mut end: usize = 0;
        while end < TASK_COMM_LEN && self.comm[end] != 0
            invariant
                end <= TASK_COMM_LEN,
                nul_from(self.comm@, 0) == nul_from(self.comm@, end as int),
            decreases TASK_COMM_LEN - end,
        {
            end += 1;
        }
        slice_subrange(self.comm.as_slice(), 0, end)
    }
}

/// The length that the capture keeps of a reported one.
pub open spec fn clamped_len(reported: int) -> int {
    if reported <= 0 {
        0
    } else if reported < MAX_PAYLOAD {
        reported
    } else {
        MAX_PAYLOAD - 1
    }
}

/// Clamp the number of bytes that a call reported to one that is in bounds for a
/// payload, strictly below `MAX_PAYLOAD`. The mask changes nothing; it makes the
/// bound plain where the code runs in the kernel.
pub fn clamp_payload_len(reported: i64) -> (len: usize)
    ensures
        len == clamped_len(reported as int),
        len < MAX_PAYLOAD,
{
    if reported <= 0 {
        return 0;
    }
    let capped: usize = if reported < MAX_PAYLOAD as i64 {
        reported as usize
    } else {
        MAX_PAYLOAD - 1
    };
    assert(capped & 0x3fff == capped) by (bit_vector)
        requires
            capped < 0x4000,
    ;
    capped & (MAX_PAYLOAD - 1)
}

// ---------------------------------------------------------------------------
// Records
// ---------------------------------------------------------------------------

/// The record, a byte string of at least `EVENT_SIZE` bytes, holds the event:
/// every field at its offset.
pub open spec fn record_holds(record: Seq<u8>, e: Event) -> bool {
    &&& record.len() >= EVENT_SIZE
    &&& e.timestamp_ns == u64_at(record, 0)
    &&& e.ssl_ptr == u64_at(record, 8)
    &&& e.tgid == u32_at(record, 16)
    &&& e.tid == u32_at(record, 20)
    &&& e.uid == u32_at(record, 24)
    &&& e.payload_len == u32_at(record, 28)
    &&& e.direction == record[32]
    &&& e._pad@ == record.subrange(33, 40)
    &&& e.comm@ == record.subrange(40, 56)
    &&& e.payload@ == record.subrange(HEADER_SIZE as int, EVENT_SIZE as int)
}

/// A record too short for an event.
#[derive(Debug, Clone, Copy, PartialEq, Eq)]
pub struct ShortRecord {
    /// Length of the record.
    pub got: usize,
    /// Length of an event.
    pub want: usize,
}

/// `N` bytes of a record, from `from` on.
fn array_at<const N: usize>(record: &[u8], from: usize) -> (array: [u8; N])
    requires
        from + N <= record@.len(),
    ensures
        array@ == record@.subrange(from as int, from + N),
{
    assert(record@.len() == record.len());
    let mut array: [u8; N] = [0u8; N];
    let mut i: usize = 0;
    while i < N
        invariant
            i <= N,
            from + N <= record@.len() <= usize::MAX,
            array@.len() == N,
            forall|j: int| 0 <= j < i ==> #[trigger] array@[j] == record@[from + j],
        decreases N - i,
    {
        array[i] = record[from + i];
        i += 1;
    }
    assert(array@ == record@.subrange(from as int, from + N));
    array
}

impl Event {
    /// Read an event out of a record. A short record means that the two sides do
    /// not agree on the layout, and is refused.
    pub fn from_record(record: &[u8]) -> (res: Result<Event, ShortRecord>)
        ensures
            match res {
                Ok(e) => record@.len() >= EVENT_SIZE && record_holds(record@, e),
                Err(short) => record@.len() < EVENT_SIZE && short.got == record@.len()
                    && short.want == EVENT_SIZE,
            },
    {
        if record.len() < EVENT_SIZE {
            return Err(ShortRecord { got: record.len(), want: EVENT_SIZE });
        }
        Ok(
            Event {
                timestamp_ns: read_u64(record, 0),
                ssl_ptr: read_u64(record, 8),
                tgid: read_u32(record, 16),
                tid: read_u32(record, 20),
                uid: read_u32(record, 24),
                payload_len: read_u32(record, 28),
                direction: record[32],
                _pad: array_at(record, 33),
                comm: array_at(record, 40),
                payload: array_at(record, HEADER_SIZE),
            },
        )
    }
}

/// The four little-endian bytes of a number.
#[verifier::opaque]
pub open spec fn le4(n: int) -> Seq<u8> {
    seq![
        (n % 0x100) as u8,
        (n / 0x100 % 0x100) as u8,
        (n / 0x1_0000 % 0x100) as u8,
        (n / 0x100_0000 % 0x100) as u8,
    ]
}

/// The eight little-endian bytes of a number.
pub open spec fn le8(n: int) -> Seq<u8> {
    le4(n % 0x1_0000_0000) + le4(n / 0x1_0000_0000)
}

/// The record of an event: its fields one after the other.
pub open spec fn record_of(e: Event) -> Seq<u8> {
    le8(e.timestamp_ns as int) + le8(e.ssl_ptr as int) + le4(e.tgid as int) + le4(e.tid as int)
        + le4(e.uid as int) + le4(e.payload_len as int) + seq![e.direction] + e._pad@ + e.comm@
        + e.payload@
}

/// Every event has a record, of exactly `EVENT_SIZE` bytes, and the record holds
/// the event.
pub proof fn law_record_round_trip(e: Event)
    ensures
        record_of(e).len() == EVENT_SIZE,
        record_holds(record_of(e), e),
{
    let r = record_of(e);
    lemma_le_len(e.timestamp_ns as int);
    lemma_le_len(e.ssl_ptr as int);
    lemma_le_len(e.tgid as int);
    lemma_le_len(e.tid as int);
    lemma_le_len(e.uid as int);
    lemma_le_len(e.payload_len as int);
    lemma_fields(
        le8(e.timestamp_ns as int),
        le8(e.ssl_ptr as int),
        le4(e.tgid as int),
        le4(e.tid as int),
        le4(e.uid as int),
        le4(e.payload_len as int),
        seq![e.direction],
        e._pad@,
        e.comm@,
        e.payload@,
    );
    assert(r[32] == r.subrange(32, 33)[0]);
    lemma_le8_at(r, 0, e.timestamp_ns as int);
    lemma_le8_at(r, 8, e.ssl_ptr as int);
    lemma_le4_at(r, 16, e.tgid as int);
    lemma_le4_at(r, 20, e.tid as int);
    lemma_le4_at(r, 24, e.uid as int);
    lemma_le4_at(r, 28, e.payload_len as int);
}

/// Where the fields of a record stand.
proof fn lemma_fields(
    time: Seq<u8>,
    ssl: Seq<u8>,
    tgid: Seq<u8>,
    tid: Seq<u8>,
    uid: Seq<u8>,
    len: Seq<u8>,
    direction: Seq<u8>,
    pad: Seq<u8>,
    comm: Seq<u8>,
    payload: Seq<u8>,
)
    requires
        time.len() == 8,
        ssl.len() == 8,
        tgid.len() == 4,
        tid.len() == 4,
        uid.len() == 4,
        len.len() == 4,
        direction.len() == 1,
        pad.len() == 7,
        comm.len() == TASK_COMM_LEN,
        payload.len() == MAX_PAYLOAD,
    ensures
        ({
            let r = time + ssl + tgid + tid + uid + len + direction + pad + comm + payload;
            &&& r.len() == EVENT_SIZE
            &&& r.subrange(0, 8) == time
            &&& r.subrange(8, 16) == ssl
            &&& r.subrange(16, 20) == tgid
            &&& r.subrange(20, 24) == tid
            &&& r.subrange(24, 28) == uid
            &&& r.subrange(28, 32) == len
            &&& r.subrange(32, 33) == direction
            &&& r.subrange(33, 40) == pad
            &&& r.subrange(40, 56) == comm
            &&& r.subrange(HEADER_SIZE as int, EVENT_SIZE as int) == payload
        }),
{
    let p2 = time + ssl;
    let p3 = p2 + tgid;
    let p4 = p3 + tid;
    let p5 = p4 + uid;
    let p6 = p5 + len;
    let p7 = p6 + direction;
    let p8 = p7 + pad;
    let p9 = p8 + comm;
    let r = p9 + payload;
    lemma_field(p9, payload, r);
    lemma_field(p8, comm, r);
    lemma_field(p7, pad, r);
    lemma_field(p6, direction, r);
    lemma_field(p5, len, r);
    lemma_field(p4, uid, r);
    lemma_field(p3, tid, r);
    lemma_field(p2, tgid, r);
    lemma_field(time, ssl, r);
    assert(r.subrange(0, 8) == time);
}

/// A field stands in a record behind the fields before it.
proof fn lemma_field(front: Seq<u8>, field: Seq<u8>, record: Seq<u8>)
    requires
        (front + field).is_prefix_of(record),
    ensures
        record.subrange(front.len() as int, (front.len() + field.len()) as int) == field,
        front.is_prefix_of(record),
{
    let whole = front + field;
    assert(record.subrange(0, whole.len() as int) == whole);
    assert forall|i: int| 0 <= i < whole.len() implies record[i] == #[trigger] whole[i] by {
        assert(record.subrange(0, whole.len() as int)[i] == whole[i]);
    }
    assert(record.subrange(front.len() as int, whole.len() as int) =~= field) by {
        assert forall|i: int| 0 <= i < field.len() implies record[front.len() + i]
            == #[trigger] field[i] by {
            assert(whole[front.len() + i] == field[i]);
        }
    }
    assert(record.subrange(0, front.len() as int) =~= front) by {
        assert forall|i: int| 0 <= i < front.len() implies record[i] == #[trigger] front[i] by {
            assert(whole[i] == front[i]);
        }
    }
}

/// Two events that one record holds agree in every field.
pub proof fn law_record_determines_event(record: Seq<u8>, a: Event, b: Event)
    requires
        record_holds(record, a),
        record_holds(record, b),
    ensures
        a.timestamp_ns == b.timestamp_ns,
        a.ssl_ptr == b.ssl_ptr,
        a.tgid == b.tgid,
        a.tid == b.tid,
        a.uid == b.uid,
        a.payload_len == b.payload_len,
        a.direction == b.direction,
        a._pad@ == b._pad@,
        a.comm@ == b.comm@,
        a.payload@ == b.payload@,
{
}

proof fn lemma_le_len(n: int)
    ensures
        le4(n).len() == 4,
        le8(n).len() == 8,
{
    reveal(le4);
}

proof fn lemma_le4_at(r: Seq<u8>, off: int, n: int)
    requires
        0 <= n < 0x1_0000_0000,
        0 <= off,
        off + 4 <= r.len(),
        r.subrange(off, off + 4) == le4(n),
    ensures
        u32_at(r, off) == n,
{
    reveal(le4);
    let s = r.subrange(off, off + 4);
    assert(s[0] == r[off] && s[1] == r[off + 1] && s[2] == r[off + 2] && s[3] == r[off + 3]);
    lemma_base256(n);
}

/// A 32-bit number is the sum of its four bytes, each in its place.
proof fn lemma_base256(n: int)
    requires
        0 <= n < 0x1_0000_0000,
    ensures
        n == n % 0x100 + 0x100 * (n / 0x100 % 0x100) + 0x1_0000 * (n / 0x1_0000 % 0x100)
            + 0x100_0000 * (n / 0x100_0000 % 0x100),
{
    let second = n / 0x100;
    let third = second / 0x100;
    let fourth = third / 0x100;
    assert(n / 0x1_0000 == third);
    assert(n / 0x100_0000 == fourth);
    assert(fourth < 0x100);
}

proof fn lemma_le8_at(r: Seq<u8>, off: int, n: int)
    requires
        0 <= n < 0x1_0000_0000_0000_0000,
        0 <= off,
        off + 8 <= r.len(),
        r.subrange(off, off + 8) == le8(n),
    ensures
        u64_at(r, off) == n,
{
    let s = r.subrange(off, off + 8);
    let low = n % 0x1_0000_0000;
    let high = n / 0x1_0000_0000;
    lemma_le_len(low);
    lemma_le_len(high);
    assert(r.subrange(off, off + 4) =~= s.subrange(0, 4));
    assert(s.subrange(0, 4) =~= le4(low));
    assert(r.subrange(off + 4, off + 8) =~= s.subrange(4, 8));
    assert(s.subrange(4, 8) =~= le4(high));
    lemma_le4_at(r, off, low);
    lemma_le4_at(r, off + 4, high);
}

/// The name of a task holds no NUL, and ends before one or at the end of the field.
pub proof fn law_name_has_no_nul(e: Event)
    ensures
        !e.name().contains(0),
        e.name().len() < TASK_COMM_LEN ==> e.comm@[e.name().len() as int] == 0,
{
    lemma_nul_from(e.comm@, 0);
    assert forall|i: int| 0 <= i < e.name().len() implies e.name()[i] != 0 by {
        assert(e.comm@[i] != 0);
    }
}

proof fn lemma_nul_from(bytes: Seq<u8>, from: int)
    requires
        0 <= from <= bytes.len(),
    ensures
        from <= nul_from(bytes, from) <= bytes.len(),
        nul_from(bytes, from) < bytes.len() ==> bytes[nul_from(bytes, from)] == 0,
        forall|i: int| from <= i < nul_from(bytes, from) ==> #[trigger] bytes[i] != 0,
    decreases bytes.len() - from,
{
    if from < bytes.len() && bytes[from] != 0 {
        lemma_nul_from(bytes, from + 1);
    }
}

/// As many bytes are captured as a call reported, but never more than 16383, and none
/// where it reported none or failed.
pub proof fn law_captured_length(reported: int)
    ensures
        reported <= 0 ==> clamped_len(reported) == 0,
        0 <= reported <= 16383 ==> clamped_len(reported) == reported,
        reported > 16383 ==> clamped_len(reported) == 16383,
{
}

/// The valid plaintext is the beginning of the payload, as long as the event says,
/// or the whole payload where it says more than there is.
pub proof fn law_plaintext_begins_payload(e: Event, i: int)
    requires
        0 <= i < 16384,
    ensures
        e.payload_len <= 16384 ==> e.plaintext().len() == e.payload_len,
        e.payload_len > 16384 ==> e.plaintext().len() == 16384,
        i < e.payload_len ==> e.plaintext()[i] == e.payload@[i],
{
}

/// The name of a task is the beginning of its field: every byte before the first NUL,
/// or all sixteen where there is none.
pub proof fn law_name_ends_at_first_nul(e: Event, n: int)
    requires
        0 <= n <= 16,
        forall|i: int| 0 <= i < n ==> #[trigger] e.comm@[i] != 0,
        n < 16 ==> e.comm@[n] == 0,
    ensures
        e.name().len() == n,
        forall|i: int| 0 <= i < n ==> #[trigger] e.name()[i] == e.comm@[i],
{
    lemma_nul_from(e.comm@, 0);
    let end = nul_from(e.comm@, 0);
    if end < n {
        assert(e.comm@[end] != 0);
    }
    if n < end {
        assert(e.comm@[n] != 0);
    }
}

/// Where the fields of an event lie in its record, byte by byte, lowest byte first.
pub proof fn law_record_layout(r: Seq<u8>, e: Event)
    requires
        record_holds(r, e),
    ensures
        r.len() >= 16440,
        e.timestamp_ns == r[0] + 256 * r[1] + 65536 * r[2] + 16777216 * r[3] + 4294967296 * (r[4]
            + 256 * r[5] + 65536 * r[6] + 16777216 * r[7]),
        e.ssl_ptr == r[8] + 256 * r[9] + 65536 * r[10] + 16777216 * r[11] + 4294967296 * (r[12]
            + 256 * r[13] + 65536 * r[14] + 16777216 * r[15]),
        e.tgid == r[16] + 256 * r[17] + 65536 * r[18] + 16777216 * r[19],
        e.tid == r[20] + 256 * r[21] + 65536 * r[22] + 16777216 * r[23],
        e.uid == r[24] + 256 * r[25] + 65536 * r[26] + 16777216 * r[27],
        e.payload_len == r[28] + 256 * r[29] + 65536 * r[30] + 16777216 * r[31],
        e.direction == r[32],
        forall|i: int| 0 <= i < 7 ==> #[trigger] e._pad@[i] == r[33 + i],
        forall|i: int| 0 <= i < 16 ==> #[trigger] e.comm@[i] == r[40 + i],
        forall|i: int| 0 <= i < 16384 ==> #[trigger] e.payload@[i] == r[56 + i],
{
}

} // verus!
