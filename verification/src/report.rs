//! What the agent reports: captured plaintext with its origin, and the counters of
//! the capture.

use vstd::prelude::*;
use vstd::string::StringExecFns;
use vstd::utf8::{decode_utf8, valid_utf8};

use crate::capture::{law_captured_bytes_shown, EventHeader, SslArgs, TaskInfo};
use crate::direction;
use crate::event::{law_record_determines_event, law_record_round_trip};
use crate::event::{record_holds, record_of, until_nul, EVENT_SIZE};
use crate::event::{Event, ShortRecord};
use crate::proc_watch::Severity;
use crate::text::{decimal, lossy_text};
use crate::text::lemma_ascii_text;
use crate::text::{from_utf8_lossy, push_decimal};

verus! {

/// Greatest number of bytes shown in a preview.
pub const MAX_PREVIEW: usize = 256;

/// The byte is shown as it is: printable ASCII, newline, carriage return or tab.
pub open spec fn is_shown(b: u8) -> bool {
    b == 0x0a || b == 0x0d || b == 0x09 || 0x20 <= b < 0x7f
}

/// The character for a byte.
pub open spec fn shown_char(b: u8) -> char {
    if is_shown(b) {
        b as char
    } else {
        '.'
    }
}

/// The preview of a plaintext: its first bytes, and the number of those left out.
pub open spec fn preview(payload: Seq<u8>) -> Seq<char> {
    if payload.len() > MAX_PREVIEW {
        payload.take(MAX_PREVIEW as int).map_values(|b: u8| shown_char(b)) + " \u{2026}(+"@
            + decimal((payload.len() - MAX_PREVIEW) as nat) + " bytes)"@
    } else {
        payload.map_values(|b: u8| shown_char(b))
    }
}

/// Render a bounded, printable preview of a plaintext.
pub fn render_preview(payload: &[u8]) -> (text: String)
    ensures
        text@ == preview(payload@),
{
    let shown: usize = if payload.len() > MAX_PREVIEW { MAX_PREVIEW } else { payload.len() };
    let mut text = String::new();
    let mut i: usize = 0;
    while i < shown
        invariant
            i <= shown <= payload@.len(),
            text@ == payload@.take(i as int).map_values(|b: u8| shown_char(b)),
        decreases shown - i,
    {
        let b: u8 = payload[i];
        let ghost before = text@;
        if b == 0x0a || b == 0x0d || b == 0x09 || (0x20 <= b && b < 0x7f) {
            text.push(b as char);
        } else {
            text.push('.');
        }
        assert(text@ == before.push(shown_char(b)));
        assert(text@ == payload@.take(i + 1).map_values(|b: u8| shown_char(b)));
        i += 1;
    }
    if payload.len() > MAX_PREVIEW {
        text.append(" \u{2026}(+");
        push_decimal(&mut text, (payload.len() - MAX_PREVIEW) as u128);
        text.append(" bytes)");
    } else {
        assert(payload@.take(shown as int) == payload@);
    }
    text
}

/// The word for a direction.
pub open spec fn direction_text(dir: u8) -> Seq<char> {
    if dir == direction::WRITE {
        "write"@
    } else if dir == direction::READ {
        "read"@
    } else {
        "?"@
    }
}

/// The word for a direction, `?` for a byte that stands for none.
pub fn direction_word(dir: u8) -> (word: &'static str)
    ensures
        word@ == direction_text(dir),
{
    if dir == direction::WRITE {
        "write"
    } else if dir == direction::READ {
        "read"
    } else {
        "?"
    }
}

/// One captured plaintext with its origin.
#[derive(Debug, Clone)]
pub struct EventReport {
    pub pid: u32,
    pub tid: u32,
    pub uid: u32,
    /// Name of the task.
    pub comm: String,
    /// The direction byte, as it was in the record.
    pub direction: u8,
    /// The word for the direction.
    pub dir: &'static str,
    /// Number of bytes, as it was in the record.
    pub len: u32,
    /// The session pointer.
    pub ssl: u64,
    /// Preview of the plaintext.
    pub preview: String,
}

impl EventReport {
    /// The report is that of the event.
    pub open spec fn is_of(self, e: Event) -> bool {
        &&& self.pid == e.tgid
        &&& self.tid == e.tid
        &&& self.uid == e.uid
        &&& self.comm@ == lossy_text(e.name())
        &&& valid_utf8(e.name()) ==> self.comm@ == decode_utf8(e.name())
        &&& self.direction == e.direction
        &&& self.dir@ == direction_text(e.direction)
        &&& self.len == e.payload_len
        &&& self.ssl == e.ssl_ptr
        &&& self.preview@ == preview(e.plaintext())
    }

    /// Report an event.
    pub fn of_event(event: &Event) -> (report: EventReport)
        ensures
            report.is_of(*event),
    {
        EventReport {
            pid: event.tgid,
            tid: event.tid,
            uid: event.uid,
            comm: from_utf8_lossy(event.comm_bytes()),
            direction: event.direction,
            dir: direction_word(event.direction),
            len: event.payload_len,
            ssl: event.ssl_ptr,
            preview: render_preview(event.payload()),
        }
    }
}

/// Report the event in a record of the ring buffer. A record that is too short is
/// refused with its length.
pub fn handle_record(record: &[u8]) -> (res: Result<EventReport, ShortRecord>)
    ensures
        match res {
            Ok(report) => exists|e: Event| #[trigger]
                record_holds(record@, e) && report.is_of(e),
            Err(short) => record@.len() < EVENT_SIZE && short.got == record@.len() && short.want
                == EVENT_SIZE,
        },
{
    match Event::from_record(record) {
        Ok(event) => Ok(EventReport::of_event(&event)),
        Err(short) => Err(short),
    }
}

// ---------------------------------------------------------------------------
// Counters
// ---------------------------------------------------------------------------

/// The sum of the values.
pub open spec fn total(values: Seq<u64>) -> int
    decreases values.len(),
{
    if values.len() == 0 {
        0
    } else {
        total(values.drop_last()) + values.last()
    }
}

proof fn lemma_total_grows(values: Seq<u64>, n: int)
    requires
        0 <= n <= values.len(),
    ensures
        0 <= total(values.take(n)) <= total(values),
    decreases values.len(),
{
    if n == values.len() {
        assert(values.take(n) == values);
        if n > 0 {
            lemma_total_grows(values.drop_last(), n - 1);
            assert(values.drop_last().take(n - 1) == values.drop_last());
        }
    } else {
        lemma_total_grows(values.drop_last(), n);
        assert(values.drop_last().take(n) == values.take(n));
    }
}

/// The value of a counter: the sum over the CPUs, or zero where it could not be
/// read. `None` where the sum does not fit.
pub fn counter_total(per_cpu: Option<&[u64]>) -> (sum: Option<u64>)
    ensures
        match per_cpu {
            Some(values) => sum == if total(values@) <= u64::MAX {
                Some(total(values@) as u64)
            } else {
                None
            },
            None => sum == Some(0u64),
        },
{
    let values: &[u64] = match per_cpu {
        Some(values) => values,
        None => return Some(0),
    };
    let mut sum: u64 = 0;
    let mut i: usize = 0;
    while i < values.len()
        invariant
            i <= values@.len(),
            per_cpu == Some(values),
            sum == total(values@.take(i as int)),
        decreases values@.len() - i,
    {
        assert(values@.take(i + 1).drop_last() == values@.take(i as int));
        proof {
            lemma_total_grows(values@, i + 1);
        }
        if values[i] > u64::MAX - sum {
            return None;
        }
        sum = sum + values[i];
        i += 1;
    }
    assert(values@.take(values@.len() as int) == values@);
    Some(sum)
}

/// The counters of the capture at one moment.
#[derive(Debug, Clone, Copy, PartialEq, Eq)]
pub struct Counters {
    pub submitted: u64,
    pub ringbuf_full: u64,
    pub read_fault: u64,
    pub stash_full: u64,
}

impl Counters {
    /// Some call was dropped.
    pub open spec fn has_drops(self) -> bool {
        self.ringbuf_full > 0 || self.read_fault > 0 || self.stash_full > 0
    }
}

/// One report of the counters.
#[derive(Debug, Clone, Copy, PartialEq, Eq)]
pub struct StatsReport {
    pub counters: Counters,
    /// Events submitted since the report before.
    pub submitted_delta: u64,
    /// Some call was dropped since the capture began.
    pub drops: bool,
}

/// How urgent a report of the counters is, and what it says: a drop is warned of.
pub fn stats_notice(report: &StatsReport) -> (notice: (Severity, &'static str))
    ensures
        report.drops ==> notice.0 is Warn && notice.1@ == "capture stats (DROPS PRESENT)"@,
        !report.drops ==> notice.0 is Info && notice.1@ == "capture stats (clean)"@,
{
    if report.drops {
        (Severity::Warn, "capture stats (DROPS PRESENT)")
    } else {
        (Severity::Info, "capture stats (clean)")
    }
}

/// The events submitted between two counts.
pub open spec fn delta(before: u64, now: u64) -> int {
    if now > before {
        now - before
    } else {
        0
    }
}

/// Reports the counters, one report after the other.
#[derive(Debug, Clone, Copy)]
pub struct StatsReporter {
    last_submitted: u64,
}

impl StatsReporter {
    /// The number of submitted events at the last report.
    pub closed spec fn last(self) -> u64 {
        self.last_submitted
    }

    /// A reporter that has not reported yet.
    pub fn new() -> (reporter: StatsReporter)
        ensures
            reporter.last() == 0,
    {
        StatsReporter { last_submitted: 0 }
    }

    /// Report the counters. A counter of submitted events that went back counts as
    /// no progress.
    pub fn report(&mut self, counters: Counters) -> (report: StatsReport)
        ensures
            report.counters == counters,
            report.submitted_delta == delta(old(self).last(), counters.submitted),
            report.drops == counters.has_drops(),
            final(self).last() == counters.submitted,
    {
        let submitted_delta: u64 = counters.submitted.saturating_sub(self.last_submitted);
        self.last_submitted = counters.submitted;
        StatsReport {
            counters,
            submitted_delta,
            drops: counters.ringbuf_full > 0 || counters.read_fault > 0 || counters.stash_full > 0,
        }
    }
}

// ---------------------------------------------------------------------------
// Laws
// ---------------------------------------------------------------------------

/// What the kernel side wrote is what is reported: a report made from the record of
/// an event is the report of that event.
pub proof fn law_written_event_is_reported(e: Event, report: EventReport)
    requires
        exists|seen: Event| #[trigger] record_holds(record_of(e), seen) && report.is_of(seen),
    ensures
        report.is_of(e),
{
    law_record_round_trip(e);
    let seen = choose|seen: Event| #[trigger]
        record_holds(record_of(e), seen) && report.is_of(seen);
    law_record_determines_event(record_of(e), e, seen);
}

/// Plaintext is reported with its origin: for a call whose event carries the header
/// of its capture and the captured bytes, the report names the process, the thread,
/// the user, the task, the direction and the session of the call, and previews
/// exactly the captured bytes.
pub proof fn law_capture_is_attributed(
    e: Event,
    h: EventHeader,
    args: SslArgs,
    direction: u8,
    reported: i64,
    task: TaskInfo,
    bytes: Seq<u8>,
    report: EventReport,
)
    requires
        h.is_of(args, direction, reported as int, task),
        h.heads(e, bytes),
        exists|seen: Event| #[trigger] record_holds(record_of(e), seen) && report.is_of(seen),
    ensures
        report.pid == task.pid_tgid / 0x1_0000_0000,
        report.tid == task.pid_tgid % 0x1_0000_0000,
        report.uid == task.uid_gid % 0x1_0000_0000,
        report.comm@ == lossy_text(until_nul(task.name_field())),
        report.dir@ == direction_text(direction),
        report.len == bytes.len(),
        report.ssl == args.ssl,
        report.preview@ == preview(bytes),
{
    law_written_event_is_reported(e, report);
    law_captured_bytes_shown(e, h, args, direction, reported, task, bytes);
}

/// A preview shows a short plaintext byte by byte, and the beginning of a long one;
/// what it shows of it is printable ASCII, newline, carriage return or tab.
pub proof fn law_preview_is_printable(payload: Seq<u8>, i: int)
    requires
        0 <= i < payload.len(),
        i < MAX_PREVIEW,
    ensures
        i < preview(payload).len(),
        is_shown(preview(payload)[i] as u8),
        is_shown(payload[i]) ==> preview(payload)[i] == payload[i] as char,
        payload.len() <= MAX_PREVIEW ==> preview(payload).len() == payload.len(),
{
}

/// The deltas that a new reporter reports for counts one after the other, added up.
pub open spec fn reported_total(counts: Seq<u64>) -> int
    decreases counts.len(),
{
    if counts.len() == 0 {
        0
    } else {
        let before = if counts.len() >= 2 {
            counts[counts.len() - 2]
        } else {
            0
        };
        reported_total(counts.drop_last()) + delta(before, counts.last())
    }
}

/// The deltas of a counter that never goes back add up to the counter: no event is
/// reported twice, and none is left out.
pub proof fn law_deltas_add_up(counts: Seq<u64>)
    requires
        counts.len() > 0,
        forall|i: int, j: int| 0 <= i <= j < counts.len() ==> counts[i] <= counts[j],
    ensures
        reported_total(counts) == counts.last(),
    decreases counts.len(),
{
    if counts.len() >= 2 {
        let front = counts.drop_last();
        assert forall|i: int, j: int| 0 <= i <= j < front.len() implies front[i] <= front[j] by {
            assert(counts[i] <= counts[j]);
        }
        law_deltas_add_up(front);
        assert(counts[counts.len() - 2] <= counts[counts.len() - 1]);
    } else {
        assert(reported_total(counts.drop_last()) == 0);
    }
}

/// A byte of the plaintext is shown as it is where it is printable ASCII, a tab, a
/// newline or a carriage return, and as a dot otherwise.
pub proof fn law_preview_shows_bytes(payload: Seq<u8>, i: int)
    requires
        0 <= i < payload.len(),
        i < 256,
    ensures
        i < preview(payload).len(),
        32 <= payload[i] <= 126 || payload[i] == 9 || payload[i] == 10 || payload[i] == 13
            ==> preview(payload)[i] as int == payload[i],
        !(32 <= payload[i] <= 126 || payload[i] == 9 || payload[i] == 10 || payload[i] == 13)
            ==> preview(payload)[i] == '.',
{
}

/// A plaintext of up to 256 bytes is shown whole and nothing else; of a longer one the
/// first 256 bytes are shown as they would be alone, and then how many are left out.
pub proof fn law_preview_is_bounded(shown: Seq<u8>, hidden: Seq<u8>)
    ensures
        shown.len() <= 256 ==> preview(shown).len() == shown.len(),
        shown.len() == 256 && hidden.len() > 0 ==> preview(shown + hidden) == preview(shown)
            + " \u{2026}(+"@ + decimal(hidden.len()) + " bytes)"@,
{
    if shown.len() == 256 && hidden.len() > 0 {
        assert((shown + hidden).take(256) =~= shown);
    }
}

/// The words for the directions.
pub proof fn law_direction_words(dir: u8)
    ensures
        dir == 0 ==> direction_text(dir) == "write"@,
        dir == 1 ==> direction_text(dir) == "read"@,
        dir > 1 ==> direction_text(dir) == "?"@,
{
}

/// A report has the numbers of its event, and the name of the task as it is where the
/// name is ASCII.
pub proof fn law_report_tells_the_event(e: Event, report: EventReport, i: int)
    requires
        report.is_of(e),
        forall|k: int| 0 <= k < e.name().len() ==> #[trigger] e.name()[k] < 0x80,
    ensures
        report.pid == e.tgid,
        report.tid == e.tid,
        report.uid == e.uid,
        report.direction == e.direction,
        report.len == e.payload_len,
        report.ssl == e.ssl_ptr,
        report.comm@.len() == e.name().len(),
        0 <= i < e.name().len() ==> report.comm@[i] as int == e.name()[i],
{
    lemma_ascii_text(e.name());
}

/// Counters are summed: the total over two groups of CPUs is that of both.
pub proof fn law_totals_add(a: Seq<u64>, b: Seq<u64>, x: u64)
    ensures
        total(Seq::<u64>::empty()) == 0,
        total(seq![x]) == x,
        total(a + b) == total(a) + total(b),
    decreases b.len(),
{
    assert(seq![x].drop_last() =~= Seq::<u64>::empty());
    assert(total(seq![x].drop_last()) == 0);
    if b.len() == 0 {
        assert(a + b =~= a);
    } else {
        law_totals_add(a, b.drop_last(), x);
        assert((a + b).drop_last() =~= a + b.drop_last());
        assert((a + b).last() == b.last());
    }
}

/// A delta is what was added, and nothing where the counter went back. Drops are there
/// as soon as one of the three counters of drops is not zero.
pub proof fn law_deltas_and_drops(before: u64, now: u64, c: Counters)
    ensures
        now >= before ==> delta(before, now) == now - before,
        now < before ==> delta(before, now) == 0,
        c.has_drops() <==> c.ringbuf_full + c.read_fault + c.stash_full > 0,
{
}

} // verus!
