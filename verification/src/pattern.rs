//! Locating BoringSSL's `ssl_lib.cc` inside a stripped binary.
//!
//! Every error path of that source file loads the address of one read-only
//! string, the file's own path, with a RIP-relative `lea`. Finding the string and
//! the `lea` sites that point at it leads to the functions of the file. The
//! functions lie far apart, while the sites inside one function lie close
//! together, so clustering the sites by distance gives one cluster per function,
//! and the number of sites in a cluster hints at which function it is.
//!
//! A cluster is a candidate, not a confirmed function: its addresses are sites
//! inside a function, not the function's entry.

use vstd::prelude::*;
use vstd::slice::{slice_subrange, slice_to_vec};

use crate::elf::ElfImage;
use crate::elf::{exec_views, vaddr_of, ExecSegment, ExecView};
use crate::le::read_u32;
use crate::le::u32_at;
use crate::text::from_utf8_lossy;
use crate::text::{ascii_text, lemma_ascii_text, stands_at};

verus! {

/// The tail of the embedded source path: `ssl_lib.cc`.
pub const ANCHOR_NEEDLE: [u8; 10] = [0x73, 0x73, 0x6c, 0x5f, 0x6c, 0x69, 0x62, 0x2e, 0x63, 0x63];

/// The greatest length of a string that can be the embedded path.
pub const ANCHOR_MAX_LEN: usize = 512;

/// Greatest distance between neighbouring sites of one cluster. Any value from a
/// few hundred bytes to tens of KiB gives the same clusters on a real target.
pub const DEFAULT_CLUSTER_GAP: u64 = 4096;

/// Number of error sites in `SSL_write`.
pub const SSL_WRITE_REF_COUNT: usize = 4;

/// Number of error sites in `SSL_peek`.
pub const SSL_PEEK_REF_COUNT: usize = 1;

/// What the number of sites in a cluster suggests.
#[derive(Debug, Clone, Copy, PartialEq, Eq, Structural)]
pub enum ClusterRole {
    /// As many sites as `SSL_write` has.
    SslWriteCandidate,
    /// As many sites as `SSL_peek` has, which leads to `SSL_read`.
    SslPeekCandidate,
    /// Another function of the file.
    Other,
}

impl ClusterRole {
    /// The role for a number of sites.
    pub open spec fn of_count(n: int) -> ClusterRole {
        if n == SSL_WRITE_REF_COUNT {
            ClusterRole::SslWriteCandidate
        } else if n == SSL_PEEK_REF_COUNT {
            ClusterRole::SslPeekCandidate
        } else {
            ClusterRole::Other
        }
    }

    /// The role for a number of sites.
    pub fn from_ref_count(n: usize) -> (role: ClusterRole)
        ensures
            role == ClusterRole::of_count(n as int),
    {
        if n == SSL_WRITE_REF_COUNT {
            ClusterRole::SslWriteCandidate
        } else if n == SSL_PEEK_REF_COUNT {
            ClusterRole::SslPeekCandidate
        } else {
            ClusterRole::Other
        }
    }
}

// ---------------------------------------------------------------------------
// The anchor string
// ---------------------------------------------------------------------------

/// Where the C string around `pos` begins: behind the last NUL before `pos`.
pub open spec fn string_start(d: Seq<u8>, pos: int) -> int
    decreases pos,
{
    if pos <= 0 {
        0
    } else if d[pos - 1] == 0 {
        pos
    } else {
        string_start(d, pos - 1)
    }
}

/// Where the C string around `pos` ends: at the first NUL from `pos` on.
pub open spec fn string_end(d: Seq<u8>, pos: int) -> int
    decreases d.len() - pos,
{
    if pos >= d.len() {
        d.len() as int
    } else if d[pos] == 0 {
        pos
    } else {
        string_end(d, pos + 1)
    }
}

/// The bytes can be a source path: not too long, and printable.
pub open spec fn plausible(s: Seq<u8>) -> bool {
    &&& s.len() <= ANCHOR_MAX_LEN
    &&& forall|i: int| 0 <= i < s.len() ==> 0x09 <= #[trigger] s[i] <= 0x7e
}

/// The C string around `pos`.
pub open spec fn c_string(d: Seq<u8>, pos: int) -> Seq<u8> {
    d.subrange(string_start(d, pos), string_end(d, pos))
}

/// The needle stands at `pos`, inside a string that can be a source path.
pub open spec fn anchor_at(d: Seq<u8>, pos: int) -> bool {
    stands_at(d, ANCHOR_NEEDLE@, pos) && plausible(c_string(d, pos))
}

/// The first such position from `from` on.
pub open spec fn first_anchor(d: Seq<u8>, from: int) -> Option<int>
    decreases d.len() - from,
{
    if from + ANCHOR_NEEDLE@.len() > d.len() {
        None
    } else if anchor_at(d, from) {
        Some(from)
    } else {
        first_anchor(d, from + 1)
    }
}

/// Whether the needle stands at `pos`.
fn needle_at(data: &[u8], pos: usize) -> (found: bool)
    ensures
        found == stands_at(data@, ANCHOR_NEEDLE@, pos as int),
{
    let needle: [u8; 10] = ANCHOR_NEEDLE;
    if pos > data.len() || data.len() - pos < 10 {
        return false;
    }
    let mut k: usize = 0;
    while k < 10
        invariant
            needle@ == ANCHOR_NEEDLE@,
            needle@.len() == 10,
            pos + 10 <= data@.len() <= usize::MAX,
            k <= 10,
            forall|j: int| 0 <= j < k ==> data@[pos + j] == #[trigger] needle@[j],
        decreases 10 - k,
    {
        if data[pos + k] != needle[k] {
            assert(data@.subrange(pos as int, pos + 10)[k as int] != needle@[k as int]);
            return false;
        }
        k += 1;
    }
    assert(data@.subrange(pos as int, pos + 10) == needle@);
    true
}

/// Find the anchor and expand it to the whole C string around it. Returns where
/// the string begins in the file, and the string. An occurrence inside bytes that
/// are no printable string is passed over.
pub fn find_anchor(data: &[u8]) -> (found: Option<(usize, String)>)
    ensures
        match found {
            Some((start, text)) => first_anchor(data@, 0) matches Some(pos) && start
                == string_start(data@, pos) && text@ == ascii_text(c_string(data@, pos)),
            None => first_anchor(data@, 0) is None,
        },
{
    let len: usize = data.len();
    let mut pos: usize = 0;
    while pos <= len && len - pos >= 10
        invariant
            len == data@.len(),
            pos <= len + 1,
            first_anchor(data@, 0) == first_anchor(data@, pos as int),
        decreases len + 1 - pos,
    {
        if needle_at(data, pos) {
            let mut start: usize = pos;
            while start > 0 && data[start - 1] != 0
                invariant
                    start <= pos <= data@.len(),
                    string_start(data@, pos as int) == string_start(data@, start as int),
                decreases start,
            {
                start -= 1;
            }
            let mut end: usize = pos;
            while end < len && data[end] != 0
                invariant
                    len == data@.len(),
                    pos <= end <= len,
                    string_end(data@, pos as int) == string_end(data@, end as int),
                decreases len - end,
            {
                end += 1;
            }
            let text = slice_subrange(data, start, end);
            assert(text@ == c_string(data@, pos as int));
            if is_plausible(text) {
                proof {
                    lemma_ascii_text(text@);
                }
                return Some((start, from_utf8_lossy(text)));
            }
        }
        pos += 1;
    }
    None
}

/// Whether the bytes can be a source path.
fn is_plausible(s: &[u8]) -> (yes: bool)
    ensures
        yes == plausible(s@),
{
    if s.len() > ANCHOR_MAX_LEN {
        return false;
    }
    let mut i: usize = 0;
    while i < s.len()
        invariant
            i <= s@.len() <= ANCHOR_MAX_LEN,
            forall|j: int| 0 <= j < i ==> 0x09 <= #[trigger] s@[j] <= 0x7e,
        decreases s@.len() - i,
    {
        if s[i] < 0x09 || s[i] > 0x7e {
            return false;
        }
        i += 1;
    }
    true
}

// ---------------------------------------------------------------------------
// Reference sites
// ---------------------------------------------------------------------------

/// A number taken into the 64-bit address space.
pub open spec fn wrap64(n: int) -> int {
    n % 0x1_0000_0000_0000_0000
}

/// A 32-bit pattern read as a signed number.
pub open spec fn signed32(bits: int) -> int {
    if bits < 0x8000_0000 {
        bits
    } else {
        bits - 0x1_0000_0000
    }
}

/// Length and displacement of the `lea reg, [rip + disp32]` whose encoding
/// begins at `k`: seven bytes with a REX.W prefix, or six without any REX prefix.
pub open spec fn lea_rip_at(b: Seq<u8>, k: int) -> Option<(int, int)> {
    if k + 7 <= b.len() && 0x48 <= b[k] <= 0x4f && b[k + 1] == 0x8d && b[k + 2] & 0xc7 == 0x05 {
        Some((7, signed32(u32_at(b, k + 3))))
    } else if k + 6 <= b.len() && b[k] == 0x8d && b[k + 1] & 0xc7 == 0x05 && !(k > 0 && 0x40
        <= b[k - 1] <= 0x4f) {
        Some((6, signed32(u32_at(b, k + 2))))
    } else {
        None
    }
}

/// The instruction at `k` of a segment at `base` loads the address `target`.
pub open spec fn is_ref(b: Seq<u8>, base: int, target: int, k: int) -> bool {
    match lea_rip_at(b, k) {
        Some((len, disp)) => wrap64(base + k + len + disp) == target,
        None => false,
    }
}

/// The addresses of the instructions among the first `n` positions of a segment
/// at `base` that load the address `target`, in order.
pub open spec fn refs_before(b: Seq<u8>, base: int, target: int, n: int) -> Seq<u64>
    decreases n,
{
    if n <= 0 {
        Seq::empty()
    } else if is_ref(b, base, target, n - 1) {
        refs_before(b, base, target, n - 1).push(wrap64(base + n - 1) as u64)
    } else {
        refs_before(b, base, target, n - 1)
    }
}

/// All sites of a segment. The shorter encoding takes six bytes, so no site lies
/// closer to the end.
pub open spec fn refs_in(b: Seq<u8>, base: int, target: int) -> Seq<u64> {
    refs_before(b, base, target, b.len() - 5)
}

/// The opcode byte of an instruction with a REX prefix is not taken for the
/// beginning of an instruction without one: a site is counted once.
pub proof fn law_site_counted_once(b: Seq<u8>, k: int)
    requires
        0 <= k,
        0x48 <= b[k] <= 0x4f,
        b[k + 1] == 0x8d,
    ensures
        lea_rip_at(b, k + 1) is None,
{
}

/// The sites of a segment are the addresses of exactly those instructions that
/// load the target.
pub proof fn law_refs_are_the_sites(b: Seq<u8>, base: int, target: int, x: u64)
    ensures
        refs_in(b, base, target).contains(x) <==> exists|k: int|
            0 <= k && k + 6 <= b.len() && #[trigger] is_ref(b, base, target, k) && x == wrap64(
                base + k,
            ),
{
    lemma_refs_before(b, base, target, b.len() - 5, x);
}

proof fn lemma_refs_before(b: Seq<u8>, base: int, target: int, n: int, x: u64)
    ensures
        refs_before(b, base, target, n).contains(x) <==> exists|k: int|
            0 <= k < n && #[trigger] is_ref(b, base, target, k) && x == wrap64(base + k),
    decreases n,
{
    if n > 0 {
        lemma_refs_before(b, base, target, n - 1, x);
        let front = refs_before(b, base, target, n - 1);
        let all = refs_before(b, base, target, n);
        if is_ref(b, base, target, n - 1) {
            assert(all[front.len() as int] == wrap64(base + n - 1));
            if front.contains(x) {
                let i = choose|i: int| 0 <= i < front.len() && front[i] == x;
                assert(all[i] == x);
            }
            if all.contains(x) {
                let i = choose|i: int| 0 <= i < all.len() && all[i] == x;
                if i < front.len() {
                    assert(front[i] == x);
                }
            }
        }
    }
}

/// One more position adds its site, where it is one.
proof fn lemma_refs_step(before: Seq<u64>, b: Seq<u8>, base: int, target: int, k: int)
    requires
        k >= 0,
    ensures
        before + refs_before(b, base, target, k + 1) == if is_ref(b, base, target, k) {
            (before + refs_before(b, base, target, k)).push(wrap64(base + k) as u64)
        } else {
            before + refs_before(b, base, target, k)
        },
{
    let front = refs_before(b, base, target, k);
    let site = wrap64(base + k) as u64;
    assert(before + front.push(site) =~= (before + front).push(site));
}

/// Taking a sum into the address space can be done in steps.
proof fn lemma_wrap_in_steps(a: int, b: int)
    ensures
        wrap64(wrap64(a) + b) == wrap64(a + b),
{
    vstd::arithmetic::div_mod::lemma_add_mod_noop_right(b, a, 0x1_0000_0000_0000_0000);
}

/// The address that the instruction of `len` bytes at `at` reaches by the
/// displacement `disp`.
fn rip_target(at: u64, len: u64, disp: u32) -> (target: u64)
    requires
        len <= 7,
    ensures
        target == wrap64(at + len + signed32(disp as int)),
{
    let extended: u64 = if disp < 0x8000_0000 {
        disp as u64
    } else {
        0xffff_ffff_0000_0000 + disp as u64
    };
    at.wrapping_add(len).wrapping_add(extended)
}

/// The address of position `k` of a segment at `base`.
fn address_at(base: u64, k: usize) -> (address: u64)
    ensures
        address == wrap64(base + k),
{
    base.wrapping_add(k as u64)
}

/// Whether the instruction at `k` of a segment at `base` loads the address
/// `target`.
fn ref_at(bytes: &[u8], base: u64, target: u64, k: usize) -> (hit: bool)
    requires
        k + 6 <= bytes@.len(),
    ensures
        hit == is_ref(bytes@, base as int, target as int, k as int),
{
    let b0: u8 = bytes[k];
    let at: u64 = address_at(base, k);
    if bytes.len() - k >= 7 && 0x48 <= b0 && b0 <= 0x4f && bytes[k + 1] == 0x8d && bytes[k + 2]
        & 0xc7 == 0x05 {
        let disp: u32 = read_u32(bytes, k + 3);
        proof {
            lemma_wrap_in_steps(base + k, 7 + signed32(disp as int));
        }
        return rip_target(at, 7, disp) == target;
    }
    let after_rex = k > 0 && 0x40 <= bytes[k - 1] && bytes[k - 1] <= 0x4f;
    if b0 == 0x8d && bytes[k + 1] & 0xc7 == 0x05 && !after_rex {
        let disp: u32 = read_u32(bytes, k + 2);
        proof {
            lemma_wrap_in_steps(base + k, 6 + signed32(disp as int));
        }
        return rip_target(at, 6, disp) == target;
    }
    false
}

/// Scan the bytes of a segment for RIP-relative `lea` instructions that load the
/// address `target_vaddr`, and append the address of each to `out`.
pub fn scan_lea_rip_into(bytes: &[u8], base_vaddr: u64, target_vaddr: u64, out: &mut Vec<u64>)
    ensures
        final(out)@ == old(out)@ + refs_in(bytes@, base_vaddr as int, target_vaddr as int),
{
    let n: usize = bytes.len();
    let ghost before = out@;
    let ghost base = base_vaddr as int;
    let ghost target = target_vaddr as int;
    let mut k: usize = 0;
    assert(out@ == before + refs_before(bytes@, base, target, 0));
    while k < n && n - k >= 6
        invariant
            n == bytes@.len(),
            base == base_vaddr,
            target == target_vaddr,
            k == 0 || k <= n - 5,
            out@ == before + refs_before(bytes@, base, target, k as int),
        decreases n - k,
    {
        proof {
            lemma_refs_step(before, bytes@, base, target, k as int);
        }
        if ref_at(bytes, base_vaddr, target_vaddr, k) {
            out.push(address_at(base_vaddr, k));
        }
        k += 1;
    }
    assert(refs_in(bytes@, base, target) == refs_before(bytes@, base, target, k as int));
}

// ---------------------------------------------------------------------------
// Clusters
// ---------------------------------------------------------------------------

/// How far `b` lies beyond `a`.
pub open spec fn distance(a: u64, b: u64) -> int {
    if b > a {
        b - a
    } else {
        0
    }
}

/// Addresses split wherever the next lies more than `gap` beyond the one before.
pub open spec fn clusters_of(hits: Seq<u64>, gap: int) -> Seq<Seq<u64>>
    decreases hits.len(),
{
    if hits.len() == 0 {
        Seq::empty()
    } else {
        let front = clusters_of(hits.drop_last(), gap);
        let h = hits.last();
        if hits.len() >= 2 && distance(hits[hits.len() - 2], h) <= gap {
            front.drop_last().push(front.last().push(h))
        } else {
            front.push(seq![h])
        }
    }
}

/// The addresses of clusters one after the other.
pub open spec fn joined(clusters: Seq<Seq<u64>>) -> Seq<u64>
    decreases clusters.len(),
{
    if clusters.len() == 0 {
        Seq::empty()
    } else {
        joined(clusters.drop_last()) + clusters.last()
    }
}

/// Neighbouring addresses of one cluster lie at most `gap` apart.
pub open spec fn is_close(cluster: Seq<u64>, gap: int) -> bool {
    forall|i: int, j: int|
        #![trigger cluster[i], cluster[j]]
        0 <= i && j == i + 1 && j < cluster.len() ==> cluster[j] - cluster[i] <= gap
}

/// A clustering: no cluster is empty, neighbours inside a cluster are close, and
/// each cluster begins more than `gap` beyond the end of the one before.
pub open spec fn is_clustering(clusters: Seq<Seq<u64>>, gap: int) -> bool {
    &&& forall|c: int|
        0 <= c < clusters.len() ==> (#[trigger] clusters[c]).len() > 0 && is_close(clusters[c], gap)
    &&& forall|c: int, d: int|
        #![trigger clusters[c], clusters[d]]
        0 <= c && d == c + 1 && d < clusters.len() ==> clusters[d][0] - clusters[c].last() > gap
}

/// Clustering loses no address, adds none and keeps the order; it splits exactly
/// where the distance exceeds the gap.
pub proof fn law_clusters_partition(hits: Seq<u64>, gap: int)
    requires
        gap >= 0,
    ensures
        joined(clusters_of(hits, gap)) == hits,
        is_clustering(clusters_of(hits, gap), gap),
        hits.len() > 0 <==> clusters_of(hits, gap).len() > 0,
        hits.len() > 0 ==> clusters_of(hits, gap).last().last() == hits.last(),
    decreases hits.len(),
{
    if hits.len() > 0 {
        let rest = hits.drop_last();
        let front = clusters_of(rest, gap);
        let h = hits.last();
        let all = clusters_of(hits, gap);
        law_clusters_partition(rest, gap);
        if hits.len() >= 2 && distance(hits[hits.len() - 2], h) <= gap {
            let last = front.last().push(h);
            assert(all == front.drop_last().push(last));
            assert(all.drop_last() == front.drop_last());
            assert(joined(all) == joined(front).push(h));
            assert(rest.push(h) == hits);
            assert(front[front.len() - 1] == front.last());
            assert(is_close(last, gap)) by {
                assert forall|i: int, j: int|
                    #![trigger last[i], last[j]]
                    0 <= i && j == i + 1 && j < last.len() implies last[j] - last[i] <= gap by {
                    assert(last[i] == front.last()[i]);
                    if j < front.last().len() {
                        assert(last[j] == front.last()[j]);
                    }
                }
            }
            assert forall|c: int| 0 <= c < all.len() implies (#[trigger] all[c]).len() > 0
                && is_close(all[c], gap) by {
                if c < front.len() - 1 {
                    assert(all[c] == front[c]);
                }
            }
            assert forall|c: int, d: int|
                #![trigger all[c], all[d]]
                0 <= c && d == c + 1 && d < all.len() implies all[d][0] - all[c].last() > gap by {
                assert(all[c] == front[c]);
                assert(all[d][0] == front[d][0]);
            }
        } else {
            assert(all == front.push(seq![h]));
            assert(all.drop_last() == front);
            assert(rest.push(h) == hits);
            assert(joined(all) == hits);
            assert forall|c: int| 0 <= c < all.len() implies (#[trigger] all[c]).len() > 0
                && is_close(all[c], gap) by {
                if c < front.len() {
                    assert(all[c] == front[c]);
                }
            }
            assert forall|c: int, d: int|
                #![trigger all[c], all[d]]
                0 <= c && d == c + 1 && d < all.len() implies all[d][0] - all[c].last() > gap by {
                assert(all[c] == front[c]);
                if d < front.len() {
                    assert(all[d] == front[d]);
                } else {
                    assert(front.last().last() == rest.last());
                }
            }
        }
    }
}

/// Split addresses into clusters, breaking wherever the distance between
/// neighbours exceeds `gap`. Meant for ascending input.
pub fn cluster_refs(sorted_hits: &[u64], gap: u64) -> (clusters: Vec<Vec<u64>>)
    ensures
        clusters@.map_values(|c: Vec<u64>| c@) == clusters_of(sorted_hits@, gap as int),
{
    let mut clusters: Vec<Vec<u64>> = Vec::new();
    let mut cur: Vec<u64> = Vec::new();
    let mut i: usize = 0;
    assert(sorted_hits@.take(0) == Seq::<u64>::empty());
    assert(clusters@.map_values(|c: Vec<u64>| c@) == clusters_of(sorted_hits@.take(0), gap as int));
    while i < sorted_hits.len()
        invariant
            i <= sorted_hits@.len(),
            i == 0 <==> cur@.len() == 0,
            i > 0 ==> cur@.last() == sorted_hits@[i - 1],
            i == 0 ==> clusters@.len() == 0,
            clusters_of(sorted_hits@.take(i as int), gap as int) == if i == 0 {
                Seq::empty()
            } else {
                clusters@.map_values(|c: Vec<u64>| c@).push(cur@)
            },
        decreases sorted_hits@.len() - i,
    {
        let h: u64 = sorted_hits[i];
        let ghost shorter = sorted_hits@.take(i as int);
        let ghost longer = sorted_hits@.take(i + 1);
        let ghost done = clusters@.map_values(|c: Vec<u64>| c@);
        let ghost open = cur@;
        assert(longer.drop_last() == shorter);
        assert(longer.last() == h);
        if i > 0 {
            assert(longer[longer.len() - 2] == sorted_hits@[i - 1]);
            let last: u64 = cur[cur.len() - 1];
            if h.saturating_sub(last) > gap {
                clusters.push(cur);
                assert(clusters@.map_values(|c: Vec<u64>| c@) == done.push(open));
                cur = Vec::new();
            } else {
                assert(done.push(open).drop_last() == done);
            }
        }
        cur.push(h);
        assert(i == 0 || cur@.len() == 1 ==> cur@ == seq![h]);
        assert(clusters_of(longer, gap as int) == clusters@.map_values(|c: Vec<u64>| c@).push(
            cur@,
        ));
        i += 1;
    }
    assert(sorted_hits@.take(sorted_hits@.len() as int) == sorted_hits@);
    if !cur.is_empty() {
        let ghost done = clusters@.map_values(|c: Vec<u64>| c@);
        let ghost open = cur@;
        clusters.push(cur);
        assert(clusters@.map_values(|c: Vec<u64>| c@) == done.push(open));
    } else {
        assert(clusters@.map_values(|c: Vec<u64>| c@) == Seq::<Seq<u64>>::empty());
    }
    clusters
}

/// The addresses ascend.
pub open spec fn is_ascending(hits: Seq<u64>) -> bool {
    forall|i: int, j: int| 0 <= i <= j < hits.len() ==> hits[i] <= hits[j]
}

/// The addresses in ascending order.
pub open spec fn in_order(hits: Seq<u64>) -> Seq<u64> {
    hits.sort_by(|a: u64, b: u64| a <= b)
}

/// Addresses that ascend one after the other ascend inside each cluster, and from
/// cluster to cluster.
proof fn lemma_joined_ascending(clusters: Seq<Seq<u64>>)
    requires
        is_ascending(joined(clusters)),
        forall|c: int| 0 <= c < clusters.len() ==> (#[trigger] clusters[c]).len() > 0,
    ensures
        forall|c: int| 0 <= c < clusters.len() ==> is_ascending(#[trigger] clusters[c]),
        forall|c: int, i: int|
            #![trigger clusters[c], clusters[c][i]]
            0 <= c < clusters.len() && 0 <= i < clusters[c].len() ==> joined(clusters).contains(
                clusters[c][i],
            ),
    decreases clusters.len(),
{
    if clusters.len() > 0 {
        let front = clusters.drop_last();
        let whole = joined(clusters);
        let head = joined(front);
        assert forall|i: int, j: int| 0 <= i <= j < head.len() implies head[i] <= head[j] by {
            assert(whole[i] <= whole[j]);
        }
        assert forall|c: int| 0 <= c < front.len() implies (#[trigger] front[c]).len() > 0 by {
            assert(front[c] == clusters[c]);
        }
        lemma_joined_ascending(front);
        assert forall|c: int| 0 <= c < clusters.len() implies is_ascending(
            #[trigger] clusters[c],
        ) by {
            if c < front.len() {
                assert(front[c] == clusters[c]);
            } else {
                let last = clusters[c];
                assert forall|i: int, j: int| 0 <= i <= j < last.len() implies last[i]
                    <= last[j] by {
                    assert(whole[head.len() + i] <= whole[head.len() + j]);
                }
            }
        }
        assert forall|c: int, i: int|
            #![trigger clusters[c], clusters[c][i]]
            0 <= c < clusters.len() && 0 <= i < clusters[c].len() implies whole.contains(
            clusters[c][i],
        ) by {
            if c < front.len() {
                assert(front[c] == clusters[c]);
                let x = front[c][i];
                assert(head.contains(x));
                let at = choose|at: int| 0 <= at < head.len() && head[at] == x;
                assert(whole[at] == x);
            } else {
                assert(whole[head.len() + i] == clusters[c][i]);
            }
        }
    }
}

/// The clusters of ascending addresses ascend inside, and each lies wholly above
/// those before, by more than the gap.
pub proof fn law_clusters_ascend(hits: Seq<u64>, gap: int)
    requires
        gap >= 0,
        is_ascending(hits),
    ensures
        forall|c: int|
            0 <= c < clusters_of(hits, gap).len() ==> is_ascending(
                #[trigger] clusters_of(hits, gap)[c],
            ),
        forall|c: int, d: int|
            #![trigger clusters_of(hits, gap)[c], clusters_of(hits, gap)[d]]
            0 <= c < d < clusters_of(hits, gap).len() ==> clusters_of(hits, gap)[c].last() + gap
                < clusters_of(hits, gap)[d][0],
{
    let clusters = clusters_of(hits, gap);
    law_clusters_partition(hits, gap);
    lemma_joined_ascending(clusters);
    assert forall|c: int, d: int|
        #![trigger clusters[c], clusters[d]]
        0 <= c < d < clusters.len() implies clusters[c].last() + gap < clusters[d][0] by {
        lemma_clusters_apart(clusters, gap, c, d);
    }
}

/// Clusters that ascend inside lie more than the gap apart, near or far.
proof fn lemma_clusters_apart(clusters: Seq<Seq<u64>>, gap: int, c: int, d: int)
    requires
        gap >= 0,
        is_clustering(clusters, gap),
        forall|e: int| 0 <= e < clusters.len() ==> is_ascending(#[trigger] clusters[e]),
        0 <= c < d < clusters.len(),
    ensures
        clusters[c].last() + gap < clusters[d][0],
    decreases d - c,
{
    let near = clusters[c + 1];
    assert(near[0] - clusters[c].last() > gap);
    if c + 1 < d {
        lemma_clusters_apart(clusters, gap, c + 1, d);
        assert(near[0] <= near[near.len() - 1]);
    }
}

/// `sort_unstable` of a slice of `u64` leaves the same addresses, in ascending
/// order.
#[verifier::external_body]
fn sort_ascending(hits: &mut Vec<u64>)
    ensures
        final(hits)@.to_multiset() == old(hits)@.to_multiset(),
        is_ascending(final(hits)@),
{
    hits.sort_unstable();
}

/// Ascending addresses are determined by how often each occurs.
proof fn lemma_in_order(hits: Seq<u64>, sorted: Seq<u64>)
    requires
        sorted.to_multiset() == hits.to_multiset(),
        is_ascending(sorted),
    ensures
        sorted == in_order(hits),
        sorted.len() == hits.len(),
{
    let leq = |a: u64, b: u64| a <= b;
    assert(vstd::relations::total_ordering(leq));
    hits.lemma_sort_by_ensures(leq);
    assert(vstd::relations::sorted_by(sorted, leq));
    vstd::seq_lib::lemma_sorted_unique(sorted, in_order(hits), leq);
    broadcast use vstd::seq_lib::group_to_multiset_ensures;

    assert(sorted.len() == sorted.to_multiset().len());
    assert(hits.len() == hits.to_multiset().len());
}

// ---------------------------------------------------------------------------
// Result of the search
// ---------------------------------------------------------------------------

/// Sites close together that all load the address of the anchor.
#[derive(Debug, Clone)]
pub struct RefCluster {
    /// Addresses of the instructions, ascending. They lie inside the function,
    /// not at its entry.
    pub ref_vaddrs: Vec<u64>,
    /// The lowest of the addresses.
    pub first_vaddr: u64,
    /// Bytes from the first to the last address.
    pub span: u64,
    /// What the number of sites suggests.
    pub role: ClusterRole,
}

impl RefCluster {
    /// The cluster is made of these addresses.
    pub open spec fn is_of(self, refs: Seq<u64>) -> bool {
        &&& self.ref_vaddrs@ == refs
        &&& self.first_vaddr == refs[0]
        &&& self.span == refs.last() - refs[0]
        &&& self.role == ClusterRole::of_count(refs.len() as int)
    }

    /// Number of sites in the cluster.
    pub fn ref_count(&self) -> (count: usize)
        ensures
            count == self.ref_vaddrs@.len(),
    {
        self.ref_vaddrs.len()
    }
}

/// Result of the search for the anchor and its sites.
#[derive(Debug, Clone)]
pub struct XrefResult {
    /// The embedded path, as found.
    pub anchor_string: String,
    /// File offset of the first byte of the path.
    pub anchor_file_offset: u64,
    /// Address of the first byte of the path.
    pub anchor_vaddr: u64,
    /// Number of sites in all clusters.
    pub total_refs: usize,
    /// The clusters, ascending.
    pub clusters: Vec<RefCluster>,
}

/// The sites of all the segments, segment after segment.
pub open spec fn all_refs(segments: Seq<ExecView>, target: int) -> Seq<u64>
    decreases segments.len(),
{
    if segments.len() == 0 {
        Seq::empty()
    } else {
        let s = segments.last();
        all_refs(segments.drop_last(), target) + refs_in(s.bytes, s.vaddr as int, target)
    }
}

/// The sites of an image that load the address `target`, ascending.
pub open spec fn image_refs(img: ElfImage, target: int) -> Seq<u64> {
    in_order(all_refs(exec_views(img.bytes(), img.segments()), target))
}

impl XrefResult {
    /// The result is that of an image whose anchor stands at `pos` and whose
    /// embedded path lies at address `va`.
    pub open spec fn is_of(self, img: ElfImage, gap: int, pos: int, va: int) -> bool {
        let refs = image_refs(img, va);
        let groups = clusters_of(refs, gap);
        &&& self.anchor_string@ == ascii_text(c_string(img.bytes(), pos))
        &&& self.anchor_file_offset == string_start(img.bytes(), pos)
        &&& self.anchor_vaddr == va
        &&& self.total_refs == refs.len()
        &&& self.clusters@.len() == groups.len()
        &&& forall|c: int|
            0 <= c < groups.len() ==> (#[trigger] self.clusters@[c]).is_of(groups[c])
    }

    /// The clusters that have the role, in order.
    fn with_role(&self, role: ClusterRole) -> (picked: Vec<&RefCluster>)
        ensures
            picked@.map_values(|c: &RefCluster| *c) == self.clusters@.filter(
                |c: RefCluster| c.role == role,
            ),
    {
        let mut picked: Vec<&RefCluster> = Vec::new();
        let ghost keep = |c: RefCluster| c.role == role;
        let mut i: usize = 0;
        proof {
            reveal(Seq::filter);
        }
        assert(picked@.map_values(|c: &RefCluster| *c) == self.clusters@.take(0).filter(keep));
        while i < self.clusters.len()
            invariant
                i <= self.clusters@.len(),
                keep == (|c: RefCluster| c.role == role),
                picked@.map_values(|c: &RefCluster| *c) == self.clusters@.take(i as int).filter(
                    keep,
                ),
            decreases self.clusters@.len() - i,
        {
            let ghost before = picked@.map_values(|c: &RefCluster| *c);
            let ghost longer = self.clusters@.take(i + 1);
            let c = &self.clusters[i];
            proof {
                reveal(Seq::filter);
                assert(longer.drop_last() == self.clusters@.take(i as int));
                assert(longer.last() == c);
            }
            if c.role == role {
                picked.push(c);
                assert(picked@.map_values(|c: &RefCluster| *c) == before.push(*c));
            }
            i += 1;
        }
        assert(self.clusters@.take(self.clusters@.len() as int) == self.clusters@);
        picked
    }

    /// The clusters with as many sites as `SSL_write` has.
    pub fn ssl_write_candidates(&self) -> (picked: Vec<&RefCluster>)
        ensures
            picked@.map_values(|c: &RefCluster| *c) == self.clusters@.filter(
                |c: RefCluster| c.role == ClusterRole::SslWriteCandidate,
            ),
    {
        self.with_role(ClusterRole::SslWriteCandidate)
    }

    /// The clusters with as many sites as `SSL_peek` has.
    pub fn ssl_peek_candidates(&self) -> (picked: Vec<&RefCluster>)
        ensures
            picked@.map_values(|c: &RefCluster| *c) == self.clusters@.filter(
                |c: RefCluster| c.role == ClusterRole::SslPeekCandidate,
            ),
    {
        self.with_role(ClusterRole::SslPeekCandidate)
    }
}

/// The sites of an image that load the address `target`, ascending.
fn collect_refs(img: &ElfImage, target: u64) -> (hits: Vec<u64>)
    ensures
        hits@ == image_refs(*img, target as int),
        is_ascending(hits@),
{
    let segments = img.executable_segments();
    let ghost views = segments@.map_values(|s: ExecSegment<'_>| s@);
    let mut hits: Vec<u64> = Vec::new();
    let mut i: usize = 0;
    assert(views.take(0) == Seq::<ExecView>::empty());
    while i < segments.len()
        invariant
            i <= segments@.len(),
            views == segments@.map_values(|s: ExecSegment<'_>| s@),
            hits@ == all_refs(views.take(i as int), target as int),
        decreases segments@.len() - i,
    {
        assert(views.take(i + 1).drop_last() == views.take(i as int));
        assert(views.take(i + 1).last() == segments@[i as int]@);
        scan_lea_rip_into(segments[i].bytes, segments[i].vaddr, target, &mut hits);
        i += 1;
    }
    assert(views.take(views.len() as int) == views);
    let ghost found = hits@;
    sort_ascending(&mut hits);
    proof {
        lemma_in_order(found, hits@);
    }
    hits
}

/// Find the anchor string, the instructions that load its address, and their
/// clusters. `None` for a binary that has no such string, or has it outside the
/// segments that are loaded.
pub fn find_ssl_lib_clusters(img: &ElfImage, gap: u64) -> (found: Option<XrefResult>)
    ensures
        match first_anchor(img.bytes(), 0) {
            Some(pos) => match vaddr_of(img.segments(), string_start(img.bytes(), pos)) {
                Some(va) => found matches Some(x) && x.is_of(*img, gap as int, pos, va),
                None => found is None,
            },
            None => found is None,
        },
{
    let (start, anchor_string) = match find_anchor(img.data()) {
        Some(found) => found,
        None => return None,
    };
    let anchor_vaddr: u64 = match img.file_offset_to_vaddr(start as u64) {
        Some(va) => va,
        None => return None,
    };
    let hits = collect_refs(img, anchor_vaddr);
    let groups = cluster_refs(hits.as_slice(), gap);
    let ghost refs = clusters_of(hits@, gap as int);
    proof {
        law_clusters_partition(hits@, gap as int);
        law_clusters_ascend(hits@, gap as int);
        assert(refs.len() == groups@.len());
    }
    let total_refs: usize = hits.len();
    let mut clusters: Vec<RefCluster> = Vec::new();
    let mut i: usize = 0;
    while i < groups.len()
        invariant
            i <= groups@.len(),
            refs == groups@.map_values(|c: Vec<u64>| c@),
            forall|c: int|
                0 <= c < refs.len() ==> (#[trigger] refs[c]).len() > 0 && is_ascending(refs[c]),
            clusters@.len() == i,
            forall|c: int| 0 <= c < i ==> (#[trigger] clusters@[c]).is_of(refs[c]),
        decreases groups@.len() - i,
    {
        let ref_vaddrs: Vec<u64> = slice_to_vec(groups[i].as_slice());
        assert(ref_vaddrs@ == refs[i as int]);
        let first_vaddr: u64 = ref_vaddrs[0];
        let span: u64 = ref_vaddrs[ref_vaddrs.len() - 1] - first_vaddr;
        let role = ClusterRole::from_ref_count(ref_vaddrs.len());
        clusters.push(RefCluster { ref_vaddrs, first_vaddr, span, role });
        i += 1;
    }
    Some(
        XrefResult {
            anchor_string,
            anchor_file_offset: start as u64,
            anchor_vaddr,
            total_refs,
            clusters,
        },
    )
}

// ---------------------------------------------------------------------------
// Laws of the search
// ---------------------------------------------------------------------------

/// The anchor found is the first one, and the string around it holds the needle and
/// no NUL.
pub proof fn law_anchor_is_first(d: Seq<u8>)
    ensures
        match first_anchor(d, 0) {
            Some(pos) => {
                &&& anchor_at(d, pos)
                &&& forall|q: int| 0 <= q < pos ==> !#[trigger] anchor_at(d, q)
                &&& stands_at(c_string(d, pos), ANCHOR_NEEDLE@, pos - string_start(d, pos))
                &&& !c_string(d, pos).contains(0)
            },
            None => forall|q: int| 0 <= q ==> !#[trigger] anchor_at(d, q),
        },
{
    lemma_first_anchor(d, 0);
    match first_anchor(d, 0) {
        Some(pos) => {
            let needle = ANCHOR_NEEDLE@;
            let start = string_start(d, pos);
            let end = string_end(d, pos);
            lemma_string_start(d, pos);
            assert(d.subrange(pos, pos + 10) == needle);
            assert forall|i: int| pos <= i < pos + 10 implies d[i] != 0 by {
                assert(d[i] == d.subrange(pos, pos + 10)[i - pos]);
                assert(needle[i - pos] != 0);
            }
            lemma_string_end(d, pos, pos + 10);
            let s = c_string(d, pos);
            assert(s.subrange(pos - start, pos - start + 10) =~= d.subrange(pos, pos + 10));
            assert forall|i: int| 0 <= i < s.len() implies s[i] != 0 by {
                assert(s[i] == d[start + i]);
            }
        },
        None => {},
    }
}

proof fn lemma_first_anchor(d: Seq<u8>, from: int)
    requires
        0 <= from,
    ensures
        match first_anchor(d, from) {
            Some(pos) => {
                &&& from <= pos
                &&& pos + 10 <= d.len()
                &&& anchor_at(d, pos)
                &&& forall|q: int| from <= q < pos ==> !#[trigger] anchor_at(d, q)
            },
            None => forall|q: int| from <= q ==> !#[trigger] anchor_at(d, q),
        },
    decreases d.len() - from,
{
    assert(ANCHOR_NEEDLE@.len() == 10);
    if from + 10 <= d.len() && !anchor_at(d, from) {
        lemma_first_anchor(d, from + 1);
    }
}

proof fn lemma_string_start(d: Seq<u8>, pos: int)
    requires
        0 <= pos <= d.len(),
    ensures
        0 <= string_start(d, pos) <= pos,
        forall|i: int| string_start(d, pos) <= i < pos ==> #[trigger] d[i] != 0,
    decreases pos,
{
    if pos > 0 && d[pos - 1] != 0 {
        lemma_string_start(d, pos - 1);
    }
}

proof fn lemma_string_end(d: Seq<u8>, pos: int, low: int)
    requires
        0 <= pos <= d.len(),
        low <= d.len(),
        forall|i: int| pos <= i < low ==> #[trigger] d[i] != 0,
    ensures
        low <= string_end(d, pos) <= d.len(),
        pos <= string_end(d, pos),
        forall|i: int| pos <= i < string_end(d, pos) ==> #[trigger] d[i] != 0,
    decreases d.len() - pos,
{
    if pos < d.len() && d[pos] != 0 {
        lemma_string_end(d, pos + 1, low);
    }
}

/// Number of sites in the clusters.
pub open spec fn sites_in(clusters: Seq<RefCluster>) -> int
    decreases clusters.len(),
{
    if clusters.len() == 0 {
        0
    } else {
        sites_in(clusters.drop_last()) + clusters.last().ref_vaddrs@.len()
    }
}

/// The clusters of a result hold every site once, and each begins above the end of
/// those before.
pub proof fn law_result_clusters(x: XrefResult, img: ElfImage, gap: u64, pos: int, va: int)
    requires
        x.is_of(img, gap as int, pos, va),
    ensures
        sites_in(x.clusters@) == x.total_refs,
        forall|c: int, d: int|
            #![trigger x.clusters@[c], x.clusters@[d]]
            0 <= c < d < x.clusters@.len() ==> x.clusters@[c].first_vaddr + x.clusters@[c].span
                + gap < x.clusters@[d].first_vaddr,
        forall|c: int|
            0 <= c < x.clusters@.len() ==> (#[trigger] x.clusters@[c]).ref_vaddrs@.len() > 0
                && is_ascending(x.clusters@[c].ref_vaddrs@),
{
    let found = all_refs(exec_views(img.bytes(), img.segments()), va);
    let refs = image_refs(img, va);
    let groups = clusters_of(refs, gap as int);
    let leq = |a: u64, b: u64| a <= b;
    assert(vstd::relations::total_ordering(leq));
    found.lemma_sort_by_ensures(leq);
    assert(is_ascending(refs)) by {
        assert forall|i: int, j: int| 0 <= i <= j < refs.len() implies refs[i] <= refs[j] by {
            if i < j {
                assert(leq(refs[i], refs[j]));
            }
        }
    }
    law_clusters_partition(refs, gap as int);
    law_clusters_ascend(refs, gap as int);
    lemma_sites_in(x.clusters@, groups);
    assert forall|c: int, d: int|
        #![trigger x.clusters@[c], x.clusters@[d]]
        0 <= c < d < x.clusters@.len() implies x.clusters@[c].first_vaddr + x.clusters@[c].span
        + gap < x.clusters@[d].first_vaddr by {
        assert(x.clusters@[c].is_of(groups[c]));
        assert(x.clusters@[d].is_of(groups[d]));
    }
    assert forall|c: int| 0 <= c < x.clusters@.len() implies (
    #[trigger] x.clusters@[c]).ref_vaddrs@.len() > 0 && is_ascending(
        x.clusters@[c].ref_vaddrs@,
    ) by {
        assert(x.clusters@[c].is_of(groups[c]));
    }
}

proof fn lemma_sites_in(clusters: Seq<RefCluster>, groups: Seq<Seq<u64>>)
    requires
        clusters.len() == groups.len(),
        forall|c: int| 0 <= c < groups.len() ==> (#[trigger] clusters[c]).is_of(groups[c]),
    ensures
        sites_in(clusters) == joined(groups).len(),
    decreases groups.len(),
{
    if groups.len() > 0 {
        let (cs, gs) = (clusters.drop_last(), groups.drop_last());
        assert forall|c: int| 0 <= c < gs.len() implies (#[trigger] cs[c]).is_of(gs[c]) by {
            assert(clusters[c].is_of(groups[c]));
        }
        lemma_sites_in(cs, gs);
        assert(clusters[clusters.len() - 1].is_of(groups[groups.len() - 1]));
    }
}

// ---------------------------------------------------------------------------
// Laws of the encodings
// ---------------------------------------------------------------------------

/// The instruction `lea reg, [rip + disp]` with a REX.W prefix is a site of the address
/// that it loads, whatever its register: the prefix is `48` to `4f`, whose third bit is
/// the high bit of the register, the opcode `8d`, and the three low bits of the
/// register stand in the middle of the byte `05`. The displacement follows, lowest byte
/// first, in two's complement.
pub proof fn law_rex_lea_is_a_site(
    b: Seq<u8>,
    base: u64,
    k: int,
    prefix: u8,
    low_bits: u8,
    disp: int,
)
    requires
        0 <= k,
        k + 7 <= b.len(),
        0x48 <= prefix <= 0x4f,
        low_bits < 8,
        -2147483648 <= disp <= 2147483647,
        b[k] == prefix,
        b[k + 1] == 0x8d,
        b[k + 2] == 5 + 8 * low_bits,
        b[k + 3] + 256 * b[k + 4] + 65536 * b[k + 5] + 16777216 * b[k + 6] == if disp >= 0 {
            disp
        } else {
            disp + 4294967296
        },
    ensures
        refs_in(b, base as int, (base + k + 7 + disp) % 18446744073709551616).contains(
            ((base + k) % 18446744073709551616) as u64,
        ),
{
    let modrm = b[k + 2];
    assert(modrm < 64 && modrm % 8 == 5);
    lemma_modrm(modrm);
    let target = (base + k + 7 + disp) % 18446744073709551616;
    assert(is_ref(b, base as int, target, k));
    law_refs_are_the_sites(b, base as int, target, wrap64(base + k) as u64);
}

/// All sixteen registers: the encoding of `lea r, [rip + disp]` for the register with
/// the number `r`, made from that number, is a site wherever it stands.
pub proof fn law_lea_of_every_register_is_a_site(
    front: Seq<u8>,
    back: Seq<u8>,
    base: u64,
    r: int,
    disp: int,
)
    requires
        0 <= r < 16,
        -2147483648 <= disp <= 2147483647,
    ensures
        ({
            let u = if disp >= 0 {
                disp
            } else {
                disp + 4294967296
            };
            let prefix = if r >= 8 {
                0x4cu8
            } else {
                0x48u8
            };
            let code = seq![
                prefix,
                0x8du8,
                (5 + 8 * (r % 8)) as u8,
                (u % 256) as u8,
                (u / 256 % 256) as u8,
                (u / 65536 % 256) as u8,
                (u / 16777216) as u8,
            ];
            let at = base + front.len();
            refs_in(
                front + code + back,
                base as int,
                (at + 7 + disp) % 18446744073709551616,
            ).contains((at % 18446744073709551616) as u64)
        }),
{
    let u = if disp >= 0 {
        disp
    } else {
        disp + 4294967296
    };
    let prefix = if r >= 8 {
        0x4cu8
    } else {
        0x48u8
    };
    let low_bits = (r % 8) as u8;
    let code = seq![
        prefix,
        0x8du8,
        (5 + 8 * (r % 8)) as u8,
        (u % 256) as u8,
        (u / 256 % 256) as u8,
        (u / 65536 % 256) as u8,
        (u / 16777216) as u8,
    ];
    let b = front + code + back;
    let k = front.len() as int;
    assert(b[k] == code[0] && b[k + 1] == code[1] && b[k + 2] == code[2]);
    assert(b[k + 3] == code[3] && b[k + 4] == code[4] && b[k + 5] == code[5] && b[k + 6]
        == code[6]);
    lemma_four_bytes(u);
    law_rex_lea_is_a_site(b, base, k, prefix, low_bits, disp);
}

/// The instruction without a prefix is a site too, unless the byte before it is a REX
/// prefix, which would make it part of another instruction. It takes six bytes.
pub proof fn law_plain_lea_is_a_site(b: Seq<u8>, base: u64, k: int, low_bits: u8, disp: int)
    requires
        0 <= k,
        k + 6 <= b.len(),
        k == 0 || b[k - 1] < 0x40 || b[k - 1] > 0x4f,
        low_bits < 8,
        -2147483648 <= disp <= 2147483647,
        b[k] == 0x8d,
        b[k + 1] == 5 + 8 * low_bits,
        b[k + 2] + 256 * b[k + 3] + 65536 * b[k + 4] + 16777216 * b[k + 5] == if disp >= 0 {
            disp
        } else {
            disp + 4294967296
        },
    ensures
        refs_in(b, base as int, (base + k + 6 + disp) % 18446744073709551616).contains(
            ((base + k) % 18446744073709551616) as u64,
        ),
{
    let modrm = b[k + 1];
    assert(modrm < 64 && modrm % 8 == 5);
    lemma_modrm(modrm);
    let target = (base + k + 6 + disp) % 18446744073709551616;
    assert(is_ref(b, base as int, target, k));
    law_refs_are_the_sites(b, base as int, target, wrap64(base + k) as u64);
}

/// Nothing else is a site: a place of a segment loads the target exactly where one of
/// the two encodings stands there with a displacement that leads to the target.
pub proof fn law_only_lea_is_a_site(b: Seq<u8>, base: u64, target: u64, k: int)
    requires
        0 <= k,
        k + 6 <= b.len(),
    ensures
        is_ref(b, base as int, target as int, k) <==> {
            ||| {
                &&& k + 7 <= b.len()
                &&& 0x48 <= b[k] <= 0x4f
                &&& b[k + 1] == 0x8d
                &&& b[k + 2] < 64 && b[k + 2] % 8 == 5
                &&& (base + k + 7 + b[k + 3] + 256 * b[k + 4] + 65536 * b[k + 5] + 16777216 * b[k
                    + 6] - if b[k + 6] >= 128 {
                    4294967296int
                } else {
                    0
                }) % 18446744073709551616 == target
            }
            ||| {
                &&& b[k] == 0x8d
                &&& b[k + 1] < 64 && b[k + 1] % 8 == 5
                &&& k == 0 || b[k - 1] < 0x40 || b[k - 1] > 0x4f
                &&& (base + k + 6 + b[k + 2] + 256 * b[k + 3] + 65536 * b[k + 4] + 16777216 * b[k
                    + 5] - if b[k + 5] >= 128 {
                    4294967296int
                } else {
                    0
                }) % 18446744073709551616 == target
            }
        },
{
    lemma_modrm(b[k + 1]);
    lemma_modrm(b[k + 2]);
    let long = b[k + 3] + 256 * b[k + 4] + 65536 * b[k + 5] + 16777216 * b[k + 6];
    if k + 7 <= b.len() {
        assert(long == u32_at(b, k + 3));
        assert(long >= 0x8000_0000 <==> b[k + 6] >= 128);
    }
    let short = b[k + 2] + 256 * b[k + 3] + 65536 * b[k + 4] + 16777216 * b[k + 5];
    assert(short == u32_at(b, k + 2));
    assert(short >= 0x8000_0000 <==> b[k + 5] >= 128);
}

/// The sites of a segment come in the order of their addresses, none of them twice.
pub proof fn law_sites_ascend(b: Seq<u8>, base: u64, target: u64, i: int, j: int)
    requires
        base + b.len() <= 18446744073709551616,
        0 <= i < j < refs_in(b, base as int, target as int).len(),
    ensures
        refs_in(b, base as int, target as int)[i] < refs_in(b, base as int, target as int)[j],
{
    lemma_refs_ascend(b, base as int, target as int, b.len() - 5);
}

proof fn lemma_refs_ascend(b: Seq<u8>, base: int, target: int, n: int)
    requires
        0 <= base,
        base + n <= 0x1_0000_0000_0000_0000,
    ensures
        forall|i: int|
            0 <= i < refs_before(b, base, target, n).len() ==> #[trigger] refs_before(
                b,
                base,
                target,
                n,
            )[i] < base + n,
        forall|i: int, j: int|
            0 <= i < j < refs_before(b, base, target, n).len() ==> #[trigger] refs_before(
                b,
                base,
                target,
                n,
            )[i] < #[trigger] refs_before(b, base, target, n)[j],
    decreases n,
{
    if n > 0 {
        lemma_refs_ascend(b, base, target, n - 1);
        let front = refs_before(b, base, target, n - 1);
        let all = refs_before(b, base, target, n);
        assert forall|i: int| 0 <= i < front.len() implies #[trigger] all[i] == front[i] by {}
        assert(wrap64(base + n - 1) == base + n - 1);
        assert forall|i: int| 0 <= i < all.len() implies #[trigger] all[i] < base + n by {
            if i < front.len() {
                assert(all[i] == front[i]);
            }
        }
        assert forall|i: int, j: int| 0 <= i < j < all.len() implies #[trigger] all[i]
            < #[trigger] all[j] by {
            assert(all[i] == front[i]);
            if j < front.len() {
                assert(all[j] == front[j]);
            }
        }
    }
}

/// The byte that names register and address form: `05`, with any register in it.
proof fn lemma_modrm(m: u8)
    ensures
        m & 0xc7 == 0x05 <==> m < 64 && m % 8 == 5,
{
    assert(m & 0xc7 == 0x05 <==> m < 64 && m % 8 == 5) by (bit_vector);
}

proof fn lemma_four_bytes(u: int)
    requires
        0 <= u < 4294967296,
    ensures
        u % 256 + 256 * (u / 256 % 256) + 65536 * (u / 65536 % 256) + 16777216 * (u / 16777216)
            == u,
        0 <= u / 16777216 < 256,
{
    let second = u / 256;
    let third = second / 256;
    assert(u / 65536 == third);
    assert(u / 16777216 == third / 256);
}

// ---------------------------------------------------------------------------
// Laws of the anchor and of the result
// ---------------------------------------------------------------------------

/// The string around a place that is no NUL is what stands between the NULs around it,
/// or the ends of the file.
pub proof fn law_string_between_nuls(front: Seq<u8>, text: Seq<u8>, back: Seq<u8>, at: int)
    requires
        front.len() == 0 || front[front.len() - 1] == 0,
        back.len() == 0 || back[0] == 0,
        !text.contains(0),
        0 <= at < text.len(),
    ensures
        string_start(front + text + back, front.len() + at) == front.len(),
        c_string(front + text + back, front.len() + at) == text,
{
    let d = front + text + back;
    let pos = front.len() + at;
    lemma_string_start(d, pos);
    let start = string_start(d, pos);
    lemma_start_bound(d, pos);
    assert forall|i: int| front.len() <= i < front.len() + text.len() implies d[i] != 0 by {
        assert(d[i] == text[i - front.len()]);
        if text[i - front.len()] == 0 {
            assert(text.contains(0));
        }
    }
    if start < front.len() {
        assert(d[front.len() - 1] == 0);
    }
    if start > front.len() {
        assert(d[start - 1] != 0);
    }
    lemma_string_end(d, pos, (front.len() + text.len()) as int);
    let end = string_end(d, pos);
    if end > front.len() + text.len() {
        assert(d[(front.len() + text.len()) as int] == 0);
    }
    assert(d.subrange(start, end) =~= text);
}

proof fn lemma_start_bound(d: Seq<u8>, pos: int)
    requires
        0 <= pos <= d.len(),
    ensures
        string_start(d, pos) == 0 || d[string_start(d, pos) - 1] == 0,
    decreases pos,
{
    if pos > 0 && d[pos - 1] != 0 {
        lemma_start_bound(d, pos - 1);
    }
}

/// Any string of up to 512 bytes from tab to tilde that holds `ssl_lib.cc` is an
/// anchor: the search finds it, unless it finds one before.
pub proof fn law_path_is_an_anchor(front: Seq<u8>, path: Seq<u8>, back: Seq<u8>, at: int)
    requires
        front.len() == 0 || front[front.len() - 1] == 0,
        back.len() == 0 || back[0] == 0,
        path.len() <= 512,
        forall|i: int| 0 <= i < path.len() ==> 9 <= #[trigger] path[i] <= 126,
        0 <= at,
        at + 10 <= path.len(),
        path.subrange(at, at + 10) == seq![
            115u8,
            115u8,
            108u8,
            95u8,
            108u8,
            105u8,
            98u8,
            46u8,
            99u8,
            99u8,
        ],
    ensures
        anchor_at(front + path + back, front.len() + at),
        first_anchor(front + path + back, 0) matches Some(pos) && pos <= front.len() + at,
{
    let d = front + path + back;
    let needle = seq![115u8, 115u8, 108u8, 95u8, 108u8, 105u8, 98u8, 46u8, 99u8, 99u8];
    assert(!path.contains(0)) by {
        if path.contains(0) {
            let i = choose|i: int| 0 <= i < path.len() && path[i] == 0;
            assert(9 <= path[i]);
        }
    }
    law_string_between_nuls(front, path, back, at);
    let pos = front.len() + at;
    assert(ANCHOR_NEEDLE@ =~= needle);
    assert(d.subrange(pos, pos + 10) =~= path.subrange(at, at + 10));
    assert(anchor_at(d, pos));
    lemma_first_anchor(d, 0);
}

/// What the search finds holds `ssl_lib.cc` in a string of up to 512 bytes from tab to
/// tilde, and whatever holds it before lies in no such string.
pub proof fn law_anchor_is_a_path(d: Seq<u8>, pos: int, q: int)
    requires
        first_anchor(d, 0) == Some(pos),
    ensures
        pos + 10 <= d.len(),
        d[pos] == 115 && d[pos + 1] == 115 && d[pos + 2] == 108 && d[pos + 3] == 95,
        d[pos + 4] == 108 && d[pos + 5] == 105 && d[pos + 6] == 98 && d[pos + 7] == 46,
        d[pos + 8] == 99 && d[pos + 9] == 99,
        c_string(d, pos).len() <= 512,
        forall|i: int| 0 <= i < c_string(d, pos).len() ==> 9 <= #[trigger] c_string(d, pos)[i]
            <= 126,
        0 <= q < pos && d.subrange(q, q + 10) == d.subrange(pos, pos + 10) ==> c_string(
            d,
            q,
        ).len() > 512 || exists|i: int|
            0 <= i < c_string(d, q).len() && !(9 <= #[trigger] c_string(d, q)[i] <= 126),
{
    lemma_first_anchor(d, 0);
    let part = d.subrange(pos, pos + 10);
    assert(part == ANCHOR_NEEDLE@);
    assert(part[0] == 115 && part[1] == 115 && part[2] == 108 && part[3] == 95);
    assert(part[4] == 108 && part[5] == 105 && part[6] == 98 && part[7] == 46);
    assert(part[8] == 99 && part[9] == 99);
    if 0 <= q < pos {
        assert(!anchor_at(d, q));
    }
}

/// A file in which `ssl_lib.cc` stands nowhere has no anchor.
pub proof fn law_no_anchor_without_the_name(d: Seq<u8>)
    requires
        forall|p: int|
            0 <= p && p + 10 <= d.len() ==> !(#[trigger] d[p] == 115 && d[p + 1] == 115 && d[p + 2]
                == 108 && d[p + 3] == 95 && d[p + 4] == 108 && d[p + 5] == 105 && d[p + 6] == 98
                && d[p + 7] == 46 && d[p + 8] == 99 && d[p + 9] == 99),
    ensures
        first_anchor(d, 0) is None,
{
    lemma_first_anchor(d, 0);
    match first_anchor(d, 0) {
        Some(pos) => {
            let part = d.subrange(pos, pos + 10);
            assert(part == ANCHOR_NEEDLE@);
            assert(part[0] == 115 && part[1] == 115 && part[2] == 108 && part[3] == 95);
            assert(part[4] == 108 && part[5] == 105 && part[6] == 98 && part[7] == 46);
            assert(part[8] == 99 && part[9] == 99);
            assert(d[pos] == 115);
        },
        None => {},
    }
}

/// Four sites are as many as `SSL_write` has, one is as many as `SSL_peek` has, and any
/// other number is that of neither.
pub proof fn law_roles(n: int)
    ensures
        ClusterRole::of_count(n) is SslWriteCandidate <==> n == 4,
        ClusterRole::of_count(n) is SslPeekCandidate <==> n == 1,
{
}

/// The clusters of a result hold exactly the sites of the executable segments that load
/// the address of the path, and each tells its first site, its extent and its role.
pub proof fn law_result_holds_the_sites(
    x: XrefResult,
    img: ElfImage,
    gap: u64,
    pos: int,
    va: int,
    site: u64,
)
    requires
        x.is_of(img, gap as int, pos, va),
    ensures
        (exists|c: int| 0 <= c < x.clusters@.len() && (#[trigger] x.clusters@[c]).ref_vaddrs@.contains(
            site,
        )) <==> exists|s: int|
            0 <= s < exec_views(img.bytes(), img.segments()).len() && {
                let segment = #[trigger] exec_views(img.bytes(), img.segments())[s];
                refs_in(segment.bytes, segment.vaddr as int, va).contains(site)
            },
        forall|c: int|
            0 <= c < x.clusters@.len() ==> {
                let cluster = #[trigger] x.clusters@[c];
                let n = cluster.ref_vaddrs@.len();
                &&& n > 0
                &&& cluster.first_vaddr == cluster.ref_vaddrs@[0]
                &&& cluster.first_vaddr + cluster.span == cluster.ref_vaddrs@[n - 1]
                &&& cluster.role is SslWriteCandidate <==> n == 4
                &&& cluster.role is SslPeekCandidate <==> n == 1
            },
        x.anchor_vaddr == va,
        x.anchor_file_offset == string_start(img.bytes(), pos),
        x.anchor_string@ == ascii_text(c_string(img.bytes(), pos)),
{
    let views = exec_views(img.bytes(), img.segments());
    let found = all_refs(views, va);
    let refs = image_refs(img, va);
    let groups = clusters_of(refs, gap as int);
    let leq = |a: u64, b: u64| a <= b;
    assert(vstd::relations::total_ordering(leq));
    found.lemma_sort_by_ensures(leq);
    law_clusters_partition(refs, gap as int);
    lemma_joined_contains(groups, site);
    lemma_all_refs(views, va, site);
    assert(found.contains(site) <==> refs.contains(site)) by {
        broadcast use vstd::seq_lib::group_to_multiset_ensures;

        assert(found.to_multiset() == refs.to_multiset());
        assert(found.contains(site) <==> found.to_multiset().count(site) > 0);
        assert(refs.contains(site) <==> refs.to_multiset().count(site) > 0);
    }
    if exists|c: int|
        0 <= c < x.clusters@.len() && (#[trigger] x.clusters@[c]).ref_vaddrs@.contains(site) {
        let c = choose|c: int|
            0 <= c < x.clusters@.len() && (#[trigger] x.clusters@[c]).ref_vaddrs@.contains(site);
        assert(x.clusters@[c].is_of(groups[c]));
        assert(groups[c].contains(site));
    }
    if exists|c: int| 0 <= c < groups.len() && (#[trigger] groups[c]).contains(site) {
        let c = choose|c: int| 0 <= c < groups.len() && (#[trigger] groups[c]).contains(site);
        assert(x.clusters@[c].is_of(groups[c]));
        assert(x.clusters@[c].ref_vaddrs@.contains(site));
    }
    assert forall|c: int| 0 <= c < x.clusters@.len() implies {
        let cluster = #[trigger] x.clusters@[c];
        let n = cluster.ref_vaddrs@.len();
        &&& n > 0
        &&& cluster.first_vaddr == cluster.ref_vaddrs@[0]
        &&& cluster.first_vaddr + cluster.span == cluster.ref_vaddrs@[n - 1]
        &&& cluster.role is SslWriteCandidate <==> n == 4
        &&& cluster.role is SslPeekCandidate <==> n == 1
    } by {
        assert(x.clusters@[c].is_of(groups[c]));
        assert(groups[c].len() > 0);
    }
}

proof fn lemma_joined_contains(clusters: Seq<Seq<u64>>, x: u64)
    ensures
        joined(clusters).contains(x) <==> exists|c: int|
            0 <= c < clusters.len() && (#[trigger] clusters[c]).contains(x),
    decreases clusters.len(),
{
    if clusters.len() > 0 {
        let front = clusters.drop_last();
        lemma_joined_contains(front, x);
        let head = joined(front);
        let whole = joined(clusters);
        if whole.contains(x) {
            let i = choose|i: int| 0 <= i < whole.len() && whole[i] == x;
            if i < head.len() {
                assert(head[i] == x);
                let c = choose|c: int| 0 <= c < front.len() && (#[trigger] front[c]).contains(x);
                assert(clusters[c] == front[c]);
            } else {
                assert(clusters.last()[i - head.len()] == x);
                assert(clusters[clusters.len() - 1].contains(x));
            }
        }
        if exists|c: int| 0 <= c < clusters.len() && (#[trigger] clusters[c]).contains(x) {
            let c = choose|c: int|
                0 <= c < clusters.len() && (#[trigger] clusters[c]).contains(x);
            if c < front.len() {
                assert(front[c] == clusters[c]);
                let i = choose|i: int| 0 <= i < head.len() && head[i] == x;
                assert(whole[i] == x);
            } else {
                let last = clusters.last();
                let i = choose|i: int| 0 <= i < last.len() && last[i] == x;
                assert(whole[head.len() + i] == x);
            }
        }
    }
}

proof fn lemma_all_refs(views: Seq<ExecView>, va: int, x: u64)
    ensures
        all_refs(views, va).contains(x) <==> exists|s: int|
            0 <= s < views.len() && {
                let segment = #[trigger] views[s];
                refs_in(segment.bytes, segment.vaddr as int, va).contains(x)
            },
    decreases views.len(),
{
    if views.len() > 0 {
        let front = views.drop_last();
        lemma_all_refs(front, va, x);
        let head = all_refs(front, va);
        let tail = refs_in(views.last().bytes, views.last().vaddr as int, va);
        let whole = all_refs(views, va);
        assert(whole == head + tail);
        if whole.contains(x) {
            let i = choose|i: int| 0 <= i < whole.len() && whole[i] == x;
            if i < head.len() {
                assert(head[i] == x);
                let s = choose|s: int|
                    0 <= s < front.len() && {
                        let segment = #[trigger] front[s];
                        refs_in(segment.bytes, segment.vaddr as int, va).contains(x)
                    };
                assert(views[s] == front[s]);
            } else {
                assert(tail[i - head.len()] == x);
                assert(views[views.len() - 1] == views.last());
            }
        }
        if exists|s: int|
            0 <= s < views.len() && {
                let segment = #[trigger] views[s];
                refs_in(segment.bytes, segment.vaddr as int, va).contains(x)
            } {
            let s = choose|s: int|
                0 <= s < views.len() && {
                    let segment = #[trigger] views[s];
                    refs_in(segment.bytes, segment.vaddr as int, va).contains(x)
                };
            if s < front.len() {
                assert(front[s] == views[s]);
                let i = choose|i: int| 0 <= i < head.len() && head[i] == x;
                assert(whole[i] == x);
            } else {
                let i = choose|i: int| 0 <= i < tail.len() && tail[i] == x;
                assert(whole[head.len() + i] == x);
            }
        }
    }
}

/// By default two sites are taken together where they lie up to 4096 bytes apart.
pub proof fn law_default_gap(a: u64, b: u64)
    requires
        a <= b,
    ensures
        clusters_of(seq![a, b], DEFAULT_CLUSTER_GAP as int).len() == if b - a <= 4096 {
            1int
        } else {
            2
        },
{
    let hits = seq![a, b];
    let one = hits.drop_last();
    assert(one =~= seq![a]);
    assert(one.drop_last() =~= Seq::<u64>::empty());
    assert(clusters_of(one.drop_last(), DEFAULT_CLUSTER_GAP as int).len() == 0);
    assert(clusters_of(one, DEFAULT_CLUSTER_GAP as int).len() == 1);
}

/// The sites of an image are those of each executable segment, as often as they are
/// found there, and in ascending order.
pub proof fn law_sites_of_all_segments(img: ElfImage, segments: Seq<ExecView>, s: ExecView, va: int)
    ensures
        all_refs(Seq::<ExecView>::empty(), va).len() == 0,
        all_refs(segments.push(s), va) == all_refs(segments, va) + refs_in(
            s.bytes,
            s.vaddr as int,
            va,
        ),
        image_refs(img, va).to_multiset() == all_refs(
            exec_views(img.bytes(), img.segments()),
            va,
        ).to_multiset(),
        forall|i: int, j: int|
            0 <= i <= j < image_refs(img, va).len() ==> image_refs(img, va)[i] <= image_refs(
                img,
                va,
            )[j],
{
    assert(segments.push(s).drop_last() =~= segments);
    let found = all_refs(exec_views(img.bytes(), img.segments()), va);
    let refs = image_refs(img, va);
    let leq = |a: u64, b: u64| a <= b;
    assert(vstd::relations::total_ordering(leq));
    found.lemma_sort_by_ensures(leq);
    assert forall|i: int, j: int| 0 <= i <= j < refs.len() implies refs[i] <= refs[j] by {
        if i < j {
            assert(leq(refs[i], refs[j]));
        }
    }
}

} // verus!
