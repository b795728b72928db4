//! The search for the anchor string and the instructions that load its address.

use promptrail::elf::ElfImage;
use promptrail::pattern::{
    cluster_refs, find_anchor, find_ssl_lib_clusters, scan_lea_rip_into, ClusterRole,
    DEFAULT_CLUSTER_GAP,
};

/// One REX.W `lea rip` that loads 0x2000, and one that loads 0x3000.
fn two_lea_blob() -> Vec<u8> {
    vec![
        0x48, 0x8d, 0x05, 0xf9, 0x0f, 0x00, 0x00, 0x48, 0x8d, 0x05, 0xf2, 0x1f, 0x00, 0x00,
    ]
}

#[test]
fn scan_finds_correct_lea_and_target() {
    let blob = two_lea_blob();
    let mut hits = Vec::new();
    scan_lea_rip_into(&blob, 0x1000, 0x2000, &mut hits);
    assert_eq!(hits, vec![0x1000], "only the 0x2000-targeting lea");

    let mut hits2 = Vec::new();
    scan_lea_rip_into(&blob, 0x1000, 0x3000, &mut hits2);
    assert_eq!(hits2, vec![0x1007], "only the 0x3000-targeting lea");
}

#[test]
fn scan_does_not_double_count_rex_lea() {
    let blob = two_lea_blob();
    let mut hits = Vec::new();
    scan_lea_rip_into(&blob, 0x1000, 0x2000, &mut hits);
    assert_eq!(hits.len(), 1, "no phantom non-REX match one byte in");
}

#[test]
fn scan_keeps_what_was_found_before() {
    let mut hits = vec![7];
    scan_lea_rip_into(&two_lea_blob(), 0x1000, 0x2000, &mut hits);
    assert_eq!(hits, vec![7, 0x1000]);
}

#[test]
fn scan_without_a_rex_prefix() {
    // lea esi, [rip + 0x10], behind a nop, with a byte to spare.
    let blob = [0x90, 0x8d, 0x35, 0x10, 0x00, 0x00, 0x00, 0x90];
    let mut hits = Vec::new();
    scan_lea_rip_into(&blob, 0x1000, 0x1017, &mut hits);
    assert_eq!(hits, vec![0x1001]);
    // Behind any REX prefix it is part of another instruction.
    let prefixed = [0x44, 0x8d, 0x35, 0x10, 0x00, 0x00, 0x00, 0x90];
    let mut none = Vec::new();
    scan_lea_rip_into(&prefixed, 0x1000, 0x1017, &mut none);
    assert_eq!(none, Vec::<u64>::new());
}

#[test]
fn scan_finds_a_lea_that_ends_the_segment() {
    // lea eax, [rip + 0xffa]: six bytes, and no more.
    let blob = [0x8d, 0x05, 0xfa, 0x0f, 0x00, 0x00];
    let mut hits = Vec::new();
    scan_lea_rip_into(&blob, 0x1000, 0x2000, &mut hits);
    assert_eq!(hits, vec![0x1000]);
    let mut cut = Vec::new();
    scan_lea_rip_into(&blob[..5], 0x1000, 0x2000, &mut cut);
    scan_lea_rip_into(&[], 0x1000, 0x2000, &mut cut);
    // With a REX.W prefix it takes seven.
    let prefixed = [0x48, 0x8d, 0x05, 0xf9, 0x0f, 0x00, 0x00];
    scan_lea_rip_into(&prefixed[..6], 0x1000, 0x2000, &mut cut);
    assert_eq!(cut, Vec::<u64>::new());
    scan_lea_rip_into(&prefixed, 0x1000, 0x2000, &mut hits);
    assert_eq!(hits, vec![0x1000, 0x1000]);
}

#[test]
fn scan_wraps_around_the_address_space() {
    // lea rax, [rip - 0x1000] at 0x100.
    let blob = [0x48, 0x8d, 0x05, 0x00, 0xf0, 0xff, 0xff];
    let mut hits = Vec::new();
    scan_lea_rip_into(&blob, 0x100, 0x107u64.wrapping_sub(0x1000), &mut hits);
    assert_eq!(hits, vec![0x100]);
}

#[test]
fn clustering_splits_on_gap() {
    let hits = [0x100u64, 0x110, 0x5000, 0x5008, 0x5010];
    let clusters = cluster_refs(&hits, 0x1000);
    assert_eq!(clusters.len(), 2);
    assert_eq!(clusters[0], vec![0x100, 0x110]);
    assert_eq!(clusters[1], vec![0x5000, 0x5008, 0x5010]);
}

#[test]
fn clustering_keeps_a_gap_of_exactly_the_limit() {
    assert_eq!(cluster_refs(&[], 5), Vec::<Vec<u64>>::new());
    assert_eq!(cluster_refs(&[10, 15, 21], 5), vec![vec![10, 15], vec![21]]);
    assert_eq!(cluster_refs(&[10, 10], 0), vec![vec![10, 10]]);
}

#[test]
fn clusters_partition_the_sites() {
    let hits = [1u64, 2, 9, 100, 101, 200];
    let clusters = cluster_refs(&hits, 10);
    let joined: Vec<u64> = clusters.iter().flatten().copied().collect();
    assert_eq!(joined, hits);
    assert_eq!(clusters.iter().map(|c| c.len()).collect::<Vec<_>>(), vec![3, 2, 1]);
    for pair in clusters.windows(2) {
        assert!(pair[1][0] - pair[0][pair[0].len() - 1] > 10);
    }
}

#[test]
fn role_from_ref_count() {
    assert_eq!(ClusterRole::from_ref_count(4), ClusterRole::SslWriteCandidate);
    assert_eq!(ClusterRole::from_ref_count(1), ClusterRole::SslPeekCandidate);
    assert_eq!(ClusterRole::from_ref_count(2), ClusterRole::Other);
    assert_eq!(ClusterRole::from_ref_count(13), ClusterRole::Other);
}

#[test]
fn find_anchor_expands_to_full_cstring() {
    let mut data = vec![0u8];
    let path = b"../../third_party/boringssl/src/ssl/ssl_lib.cc";
    data.extend_from_slice(path);
    data.push(0);
    let (start, s) = find_anchor(&data).expect("anchor found");
    assert_eq!(start, 1, "string starts right after the leading NUL");
    assert_eq!(s.as_bytes(), path);
}

#[test]
fn find_anchor_passes_over_what_is_no_path() {
    assert_eq!(find_anchor(b""), None);
    assert_eq!(find_anchor(b"ssl_lib.c"), None);
    assert_eq!(find_anchor(b"ssl_lib.cc"), Some((0, "ssl_lib.cc".to_owned())));
    assert_eq!(find_anchor(b"\x01ssl_lib.cc"), None);
    let mut data = b"\xffssl_lib.cc\0a/".to_vec();
    data.extend_from_slice(b"ssl_lib.cc\0");
    assert_eq!(find_anchor(&data), Some((12, "a/ssl_lib.cc".to_owned())));
    // A string of 512 bytes is accepted, one of 513 is not.
    let mut long = vec![b'x'; 502];
    long.extend_from_slice(b"ssl_lib.cc");
    assert_eq!(find_anchor(&long).map(|(start, s)| (start, s.len())), Some((0, 512)));
    long.insert(0, b'x');
    assert_eq!(find_anchor(&long), None);
}

const TEXT_HIGH: u64 = 0x50000;
const TEXT_LOW: u64 = 0x20000;
const PATH_AT: usize = 0x301;
const PATH_VADDR: u64 = 0x10301;

/// An image whose first code segment lies at the higher address, with the sites at
/// the given offsets of the two segments.
fn image(low: &[usize], high: &[usize]) -> Vec<u8> {
    let headers = [
        (4u32, 0u64, 0x10000u64, 0x1000u64),
        (5, 0x1000, TEXT_HIGH, 0x1000),
        (5, 0x2000, TEXT_LOW, 0x1000),
    ];
    let mut d = vec![0u8; 0x3000];
    d[0..6].copy_from_slice(&[0x7f, b'E', b'L', b'F', 2, 1]);
    d[16] = 3;
    d[18] = 0x3e;
    d[32] = 64;
    d[54] = 56;
    d[56] = 3;
    for (i, &(flags, off, vaddr, size)) in headers.iter().enumerate() {
        let at = 64 + 56 * i;
        d[at] = 1;
        d[at + 4..at + 8].copy_from_slice(&flags.to_le_bytes());
        d[at + 8..at + 16].copy_from_slice(&off.to_le_bytes());
        d[at + 16..at + 24].copy_from_slice(&vaddr.to_le_bytes());
        d[at + 32..at + 40].copy_from_slice(&size.to_le_bytes());
    }
    let path = b"third_party/boringssl/ssl_lib.cc";
    d[PATH_AT..PATH_AT + path.len()].copy_from_slice(path);
    for (sites, file, base) in [(low, 0x2000, TEXT_LOW), (high, 0x1000, TEXT_HIGH)] {
        for &site in sites {
            let next = base + site as u64 + 7;
            let disp = (PATH_VADDR.wrapping_sub(next) as u32).to_le_bytes();
            let at = file + site;
            d[at..at + 3].copy_from_slice(&[0x48, 0x8d, 0x35]);
            d[at + 3..at + 7].copy_from_slice(&disp);
        }
    }
    d
}

#[test]
fn clusters_of_an_image_ascend() {
    let d = image(&[0x10, 0x40, 0x80, 0x100], &[0x20]);
    let img = match ElfImage::parse("t", Ok(d)) {
        Ok(img) => img,
        Err(e) => panic!("{}", e.message()),
    };
    let x = find_ssl_lib_clusters(&img, DEFAULT_CLUSTER_GAP).expect("anchor found");
    assert_eq!(x.anchor_string, "third_party/boringssl/ssl_lib.cc");
    assert_eq!(x.anchor_file_offset, PATH_AT as u64);
    assert_eq!(x.anchor_vaddr, PATH_VADDR);
    assert_eq!(x.total_refs, 5);
    assert_eq!(x.clusters.len(), 2);
    assert_eq!(x.clusters[0].ref_vaddrs, vec![0x20010, 0x20040, 0x20080, 0x20100]);
    assert_eq!(x.clusters[0].first_vaddr, 0x20010);
    assert_eq!(x.clusters[0].span, 0xf0);
    assert_eq!(x.clusters[0].role, ClusterRole::SslWriteCandidate);
    assert_eq!(x.clusters[0].ref_count(), 4);
    assert_eq!(x.clusters[1].ref_vaddrs, vec![0x50020]);
    assert_eq!(x.clusters[1].span, 0);
    let writes = x.ssl_write_candidates();
    assert_eq!(writes.len(), 1);
    assert_eq!(writes[0].first_vaddr, 0x20010);
    let peeks = x.ssl_peek_candidates();
    assert_eq!(peeks.len(), 1);
    assert_eq!(peeks[0].first_vaddr, 0x50020);
}

#[test]
fn a_smaller_gap_splits_the_clusters_of_an_image() {
    let img = match ElfImage::parse("t", Ok(image(&[0x10, 0x40, 0x80], &[]))) {
        Ok(img) => img,
        Err(e) => panic!("{}", e.message()),
    };
    let x = find_ssl_lib_clusters(&img, 0x30).expect("anchor found");
    assert_eq!(x.total_refs, 3);
    assert_eq!(x.clusters.iter().map(|c| c.ref_count()).collect::<Vec<_>>(), vec![2, 1]);
    assert_eq!(x.clusters[0].role, ClusterRole::Other);
    assert!(x.ssl_write_candidates().is_empty());
}

#[test]
fn an_image_without_the_anchor() {
    let mut d = image(&[0x10], &[]);
    d[PATH_AT..PATH_AT + 32].fill(b'x');
    let img = match ElfImage::parse("t", Ok(d)) {
        Ok(img) => img,
        Err(e) => panic!("{}", e.message()),
    };
    assert!(find_ssl_lib_clusters(&img, DEFAULT_CLUSTER_GAP).is_none());
}

#[test]
fn an_anchor_outside_the_loaded_segments() {
    let mut d = image(&[0x10], &[]);
    d[64 + 32..64 + 40].copy_from_slice(&0x100u64.to_le_bytes());
    let img = match ElfImage::parse("t", Ok(d)) {
        Ok(img) => img,
        Err(e) => panic!("{}", e.message()),
    };
    assert!(find_ssl_lib_clusters(&img, DEFAULT_CLUSTER_GAP).is_none());
}
