//! Images built in memory, with one defect at a time.

use promptrail::elf::{parse_build_id, DiscoveryError, ElfImage, LoadSegment, TargetFn};

/// (type, flags, file offset, address, size in the file)
type Header = (u32, u32, u64, u64, u64);

const LOAD: u32 = 1;
const NOTE: u32 = 4;

fn image(e_type: u16, headers: &[Header], len: usize) -> Vec<u8> {
    let mut d = vec![0u8; len];
    d[0..6].copy_from_slice(&[0x7f, b'E', b'L', b'F', 2, 1]);
    d[16..18].copy_from_slice(&e_type.to_le_bytes());
    d[18..20].copy_from_slice(&0x3eu16.to_le_bytes());
    d[32..40].copy_from_slice(&64u64.to_le_bytes());
    d[54..56].copy_from_slice(&56u16.to_le_bytes());
    d[56..58].copy_from_slice(&(headers.len() as u16).to_le_bytes());
    for (i, &(kind, flags, off, vaddr, size)) in headers.iter().enumerate() {
        let at = 64 + 56 * i;
        d[at..at + 4].copy_from_slice(&kind.to_le_bytes());
        d[at + 4..at + 8].copy_from_slice(&flags.to_le_bytes());
        d[at + 8..at + 16].copy_from_slice(&off.to_le_bytes());
        d[at + 16..at + 24].copy_from_slice(&vaddr.to_le_bytes());
        d[at + 32..at + 40].copy_from_slice(&size.to_le_bytes());
    }
    d
}

fn note(name: &[u8], kind: u32, desc: &[u8]) -> Vec<u8> {
    let mut n = Vec::new();
    n.extend_from_slice(&(name.len() as u32).to_le_bytes());
    n.extend_from_slice(&(desc.len() as u32).to_le_bytes());
    n.extend_from_slice(&kind.to_le_bytes());
    n.extend_from_slice(name);
    while n.len() % 4 != 0 {
        n.push(0);
    }
    n.extend_from_slice(desc);
    while n.len() % 4 != 0 {
        n.push(0);
    }
    n
}

const HEADERS: [Header; 2] = [
    (LOAD, 4, 0, 0x10000, 0x1000),
    (LOAD, 5, 0x1000, 0x21000, 0x800),
];

fn parse(d: Vec<u8>) -> Result<ElfImage, DiscoveryError> {
    ElfImage::parse("/opt/target", Ok(d))
}

fn failure(d: Vec<u8>) -> DiscoveryError {
    match parse(d) {
        Ok(_) => panic!("the image has a defect"),
        Err(e) => e,
    }
}

#[test]
fn rejects_non_elf() {
    let err = failure(b"not an elf at all, just some bytes........".to_vec());
    assert!(matches!(err, DiscoveryError::NotSupportedElf { .. }));
    assert_eq!(err.message(), "`/opt/target` is not a supported ELF (not an ELF file)");
}

#[test]
fn parses_a_pie_and_maps_both_ways() {
    let img = parse(image(3, &HEADERS, 0x2000)).unwrap_or_else(|e| panic!("{}", e.message()));
    assert!(img.is_pie());
    assert_eq!(img.path(), "/opt/target");
    assert_eq!(img.data().len(), 0x2000);
    let segments = img.executable_segments();
    assert_eq!(segments.len(), 1);
    assert_eq!(segments[0].file_offset, 0x1000);
    assert_eq!(segments[0].vaddr, 0x21000);
    assert_eq!(segments[0].bytes.len(), 0x800);
    let fo = segments[0].file_offset;
    let va = img.file_offset_to_vaddr(fo).expect("fo->va");
    assert_eq!(va, 0x21000);
    assert_eq!(img.vaddr_to_file_offset(va), Some(fo));
    assert_eq!(img.vaddr_to_file_offset(0x217ff), Some(0x17ff));
    assert_eq!(img.vaddr_to_file_offset(0x21800), None);
    assert_eq!(img.file_offset_to_vaddr(0x17ff), Some(0x217ff));
    assert_eq!(img.file_offset_to_vaddr(0x1800), None);
    assert_eq!(img.vaddr_to_file_offset(0x10fff), Some(0xfff));
    assert_eq!(img.build_id(), None);
    assert_eq!(img.build_id_hex(), None);
}

#[test]
fn every_offset_of_disjoint_segments_round_trips() {
    let img = parse(image(2, &HEADERS, 0x2000)).unwrap_or_else(|e| panic!("{}", e.message()));
    assert!(!img.is_pie());
    for fo in 0..0x1800u64 {
        let va = img.file_offset_to_vaddr(fo).expect("loaded");
        assert_eq!(img.vaddr_to_file_offset(va), Some(fo));
    }
}

#[test]
fn the_first_segment_that_holds_an_offset_decides() {
    let overlapping = [
        (LOAD, 5, 0x100, 0x5000, 0x200),
        (LOAD, 5, 0x180, 0x9000, 0x200),
    ];
    let img = parse(image(3, &overlapping, 0x1000)).unwrap_or_else(|e| panic!("{}", e.message()));
    assert_eq!(img.file_offset_to_vaddr(0x200), Some(0x5100));
    assert_eq!(img.file_offset_to_vaddr(0x300), Some(0x9180));
    assert_eq!(img.vaddr_to_file_offset(0x9080), Some(0x200));
}

#[test]
fn executable_bytes_are_file_bytes() {
    let mut d = image(3, &HEADERS, 0x2000);
    d[0x1000] = 0xc3;
    d[0x17ff] = 0xcc;
    let img = parse(d).unwrap_or_else(|e| panic!("{}", e.message()));
    let segments = img.executable_segments();
    assert_eq!(segments[0].bytes[0], 0xc3);
    assert_eq!(segments[0].bytes[0x7ff], 0xcc);
}

#[test]
fn an_address_that_leaves_the_address_space_is_none() {
    let top = [(LOAD, 5, 0x100, u64::MAX - 0xf, 0x100)];
    let img = parse(image(3, &top, 0x1000)).unwrap_or_else(|e| panic!("{}", e.message()));
    assert_eq!(img.file_offset_to_vaddr(0x10f), Some(u64::MAX));
    assert_eq!(img.file_offset_to_vaddr(0x110), None);
}

#[test]
fn a_file_that_cannot_be_read() {
    let err = match ElfImage::parse("/opt/target", Err("No such file".to_owned())) {
        Ok(_) => panic!("nothing was read"),
        Err(e) => e,
    };
    assert_eq!(err.message(), "failed to read target binary `/opt/target`");
    assert!(matches!(err, DiscoveryError::Read { source, .. } if source == "No such file"));
}

#[test]
fn a_header_that_is_cut_off_is_no_elf() {
    let mut d = image(3, &HEADERS, 0x2000);
    d.truncate(63);
    assert!(matches!(
        failure(d),
        DiscoveryError::NotSupportedElf { reason: "not an ELF file", .. }
    ));
}

#[test]
fn other_classes_and_machines_are_not_supported() {
    for (at, value) in [(4usize, 1u8), (5, 2)] {
        let mut d = image(3, &HEADERS, 0x2000);
        d[at] = value;
        assert!(matches!(
            failure(d),
            DiscoveryError::NotSupportedElf { reason: "not ELF64 little-endian", .. }
        ));
    }
    let mut d = image(3, &HEADERS, 0x2000);
    d[18] = 0xb7;
    assert!(matches!(failure(d), DiscoveryError::NotSupportedElf { reason: "not x86-64", .. }));
}

#[test]
fn malformed_program_headers() {
    let mut d = image(3, &HEADERS, 0x2000);
    d[54] = 55;
    let err = failure(d);
    assert_eq!(
        err.message(),
        "malformed ELF `/opt/target`: program-header entry smaller than ELF64 spec"
    );
    assert!(matches!(err, DiscoveryError::Malformed { .. }));

    let mut d = image(3, &HEADERS, 0x2000);
    d[32..40].copy_from_slice(&(0x2000u64 - 111).to_le_bytes());
    assert!(matches!(
        failure(d),
        DiscoveryError::Malformed { reason: "program header extends past end of file", .. }
    ));

    let mut d = image(3, &HEADERS, 0x2000);
    d[32..40].copy_from_slice(&u64::MAX.to_le_bytes());
    assert!(matches!(
        failure(d),
        DiscoveryError::Malformed { reason: "program header extends past end of file", .. }
    ));

    let past = [(LOAD, 5, 0x1800, 0x21000, 0x801)];
    assert!(matches!(
        failure(image(3, &past, 0x2000)),
        DiscoveryError::Malformed { reason: "PT_LOAD file range extends past end of file", .. }
    ));
}

#[test]
fn an_image_without_code() {
    let data_only = [(LOAD, 6, 0, 0x10000, 0x1000), (NOTE, 1, 0, 0, 0)];
    let err = failure(image(3, &data_only, 0x2000));
    assert!(matches!(err, DiscoveryError::NoExecutableSegment { .. }));
    assert_eq!(err.message(), "`/opt/target` has no executable PT_LOAD segment");
    assert!(matches!(
        failure(image(3, &[], 0x2000)),
        DiscoveryError::NoExecutableSegment { .. }
    ));
}

#[test]
fn the_build_id_behind_another_note() {
    let mut notes = note(b"Go\0", 4, b"abcde");
    notes.extend(note(b"GNU\0", 3, &[0xde, 0xad, 0xbe, 0xef, 0x01]));
    let headers = [HEADERS[0], HEADERS[1], (NOTE, 4, 0x400, 0x10400, notes.len() as u64)];
    let mut d = image(3, &headers, 0x2000);
    d[0x400..0x400 + notes.len()].copy_from_slice(&notes);
    let img = parse(d).unwrap_or_else(|e| panic!("{}", e.message()));
    assert_eq!(img.build_id(), Some(&[0xde, 0xad, 0xbe, 0xef, 0x01][..]));
    assert_eq!(img.build_id_hex(), Some("deadbeef01".to_owned()));
}

#[test]
fn build_ids_of_note_ranges() {
    let id = note(b"GNU\0", 3, &[1, 2, 3, 4]);
    let len = id.len() as u64;
    assert_eq!(parse_build_id(&id, &[(0, len)]), Some(vec![1, 2, 3, 4]));
    assert_eq!(parse_build_id(&id, &[]), None);
    assert_eq!(parse_build_id(&id, &[(0, len - 1)]), None);
    assert_eq!(parse_build_id(&id, &[(0, 4), (0, len)]), Some(vec![1, 2, 3, 4]));
    assert_eq!(parse_build_id(&id, &[(0, len * 100)]), Some(vec![1, 2, 3, 4]));
    assert_eq!(parse_build_id(&id, &[(u64::MAX, 1), (0, len)]), None);
    assert_eq!(parse_build_id(&id, &[(u64::MAX - 4, 4)]), None);
    assert_eq!(parse_build_id(&note(b"GNU\0", 1, &[1, 2, 3, 4]), &[(0, len)]), None);
    assert_eq!(parse_build_id(&note(b"GNX\0", 3, &[1, 2, 3, 4]), &[(0, len)]), None);
    let mut broken = note(b"abc\0", 3, &[9]);
    broken[4] = 200;
    broken.extend_from_slice(&id);
    assert_eq!(parse_build_id(&broken, &[(0, broken.len() as u64)]), None);
}

#[test]
fn segments_hold_half_open_ranges() {
    let s = LoadSegment { file_offset: 0x10, vaddr: 0x1000, file_size: 0x20, executable: true };
    assert!(s.contains_vaddr(0x1000) && s.contains_vaddr(0x101f));
    assert!(!s.contains_vaddr(0xfff) && !s.contains_vaddr(0x1020));
    assert!(s.contains_file_offset(0x10) && s.contains_file_offset(0x2f));
    assert!(!s.contains_file_offset(0x0f) && !s.contains_file_offset(0x30));
    let top = LoadSegment { vaddr: u64::MAX - 1, file_size: 100, ..s };
    assert!(top.contains_vaddr(u64::MAX - 1));
    assert!(!top.contains_vaddr(u64::MAX));
}

#[test]
fn names_of_the_targets() {
    assert_eq!(TargetFn::SslWrite.as_str(), "SSL_write");
    assert_eq!(TargetFn::SslRead.as_str(), "SSL_read");
}
