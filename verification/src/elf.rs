//! ELF64 machinery for targets that carry no symbol table.
//!
//! An offset that leaves this module is a file offset into the object on disk:
//! the kernel attaches a probe by (inode, file offset) and resolves the mapping
//! itself. Virtual addresses appear only inside the analysis.
//!
//! The parser reads an untrusted binary. Nothing here panics on a malformed
//! file: a file that cannot be processed is answered with [`DiscoveryError`].

use vstd::prelude::*;
use vstd::slice::{slice_subrange, slice_to_vec};

use vstd::string::StringExecFns;

use crate::le::{read_u16, read_u32, read_u64};
use crate::le::{u16_at, u32_at, u64_at};
use crate::text::{hex_bytes, hex_of_bytes};

verus! {

/// `e_ident[EI_CLASS]` of a 64-bit object.
pub const ELFCLASS64: u8 = 2;

/// `e_ident[EI_DATA]` of a little-endian object.
pub const ELFDATA2LSB: u8 = 1;

/// `e_type` of a position-independent executable or shared object.
pub const ET_DYN: u16 = 3;

/// `e_machine` of x86-64.
pub const EM_X86_64: u16 = 0x3e;

/// `p_type` of a loadable segment.
pub const PT_LOAD: u32 = 1;

/// `p_type` of a note segment.
pub const PT_NOTE: u32 = 4;

/// The executable bit of `p_flags`.
pub const PF_X: u32 = 1;

/// Note type of a GNU build id.
pub const NT_GNU_BUILD_ID: u32 = 3;

/// Size of the ELF64 file header.
pub const EH_MIN_SIZE: usize = 64;

/// Offset of `e_type`.
pub const EH_TYPE: usize = 16;

/// Offset of `e_machine`.
pub const EH_MACHINE: usize = 18;

/// Offset of `e_phoff`.
pub const EH_PHOFF: usize = 32;

/// Offset of `e_phentsize`.
pub const EH_PHENTSIZE: usize = 54;

/// Offset of `e_phnum`.
pub const EH_PHNUM: usize = 56;

/// Offset of `p_flags` in a program header; `p_type` is at offset zero.
pub const PH_FLAGS: usize = 4;

/// Offset of `p_offset` in a program header.
pub const PH_OFFSET: usize = 8;

/// Offset of `p_vaddr` in a program header.
pub const PH_VADDR: usize = 16;

/// Offset of `p_filesz` in a program header.
pub const PH_FILESZ: usize = 32;

/// Size of an ELF64 program header.
pub const PH_ENTSIZE_MIN: usize = 56;

/// Failures while parsing a target. None is fatal to the agent: a target that
/// cannot be parsed is simply not hooked.
#[derive(Debug)]
pub enum DiscoveryError {
    /// The file could not be read; `source` is the reason the system gave.
    Read { path: String, source: String },
    /// The file is no ELF object that can be processed.
    NotSupportedElf { path: String, reason: &'static str },
    /// A structural field points outside the file.
    Malformed { path: String, reason: &'static str },
    /// There is nothing to scan or to attach to.
    NoExecutableSegment { path: String },
}

impl DiscoveryError {
    /// The one-line message for the error.
    pub open spec fn text(self) -> Seq<char> {
        match self {
            DiscoveryError::Read { path, source } => "failed to read target binary `"@ + path@
                + "`"@,
            DiscoveryError::NotSupportedElf { path, reason } => "`"@ + path@
                + "` is not a supported ELF ("@ + reason@ + ")"@,
            DiscoveryError::Malformed { path, reason } => "malformed ELF `"@ + path@ + "`: "@
                + reason@,
            DiscoveryError::NoExecutableSegment { path } => "`"@ + path@
                + "` has no executable PT_LOAD segment"@,
        }
    }

    /// The one-line message for the error.
    pub fn message(&self) -> (message: String)
        ensures
            message@ == self.text(),
    {
        let mut message = String::new();
        match self {
            DiscoveryError::Read { path, source: _ } => {
                message.append("failed to read target binary `");
                message.append(path.as_str());
                message.append("`");
            },
            DiscoveryError::NotSupportedElf { path, reason } => {
                message.append("`");
                message.append(path.as_str());
                message.append("` is not a supported ELF (");
                message.append(reason);
                message.append(")");
            },
            DiscoveryError::Malformed { path, reason } => {
                message.append("malformed ELF `");
                message.append(path.as_str());
                message.append("`: ");
                message.append(reason);
            },
            DiscoveryError::NoExecutableSegment { path } => {
                message.append("`");
                message.append(path.as_str());
                message.append("` has no executable PT_LOAD segment");
            },
        }
        message
    }
}

/// Which TLS entry point a location stands for.
#[derive(Debug, Clone, Copy, PartialEq, Eq, Structural)]
pub enum TargetFn {
    SslWrite,
    SslRead,
}

impl TargetFn {
    /// The exported symbol of the function.
    pub fn as_str(self) -> (name: &'static str)
        ensures
            name@ == match self {
                TargetFn::SslWrite => "SSL_write"@,
                TargetFn::SslRead => "SSL_read"@,
            },
    {
        match self {
            TargetFn::SslWrite => "SSL_write",
            TargetFn::SslRead => "SSL_read",
        }
    }
}

/// One `PT_LOAD` segment.
#[derive(Debug, Clone, Copy)]
pub struct LoadSegment {
    pub file_offset: u64,
    pub vaddr: u64,
    pub file_size: u64,
    pub executable: bool,
}

impl LoadSegment {
    /// The address lies in the part of the segment that the file backs. The end
    /// of the segment saturates at the end of the address space.
    pub open spec fn has_vaddr(self, va: int) -> bool {
        self.vaddr <= va < self.vaddr + self.file_size && va < u64::MAX
    }

    /// The file offset lies in the segment. The end of the segment saturates at
    /// the largest offset.
    pub open spec fn has_file_offset(self, fo: int) -> bool {
        self.file_offset <= fo < self.file_offset + self.file_size && fo < u64::MAX
    }

    /// Whether `va` lies in the segment.
    pub fn contains_vaddr(&self, va: u64) -> (inside: bool)
        ensures
            inside == self.has_vaddr(va as int),
    {
        va >= self.vaddr && va < self.vaddr.saturating_add(self.file_size)
    }

    /// Whether `fo` lies in the segment.
    pub fn contains_file_offset(&self, fo: u64) -> (inside: bool)
        ensures
            inside == self.has_file_offset(fo as int),
    {
        fo >= self.file_offset && fo < self.file_offset.saturating_add(self.file_size)
    }
}

// ---------------------------------------------------------------------------
// What the bytes of a file say
// ---------------------------------------------------------------------------

/// The file begins with a whole ELF header.
pub open spec fn has_elf_magic(d: Seq<u8>) -> bool {
    &&& d.len() >= EH_MIN_SIZE
    &&& d[0] == 0x7f
    &&& d[1] == 0x45
    &&& d[2] == 0x4c
    &&& d[3] == 0x46
}

/// Where program header `i` begins.
pub open spec fn ph_base(d: Seq<u8>, i: int) -> int {
    u64_at(d, EH_PHOFF as int) + i * u16_at(d, EH_PHENTSIZE as int)
}

/// Number of program headers that the file header announces.
pub open spec fn ph_count(d: Seq<u8>) -> int {
    u16_at(d, EH_PHNUM as int)
}

/// Program header `i` lies wholly in the file.
pub open spec fn ph_fits(d: Seq<u8>, i: int) -> bool {
    ph_base(d, i) + PH_ENTSIZE_MIN <= d.len()
}

/// `p_type` of program header `i`.
pub open spec fn ph_type(d: Seq<u8>, i: int) -> int {
    u32_at(d, ph_base(d, i))
}

/// Program header `i`, read as a load segment.
pub open spec fn ph_segment(d: Seq<u8>, i: int) -> LoadSegment {
    let base = ph_base(d, i);
    LoadSegment {
        file_offset: u64_at(d, base + PH_OFFSET) as u64,
        vaddr: u64_at(d, base + PH_VADDR) as u64,
        file_size: u64_at(d, base + PH_FILESZ) as u64,
        executable: (u32_at(d, base + PH_FLAGS) as u32) & PF_X != 0,
    }
}

/// The `PT_LOAD` segments among the first `n` program headers, in order.
pub open spec fn load_segments(d: Seq<u8>, n: int) -> Seq<LoadSegment>
    decreases n,
{
    if n <= 0 {
        Seq::empty()
    } else if ph_type(d, n - 1) == PT_LOAD {
        load_segments(d, n - 1).push(ph_segment(d, n - 1))
    } else {
        load_segments(d, n - 1)
    }
}

/// The (offset, size) of the `PT_NOTE` segments among the first `n` program
/// headers, in order.
pub open spec fn note_ranges(d: Seq<u8>, n: int) -> Seq<(u64, u64)>
    decreases n,
{
    if n <= 0 {
        Seq::empty()
    } else if ph_type(d, n - 1) == PT_NOTE {
        let s = ph_segment(d, n - 1);
        note_ranges(d, n - 1).push((s.file_offset, s.file_size))
    } else {
        note_ranges(d, n - 1)
    }
}

/// Some segment is executable.
pub open spec fn has_executable(loads: Seq<LoadSegment>) -> bool {
    exists|i: int| 0 <= i < loads.len() && (#[trigger] loads[i]).executable
}

/// The file range of every segment lies in a file of `len` bytes.
pub open spec fn loads_fit(loads: Seq<LoadSegment>, len: int) -> bool {
    forall|i: int|
        0 <= i < loads.len() ==> (#[trigger] loads[i]).file_offset + loads[i].file_size <= len
}

/// What keeps a file from being processed.
pub enum ElfDefect {
    NotElf,
    NotElf64LittleEndian,
    NotX86_64,
    SmallProgramHeader,
    ProgramHeaderPastEnd,
    NoExecutableSegment,
    LoadPastEnd,
}

/// The first defect of a file, in the order in which they are looked for, or
/// `None` for a file that can be processed.
pub open spec fn elf_defect(d: Seq<u8>) -> Option<ElfDefect> {
    let loads = load_segments(d, ph_count(d));
    if !has_elf_magic(d) {
        Some(ElfDefect::NotElf)
    } else if d[4] != ELFCLASS64 || d[5] != ELFDATA2LSB {
        Some(ElfDefect::NotElf64LittleEndian)
    } else if u16_at(d, EH_MACHINE as int) != EM_X86_64 {
        Some(ElfDefect::NotX86_64)
    } else if u16_at(d, EH_PHENTSIZE as int) < PH_ENTSIZE_MIN {
        Some(ElfDefect::SmallProgramHeader)
    } else if exists|i: int| 0 <= i < ph_count(d) && !#[trigger] ph_fits(d, i) {
        Some(ElfDefect::ProgramHeaderPastEnd)
    } else if !has_executable(loads) {
        Some(ElfDefect::NoExecutableSegment)
    } else if !loads_fit(loads, d.len() as int) {
        Some(ElfDefect::LoadPastEnd)
    } else {
        None
    }
}

/// The text that goes with a defect.
pub open spec fn defect_reason(defect: ElfDefect) -> Seq<char> {
    match defect {
        ElfDefect::NotElf => "not an ELF file"@,
        ElfDefect::NotElf64LittleEndian => "not ELF64 little-endian"@,
        ElfDefect::NotX86_64 => "not x86-64"@,
        ElfDefect::SmallProgramHeader => "program-header entry smaller than ELF64 spec"@,
        ElfDefect::ProgramHeaderPastEnd => "program header extends past end of file"@,
        ElfDefect::NoExecutableSegment => Seq::empty(),
        ElfDefect::LoadPastEnd => "PT_LOAD file range extends past end of file"@,
    }
}

/// The error reports the defect of the file at `file`.
pub open spec fn reports(err: DiscoveryError, file: Seq<char>, defect: ElfDefect) -> bool {
    match err {
        DiscoveryError::Read { .. } => false,
        DiscoveryError::NotSupportedElf { path, reason } => {
            &&& path@ == file
            &&& reason@ == defect_reason(defect)
            &&& (defect is NotElf || defect is NotElf64LittleEndian || defect is NotX86_64)
        },
        DiscoveryError::Malformed { path, reason } => {
            &&& path@ == file
            &&& reason@ == defect_reason(defect)
            &&& (defect is SmallProgramHeader || defect is ProgramHeaderPastEnd
                || defect is LoadPastEnd)
        },
        DiscoveryError::NoExecutableSegment { path } => {
            &&& path@ == file
            &&& defect is NoExecutableSegment
        },
    }
}

/// `n` rounded up to a multiple of four.
pub open spec fn align4(n: int) -> int {
    (n + 3) / 4 * 4
}

/// The bytes of a file at `at` spell `GNU`.
pub open spec fn is_gnu_name(d: Seq<u8>, at: int) -> bool {
    d[at] == 0x47 && d[at + 1] == 0x4e && d[at + 2] == 0x55
}

/// The build id that a walk over the notes in `p..end` comes upon first. A note
/// that does not fit ends the walk.
pub open spec fn build_id_in(d: Seq<u8>, p: int, end: int) -> Option<Seq<u8>>
    decreases end + 4 - p,
{
    if p + 12 > end {
        None
    } else {
        let name_size = u32_at(d, p);
        let desc_size = u32_at(d, p + 4);
        let name = p + 12;
        let desc = name + align4(name_size);
        if name + name_size > end || desc + desc_size > end {
            None
        } else if u32_at(d, p + 8) == NT_GNU_BUILD_ID && name_size >= 3 && is_gnu_name(d, name) {
            Some(d.subrange(desc, desc + desc_size))
        } else {
            build_id_in(d, desc + align4(desc_size), end)
        }
    }
}

/// The first build id in the given note ranges. A range that leaves the 64-bit
/// space ends the search.
pub open spec fn first_build_id(d: Seq<u8>, ranges: Seq<(u64, u64)>) -> Option<Seq<u8>>
    decreases ranges.len(),
{
    if ranges.len() == 0 {
        None
    } else {
        let (off, size) = ranges[0];
        let end = if off + size < d.len() { off + size } else { d.len() as int };
        if off + size > u64::MAX {
            None
        } else if build_id_in(d, off as int, end) is Some {
            build_id_in(d, off as int, end)
        } else {
            first_build_id(d, ranges.drop_first())
        }
    }
}

/// The first of the segments that holds the address.
pub open spec fn segment_of_vaddr(loads: Seq<LoadSegment>, va: int) -> Option<LoadSegment>
    decreases loads.len(),
{
    if loads.len() == 0 {
        None
    } else if loads[0].has_vaddr(va) {
        Some(loads[0])
    } else {
        segment_of_vaddr(loads.drop_first(), va)
    }
}

/// The first of the segments that holds the file offset.
pub open spec fn segment_of_file_offset(loads: Seq<LoadSegment>, fo: int) -> Option<LoadSegment>
    decreases loads.len(),
{
    if loads.len() == 0 {
        None
    } else if loads[0].has_file_offset(fo) {
        Some(loads[0])
    } else {
        segment_of_file_offset(loads.drop_first(), fo)
    }
}

/// The file offset behind an address, by the first segment that holds it.
pub open spec fn file_offset_of(loads: Seq<LoadSegment>, va: int) -> Option<int> {
    match segment_of_vaddr(loads, va) {
        Some(l) => Some(l.file_offset + (va - l.vaddr)),
        None => None,
    }
}

/// The address of a file offset, by the first segment that holds it. There is
/// none where it would leave the address space.
pub open spec fn vaddr_of(loads: Seq<LoadSegment>, fo: int) -> Option<int> {
    match segment_of_file_offset(loads, fo) {
        Some(l) => if l.vaddr + (fo - l.file_offset) <= u64::MAX {
            Some(l.vaddr + (fo - l.file_offset))
        } else {
            None
        },
        None => None,
    }
}

// ---------------------------------------------------------------------------
// Parsed image
// ---------------------------------------------------------------------------

/// An ELF64 image held wholly in memory: a snapshot of one file.
pub struct ElfImage {
    path: String,
    data: Vec<u8>,
    is_pie: bool,
    loads: Vec<LoadSegment>,
    build_id: Option<Vec<u8>>,
}

/// One executable segment: where it begins in the file and in memory, and its
/// bytes. Index `i` of the bytes is file offset `file_offset + i`.
pub struct ExecSegment<'a> {
    pub file_offset: u64,
    pub vaddr: u64,
    pub bytes: &'a [u8],
}

/// The content of an [`ExecSegment`].
pub struct ExecView {
    pub file_offset: u64,
    pub vaddr: u64,
    pub bytes: Seq<u8>,
}

impl<'a> View for ExecSegment<'a> {
    type V = ExecView;

    open spec fn view(&self) -> ExecView {
        ExecView { file_offset: self.file_offset, vaddr: self.vaddr, bytes: self.bytes@ }
    }
}

/// The content of a segment, given the bytes of its file.
pub open spec fn exec_view(d: Seq<u8>, l: LoadSegment) -> ExecView {
    ExecView {
        file_offset: l.file_offset,
        vaddr: l.vaddr,
        bytes: d.subrange(l.file_offset as int, l.file_offset + l.file_size),
    }
}

/// The executable segments of a file, in order.
pub open spec fn exec_views(d: Seq<u8>, loads: Seq<LoadSegment>) -> Seq<ExecView> {
    loads.filter(|l: LoadSegment| l.executable).map_values(|l: LoadSegment| exec_view(d, l))
}

impl ElfImage {
    /// The path that the image was read from.
    pub closed spec fn source(self) -> Seq<char> {
        self.path@
    }

    /// The bytes of the file.
    pub closed spec fn bytes(self) -> Seq<u8> {
        self.data@
    }

    /// The image is position independent.
    pub closed spec fn position_independent(self) -> bool {
        self.is_pie
    }

    /// The `PT_LOAD` segments, in the order of the program headers.
    pub closed spec fn segments(self) -> Seq<LoadSegment> {
        self.loads@
    }

    /// The GNU build id.
    pub closed spec fn gnu_build_id(self) -> Option<Seq<u8>> {
        match self.build_id {
            Some(id) => Some(id@),
            None => None,
        }
    }

    /// The image is what the bytes of its file say, and the file is one that can
    /// be processed.
    #[verifier::type_invariant]
    pub open spec fn wf(self) -> bool {
        let d = self.bytes();
        &&& elf_defect(d) is None
        &&& self.position_independent() == (u16_at(d, EH_TYPE as int) == ET_DYN)
        &&& self.segments() == load_segments(d, ph_count(d))
        &&& self.gnu_build_id() == first_build_id(d, note_ranges(d, ph_count(d)))
    }
}

/// The build id in the notes at `off..off + size`, where that range is cut at
/// the end of the file.
fn build_id_in_range(data: &[u8], off: u64, size: u64) -> (id: Option<Vec<u8>>)
    requires
        off + size <= u64::MAX,
    ensures
        match id {
            Some(bytes) => build_id_in(
                data@,
                off as int,
                if off + size < data@.len() { off + size } else { data@.len() as int },
            ) == Some(bytes@),
            None => build_id_in(
                data@,
                off as int,
                if off + size < data@.len() { off + size } else { data@.len() as int },
            ) is None,
        },
{
    let len: u64 = data.len() as u64;
    let end: u64 = if off + size < len { off + size } else { len };
    let mut p: u64 = off;
    while p <= end && end - p >= 12
        invariant
            len == data@.len() <= usize::MAX,
            end <= len,
            end == (if off + size < data@.len() { off + size } else { data@.len() as int }),
            build_id_in(data@, off as int, end as int) == build_id_in(data@, p as int, end as int),
        decreases end + 4 - p,
    {
        let name_size: u64 = read_u32(data, p as usize) as u64;
        let desc_size: u64 = read_u32(data, p as usize + 4) as u64;
        let kind: u32 = read_u32(data, p as usize + 8);
        let name: u64 = p + 12;
        let room: u64 = end - name;
        let name_padded: u64 = (name_size + 3) / 4 * 4;
        let desc_padded: u64 = (desc_size + 3) / 4 * 4;
        if name_size > room || name_padded + desc_size > room {
            return None;
        }
        let at: usize = name as usize;
        if kind == NT_GNU_BUILD_ID && name_size >= 3 && data[at] == 0x47 && data[at + 1] == 0x4e
            && data[at + 2] == 0x55 {
            let from: usize = at + name_padded as usize;
            return Some(slice_to_vec(slice_subrange(data, from, from + desc_size as usize)));
        }
        if name_padded + desc_padded > room {
            assert(build_id_in(data@, name + name_padded + desc_padded, end as int) is None);
            return None;
        }
        p = name + name_padded + desc_padded;
    }
    None
}

/// Walk the note ranges for a GNU build id: a note of that type whose name
/// begins with `GNU`. The ranges come from program headers, so this works on a
/// file without a section table.
pub fn parse_build_id(data: &[u8], ranges: &[(u64, u64)]) -> (id: Option<Vec<u8>>)
    ensures
        match id {
            Some(bytes) => first_build_id(data@, ranges@) == Some(bytes@),
            None => first_build_id(data@, ranges@) is None,
        },
{
    let mut i: usize = 0;
    assert(ranges@.skip(0) == ranges@);
    while i < ranges.len()
        invariant
            i <= ranges@.len(),
            first_build_id(data@, ranges@) == first_build_id(data@, ranges@.skip(i as int)),
        decreases ranges@.len() - i,
    {
        let off: u64 = ranges[i].0;
        let size: u64 = ranges[i].1;
        assert(ranges@.skip(i as int).drop_first() == ranges@.skip(i + 1));
        if size > u64::MAX - off {
            return None;
        }
        let found = build_id_in_range(data, off, size);
        if found.is_some() {
            return found;
        }
        i += 1;
    }
    None
}

impl ElfImage {
    /// Parse the outcome of reading the file at `path`. Rejects anything that is
    /// not a little-endian ELF64 x86-64 object with an executable segment.
    pub fn parse(path: &str, read: Result<Vec<u8>, String>) -> (res: Result<ElfImage, DiscoveryError>)
        ensures
            match read {
                Err(cause) => res matches Err(DiscoveryError::Read { path: p, source }) && p@
                    == path@ && source == cause,
                Ok(data) => match elf_defect(data@) {
                    Some(defect) => res matches Err(err) && reports(err, path@, defect),
                    None => res matches Ok(img) && img.wf() && img.source() == path@
                        && img.bytes() == data@,
                },
            },
    {
        match read {
            Ok(data) => ElfImage::from_bytes(path, data),
            Err(source) => Err(DiscoveryError::Read { path: path.to_owned(), source }),
        }
    }

    /// Parse the bytes of the file at `file`.
    fn from_bytes(file: &str, data: Vec<u8>) -> (res: Result<ElfImage, DiscoveryError>)
        ensures
            match elf_defect(data@) {
                Some(defect) => res matches Err(err) && reports(err, file@, defect),
                None => res matches Ok(img) && img.wf() && img.source() == file@ && img.bytes()
                    == data@,
            },
    {
        let path = file.to_owned();
        let bytes: &[u8] = data.as_slice();
        let ghost d = data@;
        if bytes.len() < EH_MIN_SIZE || bytes[0] != 0x7f || bytes[1] != 0x45 || bytes[2] != 0x4c
            || bytes[3] != 0x46 {
            return Err(DiscoveryError::NotSupportedElf { path, reason: "not an ELF file" });
        }
        if bytes[4] != ELFCLASS64 || bytes[5] != ELFDATA2LSB {
            return Err(DiscoveryError::NotSupportedElf { path, reason: "not ELF64 little-endian" });
        }
        if read_u16(bytes, EH_MACHINE) != EM_X86_64 {
            return Err(DiscoveryError::NotSupportedElf { path, reason: "not x86-64" });
        }
        let is_pie = read_u16(bytes, EH_TYPE) == ET_DYN;

        let phoff: u64 = read_u64(bytes, EH_PHOFF);
        let entry_size: u64 = read_u16(bytes, EH_PHENTSIZE) as u64;
        let count: u64 = read_u16(bytes, EH_PHNUM) as u64;
        if entry_size < PH_ENTSIZE_MIN as u64 {
            return Err(
                DiscoveryError::Malformed {
                    path,
                    reason: "program-header entry smaller than ELF64 spec",
                },
            );
        }
        let len: u64 = bytes.len() as u64;
        let mut loads: Vec<LoadSegment> = Vec::new();
        let mut notes: Vec<(u64, u64)> = Vec::new();
        let mut any_executable = false;
        let mut i: u64 = 0;
        while i < count
            invariant
                bytes@ == d,
                data@ == d,
                path@ == file@,
                len == d.len() <= usize::MAX,
                phoff == u64_at(d, EH_PHOFF as int),
                entry_size == u16_at(d, EH_PHENTSIZE as int),
                count == ph_count(d),
                count <= u16::MAX,
                entry_size <= u16::MAX,
                i <= count,
                has_elf_magic(d),
                d[4] == ELFCLASS64,
                d[5] == ELFDATA2LSB,
                u16_at(d, EH_MACHINE as int) == EM_X86_64,
                entry_size >= PH_ENTSIZE_MIN,
                forall|j: int| 0 <= j < i ==> #[trigger] ph_fits(d, j),
                loads@ == load_segments(d, i as int),
                notes@ == note_ranges(d, i as int),
                any_executable == has_executable(loads@),
            decreases count - i,
        {
            assert(i * entry_size <= u16::MAX * u16::MAX) by (nonlinear_arith)
                requires
                    i <= u16::MAX,
                    entry_size <= u16::MAX,
            ;
            let step: u64 = i * entry_size;
            // A header whose offset leaves the 64-bit space lies past any file.
            if step > u64::MAX - phoff || phoff + step > len || len - (phoff + step)
                < PH_ENTSIZE_MIN as u64 {
                assert(!ph_fits(d, i as int));
                return Err(
                    DiscoveryError::Malformed {
                        path,
                        reason: "program header extends past end of file",
                    },
                );
            }
            let base: usize = (phoff + step) as usize;
            assert(base == ph_base(d, i as int));
            let kind: u32 = read_u32(bytes, base);
            let flags: u32 = read_u32(bytes, base + PH_FLAGS);
            let segment = LoadSegment {
                file_offset: read_u64(bytes, base + PH_OFFSET),
                vaddr: read_u64(bytes, base + PH_VADDR),
                file_size: read_u64(bytes, base + PH_FILESZ),
                executable: flags & PF_X != 0,
            };
            assert(segment == ph_segment(d, i as int));
            if kind == PT_LOAD {
                let ghost before = loads@;
                loads.push(segment);
                proof {
                    lemma_push_executable(before, segment);
                }
                any_executable = any_executable || segment.executable;
            } else if kind == PT_NOTE {
                notes.push((segment.file_offset, segment.file_size));
            }
            i += 1;
        }
        if !any_executable {
            return Err(DiscoveryError::NoExecutableSegment { path });
        }
        let mut k: usize = 0;
        while k < loads.len()
            invariant
                k <= loads@.len(),
                data@ == d,
                path@ == file@,
                len == d.len(),
                loads@ == load_segments(d, ph_count(d)),
                elf_defect(d) is None || elf_defect(d) == Some(ElfDefect::LoadPastEnd),
                elf_defect(d) is None <==> loads_fit(loads@, d.len() as int),
                forall|j: int|
                    0 <= j < k ==> (#[trigger] loads@[j]).file_offset + loads@[j].file_size
                        <= d.len(),
            decreases loads@.len() - k,
        {
            let l = loads[k];
            if l.file_size > len || l.file_offset > len - l.file_size {
                assert(!loads_fit(loads@, d.len() as int));
                return Err(
                    DiscoveryError::Malformed {
                        path,
                        reason: "PT_LOAD file range extends past end of file",
                    },
                );
            }
            k += 1;
        }
        let build_id = parse_build_id(bytes, notes.as_slice());
        Ok(ElfImage { path, data, is_pie, loads, build_id })
    }
}

proof fn lemma_push_executable(loads: Seq<LoadSegment>, l: LoadSegment)
    ensures
        has_executable(loads.push(l)) == (has_executable(loads) || l.executable),
{
    let longer = loads.push(l);
    if has_executable(loads) {
        let i = choose|i: int| 0 <= i < loads.len() && (#[trigger] loads[i]).executable;
        assert(longer[i].executable);
    }
    if l.executable {
        assert(longer[loads.len() as int].executable);
    }
    if has_executable(longer) {
        let i = choose|i: int| 0 <= i < longer.len() && (#[trigger] longer[i]).executable;
        if i < loads.len() {
            assert(loads[i].executable);
        }
    }
}

impl ElfImage {
    /// The path that the image was read from.
    pub fn path(&self) -> (path: &str)
        ensures
            path@ == self.source(),
    {
        self.path.as_str()
    }

    /// Whether the image is position independent.
    pub fn is_pie(&self) -> (pie: bool)
        ensures
            pie == self.position_independent(),
    {
        self.is_pie
    }

    /// The raw build id, where the file embeds one.
    pub fn build_id(&self) -> (id: Option<&[u8]>)
        ensures
            match id {
                Some(bytes) => self.gnu_build_id() == Some(bytes@),
                None => self.gnu_build_id() is None,
            },
    {
        match &self.build_id {
            Some(id) => Some(id.as_slice()),
            None => None,
        }
    }

    /// The build id in lower-case hexadecimal.
    pub fn build_id_hex(&self) -> (hex: Option<String>)
        ensures
            match hex {
                Some(text) => self.gnu_build_id() is Some && text@ == hex_bytes(
                    self.gnu_build_id()->0,
                ),
                None => self.gnu_build_id() is None,
            },
    {
        match &self.build_id {
            Some(id) => Some(hex_of_bytes(id.as_slice())),
            None => None,
        }
    }

    /// The bytes of the whole file.
    pub fn data(&self) -> (bytes: &[u8])
        ensures
            bytes@ == self.bytes(),
    {
        self.data.as_slice()
    }

    /// Map a virtual address of the image to a file offset, by the segment that
    /// holds it.
    pub fn vaddr_to_file_offset(&self, va: u64) -> (fo: Option<u64>)
        ensures
            match fo {
                Some(fo) => file_offset_of(self.segments(), va as int) == Some(fo as int) && fo
                    < self.bytes().len(),
                None => file_offset_of(self.segments(), va as int) is None,
            },
    {
        proof {
            use_type_invariant(self);
        }
        assert(self.data@.len() == self.data.len());
        assert(self.loads@.skip(0) == self.loads@);
        let mut i: usize = 0;
        while i < self.loads.len()
            invariant
                i <= self.loads@.len(),
                loads_fit(self.loads@, self.data@.len() as int),
                self.data@.len() <= usize::MAX,
                segment_of_vaddr(self.loads@, va as int) == segment_of_vaddr(
                    self.loads@.skip(i as int),
                    va as int,
                ),
            decreases self.loads@.len() - i,
        {
            let l = self.loads[i];
            if l.contains_vaddr(va) {
                return Some(l.file_offset + (va - l.vaddr));
            }
            assert(self.loads@.skip(i as int).drop_first() == self.loads@.skip(i + 1));
            i += 1;
        }
        None
    }

    /// Map a file offset to a virtual address of the image. For reports and for
    /// analysis; an attach offset is never made from the result.
    pub fn file_offset_to_vaddr(&self, fo: u64) -> (va: Option<u64>)
        ensures
            match va {
                Some(va) => vaddr_of(self.segments(), fo as int) == Some(va as int),
                None => vaddr_of(self.segments(), fo as int) is None,
            },
    {
        assert(self.loads@.skip(0) == self.loads@);
        let mut i: usize = 0;
        while i < self.loads.len()
            invariant
                i <= self.loads@.len(),
                segment_of_file_offset(self.loads@, fo as int) == segment_of_file_offset(
                    self.loads@.skip(i as int),
                    fo as int,
                ),
            decreases self.loads@.len() - i,
        {
            let l = self.loads[i];
            if l.contains_file_offset(fo) {
                return l.vaddr.checked_add(fo - l.file_offset);
            }
            assert(self.loads@.skip(i as int).drop_first() == self.loads@.skip(i + 1));
            i += 1;
        }
        None
    }

    /// The executable segments, in the order of the program headers.
    pub fn executable_segments(&self) -> (segments: Vec<ExecSegment<'_>>)
        ensures
            segments@.map_values(|s: ExecSegment<'_>| s@) == exec_views(
                self.bytes(),
                self.segments(),
            ),
            segments@.len() >= 1,
    {
        proof {
            use_type_invariant(self);
        }
        assert(self.data@.len() == self.data.len());
        let ghost loads = self.loads@;
        let ghost d = self.data@;
        let ghost pick = |l: LoadSegment| l.executable;
        let mut segments: Vec<ExecSegment<'_>> = Vec::new();
        assert(loads.take(0).filter(pick) == Seq::<LoadSegment>::empty());
        assert(segments@.map_values(|s: ExecSegment<'_>| s@) == exec_views(d, loads.take(0)));
        let mut i: usize = 0;
        while i < self.loads.len()
            invariant
                i <= loads.len(),
                loads == self.loads@,
                d == self.data@,
                d.len() <= usize::MAX,
                loads_fit(loads, d.len() as int),
                pick == (|l: LoadSegment| l.executable),
                segments@.map_values(|s: ExecSegment<'_>| s@) == exec_views(
                    d,
                    loads.take(i as int),
                ),
            decreases loads.len() - i,
        {
            let l = self.loads[i];
            let ghost before = segments@;
            proof {
                lemma_exec_views_step(d, loads, i as int);
            }
            if l.executable {
                let from: usize = l.file_offset as usize;
                let to: usize = (l.file_offset + l.file_size) as usize;
                let segment = ExecSegment {
                    file_offset: l.file_offset,
                    vaddr: l.vaddr,
                    bytes: slice_subrange(self.data.as_slice(), from, to),
                };
                segments.push(segment);
                assert(segments@.map_values(|s: ExecSegment<'_>| s@) == before.map_values(
                    |s: ExecSegment<'_>| s@,
                ).push(segment@));
            }
            i += 1;
        }
        assert(loads.take(loads.len() as int) == loads);
        proof {
            lemma_some_exec_view(d, loads);
            assert(segments@.len() == segments@.map_values(|s: ExecSegment<'_>| s@).len());
        }
        segments
    }
}

/// One more segment adds its content where it is executable.
proof fn lemma_exec_views_step(d: Seq<u8>, loads: Seq<LoadSegment>, i: int)
    requires
        0 <= i < loads.len(),
    ensures
        exec_views(d, loads.take(i + 1)) == if loads[i].executable {
            exec_views(d, loads.take(i)).push(exec_view(d, loads[i]))
        } else {
            exec_views(d, loads.take(i))
        },
{
    let pick = |l: LoadSegment| l.executable;
    let longer = loads.take(i + 1);
    reveal(Seq::filter);
    assert(longer.drop_last() == loads.take(i));
    assert(longer.last() == loads[i]);
    let short = loads.take(i).filter(pick);
    if loads[i].executable {
        assert(short.push(loads[i]).map_values(|l: LoadSegment| exec_view(d, l))
            == short.map_values(|l: LoadSegment| exec_view(d, l)).push(exec_view(d, loads[i])));
    }
}

/// An executable segment has a content.
proof fn lemma_some_exec_view(d: Seq<u8>, loads: Seq<LoadSegment>)
    requires
        has_executable(loads),
    ensures
        exec_views(d, loads).len() >= 1,
{
    let pick = |l: LoadSegment| l.executable;
    let i = choose|i: int| 0 <= i < loads.len() && (#[trigger] loads[i]).executable;
    broadcast use vstd::seq_lib::group_filter_ensures;

    assert(pick(loads[i]));
    assert(loads.filter(pick).contains(loads[i]));
}

// ---------------------------------------------------------------------------
// Laws of the address mappings
// ---------------------------------------------------------------------------

/// Two segments place the file at the same distance in memory.
pub open spec fn same_bias(a: LoadSegment, b: LoadSegment) -> bool {
    a.vaddr - a.file_offset == b.vaddr - b.file_offset
}

/// No address is held by two of the segments.
pub open spec fn disjoint_in_memory(loads: Seq<LoadSegment>) -> bool {
    forall|i: int, j: int, va: int|
        0 <= i < j < loads.len() && #[trigger] loads[i].has_vaddr(va)
            ==> !#[trigger] loads[j].has_vaddr(va)
}

/// The segment found for an address is one of the segments, and holds it.
proof fn lemma_segment_of_vaddr(loads: Seq<LoadSegment>, va: int)
    ensures
        match segment_of_vaddr(loads, va) {
            Some(l) => loads.contains(l) && l.has_vaddr(va),
            None => forall|i: int| 0 <= i < loads.len() ==> !(#[trigger] loads[i]).has_vaddr(va),
        },
    decreases loads.len(),
{
    if loads.len() > 0 {
        let rest = loads.drop_first();
        assert(loads.contains(loads[0]));
        if !loads[0].has_vaddr(va) {
            lemma_segment_of_vaddr(rest, va);
            match segment_of_vaddr(rest, va) {
                Some(l) => {
                    let i = choose|i: int| 0 <= i < rest.len() && rest[i] == l;
                    assert(loads[i + 1] == l);
                },
                None => {
                    assert forall|i: int| 0 <= i < loads.len() implies !(
                    #[trigger] loads[i]).has_vaddr(va) by {
                        if i > 0 {
                            assert(rest[i - 1] == loads[i]);
                        }
                    }
                },
            }
        }
    }
}

/// The segment found for a file offset is one of the segments, and holds it.
proof fn lemma_segment_of_file_offset(loads: Seq<LoadSegment>, fo: int)
    ensures
        match segment_of_file_offset(loads, fo) {
            Some(l) => loads.contains(l) && l.has_file_offset(fo),
            None => forall|i: int|
                0 <= i < loads.len() ==> !(#[trigger] loads[i]).has_file_offset(fo),
        },
    decreases loads.len(),
{
    if loads.len() > 0 {
        let rest = loads.drop_first();
        assert(loads.contains(loads[0]));
        if !loads[0].has_file_offset(fo) {
            lemma_segment_of_file_offset(rest, fo);
            match segment_of_file_offset(rest, fo) {
                Some(l) => {
                    let i = choose|i: int| 0 <= i < rest.len() && rest[i] == l;
                    assert(loads[i + 1] == l);
                },
                None => {
                    assert forall|i: int| 0 <= i < loads.len() implies !(
                    #[trigger] loads[i]).has_file_offset(fo) by {
                        if i > 0 {
                            assert(rest[i - 1] == loads[i]);
                        }
                    }
                },
            }
        }
    }
}

/// Mapping a file offset to an address and back gives the file offset again,
/// unless a segment that comes earlier claims the address for another place in
/// the file. The very last address of the space belongs to no segment.
pub proof fn law_file_offset_round_trip(img: ElfImage, fo: u64, va: u64)
    requires
        img.wf(),
        vaddr_of(img.segments(), fo as int) == Some(va as int),
        va < u64::MAX,
        same_bias(
            segment_of_vaddr(img.segments(), va as int)->0,
            segment_of_file_offset(img.segments(), fo as int)->0,
        ),
    ensures
        file_offset_of(img.segments(), va as int) == Some(fo as int),
{
    lemma_segment_of_file_offset(img.segments(), fo as int);
    lemma_segment_of_vaddr(img.segments(), va as int);
}

/// Mapping an address to a file offset and back gives the address again, unless
/// a segment that comes earlier places that part of the file elsewhere.
pub proof fn law_vaddr_round_trip(img: ElfImage, va: u64, fo: u64)
    requires
        img.wf(),
        file_offset_of(img.segments(), va as int) == Some(fo as int),
        same_bias(
            segment_of_file_offset(img.segments(), fo as int)->0,
            segment_of_vaddr(img.segments(), va as int)->0,
        ),
    ensures
        vaddr_of(img.segments(), fo as int) == Some(va as int),
{
    let loads = img.segments();
    lemma_segment_of_vaddr(loads, va as int);
    lemma_segment_of_file_offset(loads, fo as int);
    assert(img.data@.len() == img.data.len());
    let l = segment_of_vaddr(loads, va as int)->0;
    let i = choose|i: int| 0 <= i < loads.len() && loads[i] == l;
    assert(loads[i].file_offset + loads[i].file_size <= img.bytes().len());
}

/// In an image whose segments do not overlap in memory, mapping a file offset to
/// an address and back gives the file offset again.
pub proof fn law_disjoint_segments_round_trip(img: ElfImage, fo: u64, va: u64)
    requires
        img.wf(),
        disjoint_in_memory(img.segments()),
        vaddr_of(img.segments(), fo as int) == Some(va as int),
        va < u64::MAX,
    ensures
        file_offset_of(img.segments(), va as int) == Some(fo as int),
{
    let loads = img.segments();
    lemma_segment_of_file_offset(loads, fo as int);
    lemma_segment_of_vaddr(loads, va as int);
    let l = segment_of_file_offset(loads, fo as int)->0;
    let i = choose|i: int| 0 <= i < loads.len() && loads[i] == l;
    assert(loads[i].has_vaddr(va as int));
    let m = segment_of_vaddr(loads, va as int)->0;
    let j = choose|j: int| 0 <= j < loads.len() && loads[j] == m;
    assert(loads[j].has_vaddr(va as int));
}

/// An index into an executable segment is an index into the file at the distance
/// of the segment's file offset.
pub proof fn law_exec_bytes_are_file_bytes(img: ElfImage, k: int, i: int)
    requires
        img.wf(),
        0 <= k < exec_views(img.bytes(), img.segments()).len(),
        0 <= i < exec_views(img.bytes(), img.segments())[k].bytes.len(),
    ensures
        ({
            let s = exec_views(img.bytes(), img.segments())[k];
            &&& s.file_offset + i < img.bytes().len()
            &&& s.bytes[i] == img.bytes()[s.file_offset + i]
        }),
{
    let loads = img.segments();
    let pick = |l: LoadSegment| l.executable;
    lemma_filter_members(loads, k);
    let l = loads.filter(pick)[k];
    let j = choose|j: int| 0 <= j < loads.len() && loads[j] == l;
    assert(loads[j].file_offset + loads[j].file_size <= img.bytes().len());
}

/// What a filter keeps comes from the sequence.
proof fn lemma_filter_members(loads: Seq<LoadSegment>, k: int)
    requires
        0 <= k < loads.filter(|l: LoadSegment| l.executable).len(),
    ensures
        loads.contains(loads.filter(|l: LoadSegment| l.executable)[k]),
        loads.filter(|l: LoadSegment| l.executable)[k].executable,
    decreases loads.len(),
{
    reveal(Seq::filter);
    let pick = |l: LoadSegment| l.executable;
    if loads.len() > 0 {
        let front = loads.drop_last();
        if k < front.filter(pick).len() {
            lemma_filter_members(front, k);
            let l = front.filter(pick)[k];
            let i = choose|i: int| 0 <= i < front.len() && front[i] == l;
            assert(loads[i] == l);
            assert(loads.filter(pick)[k] == l);
        } else {
            assert(loads.filter(pick)[k] == loads.last());
            assert(loads[loads.len() - 1] == loads.last());
        }
    }
}

// ---------------------------------------------------------------------------
// Laws on the bytes of a file
// ---------------------------------------------------------------------------

/// Where entry `i` of a table of `size`-byte entries at `table` begins.
pub open spec fn entry_at(table: int, size: int, i: int) -> int {
    table + i * size
}

/// Which files can be processed, byte by byte: those of at least 64 bytes that begin
/// with the four magic bytes, `2` for 64 bits and `1` for little-endian, are for machine
/// `3e`, have a table of program headers of at least 56 bytes each inside the file, and
/// have loads, of which one is executable and all lie inside the file. Nothing else in
/// the file matters.
pub proof fn law_which_files_are_processed(d: Seq<u8>)
    requires
        d.len() >= 64,
    ensures
        elf_defect(d) is None <==> {
            let table = u64_at(d, 32);
            let size = d[54] + 256 * d[55];
            let count = d[56] + 256 * d[57];
            &&& d[0] == 127 && d[1] == 69 && d[2] == 76 && d[3] == 70
            &&& d[4] == 2 && d[5] == 1
            &&& d[18] == 62 && d[19] == 0
            &&& size >= 56
            &&& forall|i: int| 0 <= i < count ==> #[trigger] entry_at(table, size, i) + 56 <= d.len()
            &&& exists|i: int|
                0 <= i < count && {
                    let at = #[trigger] entry_at(table, size, i);
                    u32_at(d, at) == 1 && d[at + 4] % 2 == 1
                }
            &&& forall|i: int|
                0 <= i < count && u32_at(d, #[trigger] entry_at(table, size, i)) == 1 ==> u64_at(
                    d,
                    entry_at(table, size, i) + 8,
                ) + u64_at(d, entry_at(table, size, i) + 32) <= d.len()
        },
{
    let table = u64_at(d, 32);
    let size = d[54] + 256 * d[55];
    let count = d[56] + 256 * d[57];
    assert(ph_count(d) == count);
    if forall|i: int| 0 <= i < count ==> #[trigger] entry_at(table, size, i) + 56 <= d.len() {
        lemma_loads_on_bytes(d, table, size, count);
        if exists|i: int| 0 <= i < ph_count(d) && !#[trigger] ph_fits(d, i) {
            let i = choose|i: int| 0 <= i < ph_count(d) && !#[trigger] ph_fits(d, i);
            assert(entry_at(table, size, i) + 56 <= d.len());
        }
    } else {
        let i = choose|i: int|
            0 <= i < count && !(#[trigger] entry_at(table, size, i) + 56 <= d.len());
        assert(!ph_fits(d, i));
    }
}

/// What is wrong with the loads of a file whose header and program headers are right:
/// first that none is executable, then that one does not lie in the file.
pub proof fn law_load_defects(d: Seq<u8>)
    requires
        d.len() >= 64,
        d[0] == 127 && d[1] == 69 && d[2] == 76 && d[3] == 70,
        d[4] == 2 && d[5] == 1,
        d[18] == 62 && d[19] == 0,
        d[54] + 256 * d[55] >= 56,
        forall|i: int|
            0 <= i < d[56] + 256 * d[57] ==> #[trigger] entry_at(
                u64_at(d, 32),
                d[54] + 256 * d[55],
                i,
            ) + 56 <= d.len(),
    ensures
        ({
            let table = u64_at(d, 32);
            let size = d[54] + 256 * d[55];
            let count = d[56] + 256 * d[57];
            let executable = exists|i: int|
                0 <= i < count && {
                    let at = #[trigger] entry_at(table, size, i);
                    u32_at(d, at) == 1 && d[at + 4] % 2 == 1
                };
            let inside = forall|i: int|
                0 <= i < count && u32_at(d, #[trigger] entry_at(table, size, i)) == 1 ==> u64_at(
                    d,
                    entry_at(table, size, i) + 8,
                ) + u64_at(d, entry_at(table, size, i) + 32) <= d.len();
            elf_defect(d) == if !executable {
                Some(ElfDefect::NoExecutableSegment)
            } else if !inside {
                Some(ElfDefect::LoadPastEnd)
            } else {
                None
            }
        }),
{
    let table = u64_at(d, 32);
    let size = d[54] + 256 * d[55];
    let count = d[56] + 256 * d[57];
    lemma_loads_on_bytes(d, table, size, count);
    assert forall|i: int| 0 <= i < ph_count(d) implies #[trigger] ph_fits(d, i) by {
        assert(entry_at(table, size, i) + 56 <= d.len());
    }
}

/// The loads of a file, and what is asked of them, on its bytes.
proof fn lemma_loads_on_bytes(d: Seq<u8>, table: int, size: int, count: int)
    requires
        d.len() >= 64,
        table == u64_at(d, 32),
        size == d[54] + 256 * d[55],
        count == d[56] + 256 * d[57],
        forall|i: int| 0 <= i < count ==> #[trigger] entry_at(table, size, i) + 56 <= d.len(),
    ensures
        has_executable(load_segments(d, count)) <==> exists|i: int|
            0 <= i < count && {
                let at = #[trigger] entry_at(table, size, i);
                u32_at(d, at) == 1 && d[at + 4] % 2 == 1
            },
        loads_fit(load_segments(d, count), d.len() as int) <==> forall|i: int|
            0 <= i < count && u32_at(d, #[trigger] entry_at(table, size, i)) == 1 ==> u64_at(
                d,
                entry_at(table, size, i) + 8,
            ) + u64_at(d, entry_at(table, size, i) + 32) <= d.len(),
{
    let loads = load_segments(d, count);
    assert forall|i: int| 0 <= i < count implies #[trigger] ph_base(d, i) == entry_at(
        table,
        size,
        i,
    ) && 0 <= ph_base(d, i) && ph_base(d, i) + 56 <= d.len() by {
        assert(entry_at(table, size, i) + 56 <= d.len());
        assert(i * size >= 0) by (nonlinear_arith)
            requires
                i >= 0,
                size >= 0,
        ;
    }
    lemma_loads_and_headers(d, count);
    assert forall|i: int| 0 <= i < count implies (#[trigger] ph_segment(d, i)).executable == (
    d[ph_base(d, i) + 4] % 2 == 1) by {
        assert(ph_base(d, i) + 56 <= d.len());
        lemma_execute_bit(d, ph_base(d, i) + 4);
    }
    if has_executable(loads) {
        let k = choose|k: int| 0 <= k < loads.len() && (#[trigger] loads[k]).executable;
        assert(has_header(d, count, loads[k]));
        let i = choose|i: int|
            0 <= i < count && ph_type(d, i) == PT_LOAD && #[trigger] ph_segment(d, i) == loads[k];
        assert(entry_at(table, size, i) == ph_base(d, i));
    }
    if exists|i: int|
        0 <= i < count && {
            let at = #[trigger] entry_at(table, size, i);
            u32_at(d, at) == 1 && d[at + 4] % 2 == 1
        } {
        let i = choose|i: int|
            0 <= i < count && {
                let at = #[trigger] entry_at(table, size, i);
                u32_at(d, at) == 1 && d[at + 4] % 2 == 1
            };
        assert(ph_base(d, i) == entry_at(table, size, i));
        assert(ph_segment(d, i).executable);
        let k = choose|k: int| 0 <= k < loads.len() && loads[k] == ph_segment(d, i);
        assert(loads[k].executable);
    }
    if loads_fit(loads, d.len() as int) {
        assert forall|i: int|
            0 <= i < count && u32_at(d, #[trigger] entry_at(table, size, i)) == 1 implies u64_at(
            d,
            entry_at(table, size, i) + 8,
        ) + u64_at(d, entry_at(table, size, i) + 32) <= d.len() by {
            assert(ph_base(d, i) == entry_at(table, size, i));
            let k = choose|k: int| 0 <= k < loads.len() && loads[k] == ph_segment(d, i);
            assert(loads[k].file_offset + loads[k].file_size <= d.len());
            lemma_segment_numbers(d, i);
        }
    }
    if forall|i: int|
        0 <= i < count && u32_at(d, #[trigger] entry_at(table, size, i)) == 1 ==> u64_at(
            d,
            entry_at(table, size, i) + 8,
        ) + u64_at(d, entry_at(table, size, i) + 32) <= d.len() {
        assert forall|k: int| 0 <= k < loads.len() implies (#[trigger] loads[k]).file_offset
            + loads[k].file_size <= d.len() by {
            assert(has_header(d, count, loads[k]));
            let i = choose|i: int|
                0 <= i < count && ph_type(d, i) == PT_LOAD && #[trigger] ph_segment(d, i)
                    == loads[k];
            assert(ph_base(d, i) == entry_at(table, size, i));
            lemma_segment_numbers(d, i);
        }
    }
}

/// A file that is shorter than its header is no ELF file.
pub proof fn law_short_file_is_no_elf(d: Seq<u8>)
    requires
        d.len() < 64,
    ensures
        elf_defect(d) == Some(ElfDefect::NotElf),
{
}

/// What is told of a file that cannot be processed: the first thing that is wrong with
/// its header, from its beginning on.
pub proof fn law_header_defects(d: Seq<u8>)
    requires
        d.len() >= 64,
    ensures
        ({
            let magic = d[0] == 127 && d[1] == 69 && d[2] == 76 && d[3] == 70;
            let class = d[4] == 2 && d[5] == 1;
            let machine = d[18] == 62 && d[19] == 0;
            let entries = d[54] + 256 * d[55] >= 56;
            &&& !magic <==> elf_defect(d) == Some(ElfDefect::NotElf)
            &&& magic && !class <==> elf_defect(d) == Some(ElfDefect::NotElf64LittleEndian)
            &&& magic && class && !machine <==> elf_defect(d) == Some(ElfDefect::NotX86_64)
            &&& magic && class && machine && !entries <==> elf_defect(d) == Some(
                ElfDefect::SmallProgramHeader,
            )
            &&& elf_defect(d) == Some(ElfDefect::ProgramHeaderPastEnd) <==> magic && class
                && machine && entries && exists|i: int|
                0 <= i < d[56] + 256 * d[57] && #[trigger] entry_at(
                    u64_at(d, 32),
                    d[54] + 256 * d[55],
                    i,
                ) + 56 > d.len()
        }),
{
    let table = u64_at(d, 32);
    let size = d[54] + 256 * d[55];
    assert(ph_count(d) == d[56] + 256 * d[57]);
    if exists|i: int| 0 <= i < ph_count(d) && !#[trigger] ph_fits(d, i) {
        let i = choose|i: int| 0 <= i < ph_count(d) && !#[trigger] ph_fits(d, i);
        assert(entry_at(table, size, i) + 56 > d.len());
    }
    if exists|i: int| 0 <= i < ph_count(d) && #[trigger] entry_at(table, size, i) + 56 > d.len() {
        let i = choose|i: int|
            0 <= i < ph_count(d) && #[trigger] entry_at(table, size, i) + 56 > d.len();
        assert(!ph_fits(d, i));
    }
}

/// The message for each defect, with the path of the file in it.
pub proof fn law_defect_messages(err: DiscoveryError, file: Seq<char>, defect: ElfDefect)
    requires
        reports(err, file, defect),
    ensures
        err.text() == match defect {
            ElfDefect::NotElf => "`"@ + file + "` is not a supported ELF ("@ + "not an ELF file"@
                + ")"@,
            ElfDefect::NotElf64LittleEndian => "`"@ + file + "` is not a supported ELF ("@
                + "not ELF64 little-endian"@ + ")"@,
            ElfDefect::NotX86_64 => "`"@ + file + "` is not a supported ELF ("@ + "not x86-64"@
                + ")"@,
            ElfDefect::SmallProgramHeader => "malformed ELF `"@ + file + "`: "@
                + "program-header entry smaller than ELF64 spec"@,
            ElfDefect::ProgramHeaderPastEnd => "malformed ELF `"@ + file + "`: "@
                + "program header extends past end of file"@,
            ElfDefect::NoExecutableSegment => "`"@ + file
                + "` has no executable PT_LOAD segment"@,
            ElfDefect::LoadPastEnd => "malformed ELF `"@ + file + "`: "@
                + "PT_LOAD file range extends past end of file"@,
        },
{
}

/// The segments and the note ranges of a file, one program header after the other: a
/// header of type one is a segment, with its offset, address and size in the file at
/// bytes 8, 16 and 32, executable where the lowest bit of byte 4 is set; one of type
/// four is a note range; and any other is neither.
pub proof fn law_headers_one_by_one(d: Seq<u8>, n: int)
    requires
        d.len() >= 64,
        n >= 0,
        entry_at(u64_at(d, 32), d[54] + 256 * d[55], n) + 56 <= d.len(),
    ensures
        load_segments(d, 0).len() == 0,
        note_ranges(d, 0).len() == 0,
        ({
            let at = entry_at(u64_at(d, 32), d[54] + 256 * d[55], n);
            let kind = u32_at(d, at);
            let before = load_segments(d, n);
            let after = load_segments(d, n + 1);
            &&& kind == 1 ==> {
                let s = after[before.len() as int];
                &&& after == before.push(s)
                &&& s.file_offset == u64_at(d, at + 8)
                &&& s.vaddr == u64_at(d, at + 16)
                &&& s.file_size == u64_at(d, at + 32)
                &&& s.executable <==> d[at + 4] % 2 == 1
            }
            &&& kind != 1 ==> after == before
            &&& kind == 4 ==> {
                let r = note_ranges(d, n + 1)[note_ranges(d, n).len() as int];
                &&& note_ranges(d, n + 1) == note_ranges(d, n).push(r)
                &&& r.0 == u64_at(d, at + 8)
                &&& r.1 == u64_at(d, at + 32)
            }
            &&& kind != 4 ==> note_ranges(d, n + 1) == note_ranges(d, n)
        }),
{
    assert(ph_base(d, n) == entry_at(u64_at(d, 32), d[54] + 256 * d[55], n));
    assert(ph_base(d, n) >= 0) by (nonlinear_arith)
        requires
            ph_base(d, n) == u64_at(d, 32) + n * (d[54] + 256 * d[55]),
            n >= 0,
            u64_at(d, 32) >= 0,
    ;
    lemma_segment_numbers(d, n);
    lemma_execute_bit(d, ph_base(d, n) + 4);
}

/// An image is what its bytes say: it is position independent where the type in bytes
/// 16 and 17 is three, and its segments and its build id are those of all its program
/// headers, whose number stands in bytes 56 and 57.
pub proof fn law_image_is_its_bytes(img: ElfImage)
    requires
        img.wf(),
    ensures
        ({
            let d = img.bytes();
            let count = d[56] + 256 * d[57];
            &&& d.len() >= 64
            &&& img.position_independent() <==> d[16] == 3 && d[17] == 0
            &&& img.segments() == load_segments(d, count)
            &&& img.gnu_build_id() == first_build_id(d, note_ranges(d, count))
        }),
{
}

/// An address is found in the file through the first segment that holds it, at the
/// same distance from its beginning; the last address of all belongs to none.
pub proof fn law_address_maps_through_its_segment(loads: Seq<LoadSegment>, va: int, i: int)
    requires
        0 <= i < loads.len(),
        loads[i].vaddr <= va < loads[i].vaddr + loads[i].file_size,
        va < 18446744073709551615,
        forall|j: int|
            0 <= j < i ==> va < (#[trigger] loads[j]).vaddr || va >= loads[j].vaddr
                + loads[j].file_size,
    ensures
        file_offset_of(loads, va) == Some(loads[i].file_offset + (va - loads[i].vaddr)),
    decreases loads.len(),
{
    if i > 0 {
        let rest = loads.drop_first();
        assert(!loads[0].has_vaddr(va));
        assert forall|j: int| 0 <= j < i - 1 implies va < (#[trigger] rest[j]).vaddr || va
            >= rest[j].vaddr + rest[j].file_size by {
            assert(rest[j] == loads[j + 1]);
        }
        assert(rest[i - 1] == loads[i]);
        law_address_maps_through_its_segment(rest, va, i - 1);
    }
}

/// A file offset is found in memory through the first segment that holds it, at the
/// same distance from its beginning, where that is an address.
pub proof fn law_offset_maps_through_its_segment(loads: Seq<LoadSegment>, fo: int, i: int)
    requires
        0 <= i < loads.len(),
        loads[i].file_offset <= fo < loads[i].file_offset + loads[i].file_size,
        fo < 18446744073709551615,
        forall|j: int|
            0 <= j < i ==> fo < (#[trigger] loads[j]).file_offset || fo >= loads[j].file_offset
                + loads[j].file_size,
    ensures
        ({
            let va = loads[i].vaddr + (fo - loads[i].file_offset);
            vaddr_of(loads, fo) == if va <= 18446744073709551615 {
                Some(va)
            } else {
                None
            }
        }),
    decreases loads.len(),
{
    if i > 0 {
        let rest = loads.drop_first();
        assert(!loads[0].has_file_offset(fo));
        assert forall|j: int| 0 <= j < i - 1 implies fo < (#[trigger] rest[j]).file_offset || fo
            >= rest[j].file_offset + rest[j].file_size by {
            assert(rest[j] == loads[j + 1]);
        }
        assert(rest[i - 1] == loads[i]);
        law_offset_maps_through_its_segment(rest, fo, i - 1);
    }
}

/// What no segment holds is found neither in the file nor in memory.
pub proof fn law_nothing_outside_the_segments(loads: Seq<LoadSegment>, x: int)
    ensures
        (forall|j: int|
            0 <= j < loads.len() ==> x < (#[trigger] loads[j]).vaddr || x >= loads[j].vaddr
                + loads[j].file_size) ==> file_offset_of(loads, x) is None,
        (forall|j: int|
            0 <= j < loads.len() ==> x < (#[trigger] loads[j]).file_offset || x
                >= loads[j].file_offset + loads[j].file_size) ==> vaddr_of(loads, x) is None,
{
    lemma_segment_of_vaddr(loads, x);
    lemma_segment_of_file_offset(loads, x);
}

/// The executable segments, one load after the other: an executable one counts, with
/// its own part of the file, and no other.
pub proof fn law_executable_segments(d: Seq<u8>, loads: Seq<LoadSegment>, l: LoadSegment)
    ensures
        exec_views(d, Seq::<LoadSegment>::empty()).len() == 0,
        !l.executable ==> exec_views(d, loads.push(l)) == exec_views(d, loads),
        l.executable ==> {
            let s = exec_views(d, loads.push(l))[exec_views(d, loads).len() as int];
            &&& exec_views(d, loads.push(l)) == exec_views(d, loads).push(s)
            &&& s.file_offset == l.file_offset
            &&& s.vaddr == l.vaddr
            &&& s.bytes == d.subrange(l.file_offset as int, l.file_offset + l.file_size)
        },
{
    reveal(Seq::filter);
    let longer = loads.push(l);
    assert(longer.take(loads.len() as int) =~= loads);
    assert(longer.take(loads.len() as int + 1) =~= longer);
    lemma_exec_views_step(d, longer, loads.len() as int);
}

/// The first build id of a range of notes, one note after the other. A note has the
/// lengths of its name and of its content, a type, and then both, each filled up to a
/// multiple of four bytes. One that does not fit ends the range; one of type three whose
/// name begins with `GNU` is the build id; any other is passed over.
pub proof fn law_notes_one_by_one(d: Seq<u8>, p: int, end: int, name_fill: int, content_fill: int)
    requires
        0 <= p,
        end <= d.len(),
        0 <= name_fill < 4,
        (u32_at(d, p) + name_fill) % 4 == 0,
        0 <= content_fill < 4,
        (u32_at(d, p + 4) + content_fill) % 4 == 0,
    ensures
        ({
            let name = p + 12;
            let name_len = u32_at(d, p);
            let content = name + name_len + name_fill;
            let content_len = u32_at(d, p + 4);
            let is_id = u32_at(d, p + 8) == 3 && name_len >= 3 && d[name] == 71 && d[name + 1] == 78
                && d[name + 2] == 85;
            let fits = name <= end && name + name_len <= end && content + content_len <= end;
            &&& !fits ==> build_id_in(d, p, end) is None
            &&& fits && is_id ==> build_id_in(d, p, end) == Some(
                d.subrange(content, content + content_len),
            )
            &&& fits && !is_id ==> build_id_in(d, p, end) == build_id_in(
                d,
                content + content_len + content_fill,
                end,
            )
        }),
{
    lemma_align4(u32_at(d, p), name_fill);
    lemma_align4(u32_at(d, p + 4), content_fill);
}

proof fn lemma_align4(n: int, fill: int)
    requires
        0 <= fill < 4,
        (n + fill) % 4 == 0,
    ensures
        align4(n) == n + fill,
{
}

/// The build id of a file is that of the first of its note ranges that has one. A range
/// ends with the file.
pub proof fn law_first_range_with_a_build_id(d: Seq<u8>, off: u64, size: u64, rest: Seq<(u64, u64)>)
    requires
        off + size <= 18446744073709551615,
    ensures
        first_build_id(d, Seq::<(u64, u64)>::empty()) is None,
        ({
            let end = if off + size <= d.len() {
                off + size
            } else {
                d.len() as int
            };
            let here = build_id_in(d, off as int, end);
            first_build_id(d, seq![(off, size)] + rest) == if here is Some {
                here
            } else {
                first_build_id(d, rest)
            }
        }),
{
    assert((seq![(off, size)] + rest).drop_first() =~= rest);
}

/// The lowest bit of the flags of a program header.
proof fn lemma_execute_bit(d: Seq<u8>, at: int)
    requires
        0 <= at,
        at + 4 <= d.len(),
    ensures
        ((u32_at(d, at) as u32) & PF_X != 0) == (d[at] % 2 == 1),
{
    let flags = u32_at(d, at) as u32;
    assert(flags & 1 != 0 <==> flags % 2 == 1) by (bit_vector);
    assert(flags == d[at] + 0x100 * d[at + 1] + 0x1_0000 * d[at + 2] + 0x100_0000 * d[at + 3]);
}

/// The numbers of a segment are those of its program header.
proof fn lemma_segment_numbers(d: Seq<u8>, i: int)
    ensures
        ph_segment(d, i).file_offset == u64_at(d, ph_base(d, i) + 8),
        ph_segment(d, i).vaddr == u64_at(d, ph_base(d, i) + 16),
        ph_segment(d, i).file_size == u64_at(d, ph_base(d, i) + 32),
{
}

/// One of the first `n` program headers is that of the segment.
spec fn has_header(d: Seq<u8>, n: int, l: LoadSegment) -> bool {
    exists|i: int| 0 <= i < n && ph_type(d, i) == PT_LOAD && #[trigger] ph_segment(d, i) == l
}

/// The segments among the first `n` program headers are those of the headers of
/// type one.
proof fn lemma_loads_and_headers(d: Seq<u8>, n: int)
    ensures
        forall|k: int|
            0 <= k < load_segments(d, n).len() ==> has_header(d, n, #[trigger] load_segments(d, n)[k]),
        forall|i: int|
            0 <= i < n && ph_type(d, i) == PT_LOAD ==> load_segments(d, n).contains(
                #[trigger] ph_segment(d, i),
            ),
    decreases n,
{
    if n > 0 {
        lemma_loads_and_headers(d, n - 1);
        let front = load_segments(d, n - 1);
        let all = load_segments(d, n);
        assert forall|k: int| 0 <= k < all.len() implies has_header(d, n, #[trigger] all[k]) by {
            if k < front.len() {
                assert(all[k] == front[k]);
                assert(has_header(d, n - 1, front[k]));
            } else {
                assert(ph_segment(d, n - 1) == all[k]);
            }
        }
        assert forall|i: int| 0 <= i < n && ph_type(d, i) == PT_LOAD implies all.contains(
            #[trigger] ph_segment(d, i),
        ) by {
            if i < n - 1 {
                let k = choose|k: int| 0 <= k < front.len() && front[k] == ph_segment(d, i);
                assert(all[k] == ph_segment(d, i));
            } else {
                assert(all[front.len() as int] == ph_segment(d, i));
            }
        }
    }
}

} // verus!
