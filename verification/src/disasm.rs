//! Disassembly of candidate functions: from a reference site back to the entry of
//! its function, and from the entry forward through its instructions, reduced to
//! the facts that tell one function from another.
//!
//! The targets are built with frame pointers and without `endbr64`, so a function
//! begins with `push rbp; mov rbp,rsp`.

use vstd::prelude::*;
use vstd::slice::slice_subrange;
use vstd::string::StringExecFns;

use crate::elf::ElfImage;
use crate::elf::{exec_views, ExecSegment, ExecView};
use crate::text::push_hex;
use crate::text::{hex, stands_at};

verus! {

/// The frame-pointer prologue: `push rbp; mov rbp,rsp`.
pub const PROLOGUE: [u8; 4] = [0x55, 0x48, 0x89, 0xe5];

/// How far back from a site to look for the entry of its function.
pub const ENTRY_BACKSCAN_WINDOW: usize = 0x4000;

/// A listing ends with this many returns.
pub const LISTING_RETS: usize = 2;

// Numbers of the enumerations of the `iced_x86` crate, in the version that the
// manifest pins.

/// `FlowControl::UnconditionalBranch`.
pub const FLOW_UNCONDITIONAL_BRANCH: u32 = 1;

/// `FlowControl::IndirectBranch`.
pub const FLOW_INDIRECT_BRANCH: u32 = 2;

/// `FlowControl::ConditionalBranch`.
pub const FLOW_CONDITIONAL_BRANCH: u32 = 3;

/// `FlowControl::Return`.
pub const FLOW_RETURN: u32 = 4;

/// `FlowControl::Call`.
pub const FLOW_CALL: u32 = 5;

/// `FlowControl::IndirectCall`.
pub const FLOW_INDIRECT_CALL: u32 = 6;

/// `Mnemonic::Cmp`.
pub const MNEMONIC_COMPARE: u32 = 93;

/// `Mnemonic::Lea`.
pub const MNEMONIC_LEA: u32 = 374;

/// `Mnemonic::Test`.
pub const MNEMONIC_TEST: u32 = 751;

/// `OpKind::Register`.
pub const OP_REGISTER: u32 = 0;

/// `OpKind::Immediate8`, the first of the immediate kinds.
pub const OP_FIRST_IMMEDIATE: u32 = 6;

/// `OpKind::Immediate32to64`, the last of the immediate kinds.
pub const OP_LAST_IMMEDIATE: u32 = 14;

/// `OpKind::Memory`.
pub const OP_MEMORY: u32 = 24;

/// `Register::RAX`; the sixteen general-purpose registers follow one another.
pub const REGISTER_RAX: u32 = 53;

/// `Register::RIP`.
pub const REGISTER_RIP: u32 = 70;

/// A register: the 64-bit general-purpose registers, the instruction pointer, no
/// register at all, or any other by its number.
#[derive(Debug, Clone, Copy, PartialEq, Eq)]
pub enum Register {
    NoRegister,
    RAX,
    RCX,
    RDX,
    RBX,
    RSP,
    RBP,
    RSI,
    RDI,
    R8,
    R9,
    R10,
    R11,
    R12,
    R13,
    R14,
    R15,
    RIP,
    Other(u32),
}

impl Register {
    /// The register with the given number.
    pub open spec fn of(number: u32) -> Register {
        if number == 0 {
            Register::NoRegister
        } else if number == REGISTER_RAX {
            Register::RAX
        } else if number == REGISTER_RAX + 1 {
            Register::RCX
        } else if number == REGISTER_RAX + 2 {
            Register::RDX
        } else if number == REGISTER_RAX + 3 {
            Register::RBX
        } else if number == REGISTER_RAX + 4 {
            Register::RSP
        } else if number == REGISTER_RAX + 5 {
            Register::RBP
        } else if number == REGISTER_RAX + 6 {
            Register::RSI
        } else if number == REGISTER_RAX + 7 {
            Register::RDI
        } else if number == REGISTER_RAX + 8 {
            Register::R8
        } else if number == REGISTER_RAX + 9 {
            Register::R9
        } else if number == REGISTER_RAX + 10 {
            Register::R10
        } else if number == REGISTER_RAX + 11 {
            Register::R11
        } else if number == REGISTER_RAX + 12 {
            Register::R12
        } else if number == REGISTER_RAX + 13 {
            Register::R13
        } else if number == REGISTER_RAX + 14 {
            Register::R14
        } else if number == REGISTER_RAX + 15 {
            Register::R15
        } else if number == REGISTER_RIP {
            Register::RIP
        } else {
            Register::Other(number)
        }
    }

    /// The register with the given number.
    pub fn from_number(number: u32) -> (register: Register)
        ensures
            register == Register::of(number),
    {
        if number == REGISTER_RIP {
            return Register::RIP;
        }
        if number < REGISTER_RAX {
            return if number == 0 { Register::NoRegister } else { Register::Other(number) };
        }
        match number - REGISTER_RAX {
            0 => Register::RAX,
            1 => Register::RCX,
            2 => Register::RDX,
            3 => Register::RBX,
            4 => Register::RSP,
            5 => Register::RBP,
            6 => Register::RSI,
            7 => Register::RDI,
            8 => Register::R8,
            9 => Register::R9,
            10 => Register::R10,
            11 => Register::R11,
            12 => Register::R12,
            13 => Register::R13,
            14 => Register::R14,
            15 => Register::R15,
            _ => Register::Other(number),
        }
    }

    /// The name of the register.
    pub open spec fn name(self) -> Seq<char> {
        match self {
            Register::NoRegister => "none"@,
            Register::RAX => "rax"@,
            Register::RCX => "rcx"@,
            Register::RDX => "rdx"@,
            Register::RBX => "rbx"@,
            Register::RSP => "rsp"@,
            Register::RBP => "rbp"@,
            Register::RSI => "rsi"@,
            Register::RDI => "rdi"@,
            Register::R8 => "r8"@,
            Register::R9 => "r9"@,
            Register::R10 => "r10"@,
            Register::R11 => "r11"@,
            Register::R12 => "r12"@,
            Register::R13 => "r13"@,
            Register::R14 => "r14"@,
            Register::R15 => "r15"@,
            Register::RIP => "rip"@,
            Register::Other(_) => "reg"@,
        }
    }
}

/// The name of a general-purpose register or of the instruction pointer, and
/// `reg` for any other.
pub fn reg_name(r: Register) -> (name: &'static str)
    ensures
        name@ == r.name(),
{
    match r {
        Register::NoRegister => "none",
        Register::RAX => "rax",
        Register::RCX => "rcx",
        Register::RDX => "rdx",
        Register::RBX => "rbx",
        Register::RSP => "rsp",
        Register::RBP => "rbp",
        Register::RSI => "rsi",
        Register::RDI => "rdi",
        Register::R8 => "r8",
        Register::R9 => "r9",
        Register::R10 => "r10",
        Register::R11 => "r11",
        Register::R12 => "r12",
        Register::R13 => "r13",
        Register::R14 => "r14",
        Register::R15 => "r15",
        Register::RIP => "rip",
        Register::Other(_) => "reg",
    }
}

/// What an instruction does, as far as the shape of a function depends on it.
#[derive(Debug, Clone, Copy, PartialEq, Eq)]
pub enum InsnCat {
    /// A call; the target of a direct one.
    Call { target: Option<u64> },
    /// A jump; the target of a direct one.
    Jmp { target: Option<u64>, conditional: bool },
    /// A return.
    Ret,
    /// `cmp` or `test` of memory against an immediate: the shape of a check of a
    /// structure's field.
    CmpMemImm { base: Register, disp: u64, imm: u64 },
    /// `cmp` or `test` of two registers.
    CmpReg,
    /// `lea`; the address that a RIP-relative one loads.
    Lea { ip_rel_target: Option<u64> },
    /// Anything else.
    Other,
}

/// One decoded instruction: its address, its length and what it does.
#[derive(Debug, Clone, Copy)]
pub struct Decoded {
    pub ip: u64,
    pub len: usize,
    pub cat: InsnCat,
}

/// The facts of an instruction that its category depends on, with kinds, mnemonic
/// and registers by number.
#[derive(Debug, Clone, Copy)]
pub struct Insn {
    /// Address of the instruction.
    pub ip: u64,
    /// Length in bytes.
    pub len: usize,
    /// Kind of control flow.
    pub flow: u32,
    /// Target of a near branch, zero for anything else.
    pub branch_target: u64,
    /// Mnemonic.
    pub mnemonic: u32,
    /// Number of operands.
    pub op_count: u32,
    /// Kind of the first operand.
    pub op0_kind: u32,
    /// Kind of the second operand.
    pub op1_kind: u32,
    /// Whether the memory operand is relative to the instruction pointer.
    pub ip_relative: bool,
    /// The address of such a memory operand.
    pub ip_relative_address: u64,
    /// Base register of the memory operand.
    pub memory_base: u32,
    /// Displacement of the memory operand.
    pub memory_displacement: u64,
    /// The second operand where it is an immediate, zero otherwise.
    pub immediate1: u64,
}

/// The operand kind is an immediate.
pub open spec fn is_immediate(kind: u32) -> bool {
    OP_FIRST_IMMEDIATE <= kind <= OP_LAST_IMMEDIATE
}

/// The category of an instruction.
pub open spec fn category(insn: Insn) -> InsnCat {
    if insn.flow == FLOW_CALL {
        InsnCat::Call { target: Some(insn.branch_target) }
    } else if insn.flow == FLOW_INDIRECT_CALL {
        InsnCat::Call { target: None }
    } else if insn.flow == FLOW_UNCONDITIONAL_BRANCH {
        InsnCat::Jmp { target: Some(insn.branch_target), conditional: false }
    } else if insn.flow == FLOW_CONDITIONAL_BRANCH {
        InsnCat::Jmp { target: Some(insn.branch_target), conditional: true }
    } else if insn.flow == FLOW_INDIRECT_BRANCH {
        InsnCat::Jmp { target: None, conditional: false }
    } else if insn.flow == FLOW_RETURN {
        InsnCat::Ret
    } else {
        data_category(insn)
    }
}

/// The category of an instruction that does not direct the control flow.
pub open spec fn data_category(insn: Insn) -> InsnCat {
    let compares = insn.mnemonic == MNEMONIC_COMPARE || insn.mnemonic == MNEMONIC_TEST;
    if insn.mnemonic == MNEMONIC_LEA {
        InsnCat::Lea {
            ip_rel_target: if insn.ip_relative {
                Some(insn.ip_relative_address)
            } else {
                None
            },
        }
    } else if compares && insn.op_count >= 2 && insn.op0_kind == OP_MEMORY && is_immediate(
        insn.op1_kind,
    ) {
        InsnCat::CmpMemImm {
            base: Register::of(insn.memory_base),
            disp: insn.memory_displacement,
            imm: insn.immediate1,
        }
    } else if compares && insn.op_count >= 2 && insn.op0_kind == OP_REGISTER && insn.op1_kind
        == OP_REGISTER {
        InsnCat::CmpReg
    } else {
        InsnCat::Other
    }
}

/// Whether the operand kind is an immediate.
pub fn is_immediate_opkind(kind: u32) -> (yes: bool)
    ensures
        yes == is_immediate(kind),
{
    OP_FIRST_IMMEDIATE <= kind && kind <= OP_LAST_IMMEDIATE
}

/// Classify an instruction.
pub fn classify(insn: &Insn) -> (cat: InsnCat)
    ensures
        cat == category(*insn),
{
    if insn.flow == FLOW_CALL {
        InsnCat::Call { target: Some(insn.branch_target) }
    } else if insn.flow == FLOW_INDIRECT_CALL {
        InsnCat::Call { target: None }
    } else if insn.flow == FLOW_UNCONDITIONAL_BRANCH {
        InsnCat::Jmp { target: Some(insn.branch_target), conditional: false }
    } else if insn.flow == FLOW_CONDITIONAL_BRANCH {
        InsnCat::Jmp { target: Some(insn.branch_target), conditional: true }
    } else if insn.flow == FLOW_INDIRECT_BRANCH {
        InsnCat::Jmp { target: None, conditional: false }
    } else if insn.flow == FLOW_RETURN {
        InsnCat::Ret
    } else {
        classify_data(insn)
    }
}

/// Classify an instruction that does not direct the control flow.
pub fn classify_data(insn: &Insn) -> (cat: InsnCat)
    ensures
        cat == data_category(*insn),
{
    if insn.mnemonic == MNEMONIC_LEA {
        return if insn.ip_relative {
            InsnCat::Lea { ip_rel_target: Some(insn.ip_relative_address) }
        } else {
            InsnCat::Lea { ip_rel_target: None }
        };
    }
    if insn.mnemonic == MNEMONIC_COMPARE || insn.mnemonic == MNEMONIC_TEST {
        if insn.op_count >= 2 && insn.op0_kind == OP_MEMORY && is_immediate_opkind(insn.op1_kind) {
            return InsnCat::CmpMemImm {
                base: Register::from_number(insn.memory_base),
                disp: insn.memory_displacement,
                imm: insn.immediate1,
            };
        }
        if insn.op_count >= 2 && insn.op0_kind == OP_REGISTER && insn.op1_kind == OP_REGISTER {
            return InsnCat::CmpReg;
        }
    }
    InsnCat::Other
}

// ---------------------------------------------------------------------------
// Decoding
// ---------------------------------------------------------------------------

/// The facts of the instruction that a 64-bit decoder finds at the beginning of
/// `bytes`, which lie at the address `ip`.
pub uninterp spec fn decoded_insn(bytes: Seq<u8>, ip: u64) -> Insn;

/// `iced_x86::Decoder::with_ip` for 64-bit code without options, and its first
/// `decode`: the facts of the instruction at the beginning of the bytes. Bytes
/// that are no instruction decode to an invalid one. The instruction keeps the
/// address that was given, and takes up at least one byte, at most fifteen, and no
/// more than there are. Two things depend on where the slice lies in memory, which its
/// view does not tell, so no clause speaks of them: the constructor refuses a slice that
/// ends in the last bytes of the address space, where nothing is allocated, and a build
/// with overflow checks panics on an instruction whose bytes lie astride a multiple of
/// 4 GiB, since the decoder takes the length as a difference of 32-bit addresses.
#[verifier::external_body]
pub(crate) fn decode_insn(bytes: &[u8], ip: u64) -> (insn: Insn)
    requires
        bytes@.len() > 0,
    ensures
        insn == decoded_insn(bytes@, ip),
        insn.ip == ip,
        1 <= insn.len <= 15,
        insn.len <= bytes@.len(),
{
    let mut decoder = iced_x86::Decoder::with_ip(64, bytes, ip, iced_x86::DecoderOptions::NONE);
    let i = decoder.decode();
    Insn {
        ip: i.ip(), len: i.len(), flow: i.flow_control() as u32,
        branch_target: i.near_branch_target(), mnemonic: i.mnemonic() as u32,
        op_count: i.op_count(), op0_kind: i.op0_kind() as u32, op1_kind: i.op1_kind() as u32,
        ip_relative: i.is_ip_rel_memory_operand(), ip_relative_address: i.ip_rel_memory_address(),
        memory_base: i.memory_base() as u32, memory_displacement: i.memory_displacement64(),
        immediate1: i.try_immediate(1).unwrap_or(0),
    }
}

/// The entry of a listing for an instruction.
pub open spec fn decoded_of(insn: Insn) -> Decoded {
    Decoded { ip: insn.ip, len: insn.len, cat: category(insn) }
}

/// Number of returns in a listing.
pub open spec fn count_rets(insns: Seq<Decoded>) -> nat {
    insns.filter(|d: Decoded| d.cat is Ret).len()
}

/// A listing is full: it has `max` entries, or as many returns as end it.
pub open spec fn is_full(insns: Seq<Decoded>, max: int) -> bool {
    insns.len() >= max || count_rets(insns) >= LISTING_RETS
}

/// The listing that decoding the bytes at the address `ip` makes of the listing
/// so far.
pub open spec fn listed(bytes: Seq<u8>, ip: u64, max: int, so_far: Seq<Decoded>) -> Seq<Decoded>
    decreases max - so_far.len(),
{
    if bytes.len() == 0 || is_full(so_far, max) {
        so_far
    } else {
        let insn = decoded_insn(bytes, ip);
        listed(
            bytes.skip(insn.len as int),
            ((ip + insn.len) % 0x1_0000_0000_0000_0000) as u64,
            max,
            so_far.push(decoded_of(insn)),
        )
    }
}

/// The second instruction begins where the first ends.
pub open spec fn follows(first: Decoded, second: Decoded) -> bool {
    second.ip == (first.ip + first.len) % 0x1_0000_0000_0000_0000
}

/// Each instruction begins where the one before ends.
pub open spec fn is_contiguous(insns: Seq<Decoded>) -> bool {
    forall|i: int, j: int|
        #![trigger insns[i], insns[j]]
        0 <= i && j == i + 1 && j < insns.len() ==> follows(insns[i], insns[j])
}

/// A listing of instructions in the making.
pub struct Listing {
    insns: Vec<Decoded>,
    rets: usize,
}

impl View for Listing {
    type V = Seq<Decoded>;

    closed spec fn view(&self) -> Seq<Decoded> {
        self.insns@
    }
}

impl Listing {
    #[verifier::type_invariant]
    closed spec fn wf(self) -> bool {
        self.rets == count_rets(self.insns@)
    }

    /// An empty listing.
    pub fn new() -> (listing: Listing)
        ensures
            listing@ == Seq::<Decoded>::empty(),
    {
        let insns: Vec<Decoded> = Vec::new();
        proof {
            reveal(Seq::filter);
        }
        Listing { insns, rets: 0 }
    }

    /// Whether no further instruction belongs to the listing.
    pub fn full(&self, max: usize) -> (yes: bool)
        ensures
            yes == is_full(self@, max as int),
    {
        proof {
            use_type_invariant(self);
        }
        self.insns.len() >= max || self.rets >= LISTING_RETS
    }

    /// Add an instruction.
    pub fn push(self, insn: &Insn) -> (listing: Listing)
        ensures
            listing@ == self@.push(decoded_of(*insn)),
    {
        proof {
            use_type_invariant(&self);
        }
        let ghost before = self.insns@;
        let entry = Decoded { ip: insn.ip, len: insn.len, cat: classify(insn) };
        proof {
            lemma_count_rets_push(before, entry);
            before.lemma_filter_len(|d: Decoded| d.cat is Ret);
        }
        let mut insns = self.insns;
        let is_ret = match entry.cat {
            InsnCat::Ret => true,
            _ => false,
        };
        insns.push(entry);
        assert(insns@.len() == insns.len());
        let rets: usize = if is_ret { self.rets + 1 } else { self.rets };
        Listing { insns, rets }
    }

    /// The entries of the listing.
    pub fn into_insns(self) -> (insns: Vec<Decoded>)
        ensures
            insns@ == self@,
    {
        self.insns
    }
}

/// One more entry adds one return where it is one.
proof fn lemma_count_rets_push(insns: Seq<Decoded>, entry: Decoded)
    ensures
        count_rets(insns.push(entry)) == count_rets(insns) + if entry.cat is Ret {
            1int
        } else {
            0
        },
{
    reveal(Seq::filter);
    assert(insns.push(entry).drop_last() == insns);
}

/// Decode forward from `entry`, classifying each instruction, up to `max_insns`
/// instructions or the second return. Nothing for an entry outside the segment.
pub fn decode_function(
    seg_bytes: &[u8],
    base_vaddr: u64,
    entry: u64,
    max_insns: usize,
) -> (insns: Vec<Decoded>)
    ensures
        insns@ == if base_vaddr <= entry < base_vaddr + seg_bytes@.len() {
            listed(
                seg_bytes@.skip(entry - base_vaddr),
                entry,
                max_insns as int,
                Seq::<Decoded>::empty(),
            )
        } else {
            Seq::<Decoded>::empty()
        },
        insns@.len() <= max_insns,
        count_rets(insns@) <= LISTING_RETS,
        insns@.len() > 0 ==> insns@[0].ip == entry,
        is_contiguous(insns@),
{
    proof {
        reveal(Seq::filter);
    }
    let len: usize = seg_bytes.len();
    if entry < base_vaddr || entry - base_vaddr >= len as u64 {
        return Vec::new();
    }
    let off: usize = (entry - base_vaddr) as usize;
    let mut pos: usize = off;
    let mut ip: u64 = entry;
    let mut listing = Listing::new();
    while pos < len && !listing.full(max_insns)
        invariant
            len == seg_bytes@.len(),
            off <= pos <= len,
            listed(
                seg_bytes@.skip(off as int),
                entry,
                max_insns as int,
                Seq::<Decoded>::empty(),
            ) == listed(seg_bytes@.skip(pos as int), ip, max_insns as int, listing@),
            listing@.len() <= max_insns,
            count_rets(listing@) <= LISTING_RETS,
            listing@.len() == 0 ==> ip == entry,
            listing@.len() > 0 ==> listing@[0].ip == entry && ip == (listing@.last().ip
                + listing@.last().len) % 0x1_0000_0000_0000_0000,
            is_contiguous(listing@),
        decreases len - pos,
    {
        let rest = slice_subrange(seg_bytes, pos, len);
        assert(rest@ == seg_bytes@.skip(pos as int));
        let insn = decode_insn(rest, ip);
        assert(rest@.skip(insn.len as int) == seg_bytes@.skip(pos + insn.len));
        proof {
            lemma_count_rets_push(listing@, decoded_of(insn));
        }
        listing = listing.push(&insn);
        pos += insn.len;
        ip = ip.wrapping_add(insn.len as u64);
    }
    listing.into_insns()
}

// ---------------------------------------------------------------------------
// Entry of a function
// ---------------------------------------------------------------------------

/// The first of the segments that holds the address. A segment ends where its
/// bytes end.
pub open spec fn segment_holding(segments: Seq<ExecView>, vaddr: int) -> Option<ExecView>
    decreases segments.len(),
{
    if segments.len() == 0 {
        None
    } else if segments[0].vaddr <= vaddr < segments[0].vaddr + segments[0].bytes.len() {
        Some(segments[0])
    } else {
        segment_holding(segments.drop_first(), vaddr)
    }
}

/// The executable segment that holds `vaddr`: its bytes and where they begin.
pub fn exec_segment_for<'a>(img: &'a ElfImage, vaddr: u64) -> (found: Option<(&'a [u8], u64)>)
    ensures
        match segment_holding(exec_views(img.bytes(), img.segments()), vaddr as int) {
            Some(s) => found matches Some((bytes, base)) && bytes@ == s.bytes && base == s.vaddr,
            None => found is None,
        },
{
    let segments = img.executable_segments();
    let ghost views = segments@.map_values(|s: ExecSegment<'_>| s@);
    let mut i: usize = 0;
    assert(views.skip(0) == views);
    while i < segments.len()
        invariant
            i <= segments@.len(),
            views == segments@.map_values(|s: ExecSegment<'_>| s@),
            segment_holding(views, vaddr as int) == segment_holding(
                views.skip(i as int),
                vaddr as int,
            ),
            views == exec_views(img.bytes(), img.segments()),
        decreases segments@.len() - i,
    {
        let base: u64 = segments[i].vaddr;
        let bytes: &'a [u8] = segments[i].bytes;
        assert(views.skip(i as int)[0] == segments@[i as int]@);
        assert(views.skip(i as int).drop_first() == views.skip(i + 1));
        if vaddr >= base && vaddr - base < bytes.len() as u64 {
            return Some((bytes, base));
        }
        i += 1;
    }
    None
}

/// The prologue stands at `p`.
pub open spec fn prologue_at(bytes: Seq<u8>, p: int) -> bool {
    stands_at(bytes, PROLOGUE@, p)
}

/// The highest position from `p` down to `low` at which the prologue stands.
pub open spec fn prologue_below(bytes: Seq<u8>, p: int, low: int) -> Option<int>
    decreases p - low + 1,
{
    if p < low || p < 0 {
        None
    } else if prologue_at(bytes, p) {
        Some(p)
    } else {
        prologue_below(bytes, p - 1, low)
    }
}

/// Where the search for the entry before offset `off` begins: at the offset, or at
/// the last position that leaves room for the prologue.
pub open spec fn backscan_top(bytes: Seq<u8>, off: int) -> int {
    if off + PROLOGUE@.len() <= bytes.len() {
        off
    } else {
        bytes.len() - PROLOGUE@.len()
    }
}

/// Where it ends: `window` below the offset, unless it begins lower still.
pub open spec fn backscan_low(bytes: Seq<u8>, off: int, window: int) -> int {
    let low = if off > window { off - window } else { 0 };
    if low < backscan_top(bytes, off) {
        low
    } else {
        backscan_top(bytes, off)
    }
}

/// The position of the entry before offset `off`.
pub open spec fn entry_before(bytes: Seq<u8>, off: int, window: int) -> Option<int> {
    if 0 <= off < bytes.len() {
        prologue_below(bytes, backscan_top(bytes, off), backscan_low(bytes, off, window))
    } else {
        None
    }
}

/// Whether the prologue stands at `p`.
fn has_prologue(bytes: &[u8], p: usize) -> (yes: bool)
    requires
        p + 4 <= bytes@.len(),
    ensures
        yes == prologue_at(bytes@, p as int),
{
    let prologue: [u8; 4] = PROLOGUE;
    if bytes[p] == prologue[0] && bytes[p + 1] == prologue[1] && bytes[p + 2] == prologue[2]
        && bytes[p + 3] == prologue[3] {
        assert(bytes@.subrange(p as int, p + 4) == PROLOGUE@);
        true
    } else {
        assert(bytes@.subrange(p as int, p + 4)[0] == bytes@[p as int]);
        assert(bytes@.subrange(p as int, p + 4)[1] == bytes@[p + 1]);
        assert(bytes@.subrange(p as int, p + 4)[2] == bytes@[p + 2]);
        assert(bytes@.subrange(p as int, p + 4)[3] == bytes@[p + 3]);
        false
    }
}

/// The entry before a site, as an address, with the byte before it.
pub open spec fn found_entry(
    bytes: Seq<u8>,
    base_vaddr: u64,
    ref_vaddr: u64,
    window: int,
) -> Option<(u64, u8)> {
    match entry_before(bytes, ref_vaddr - base_vaddr, window) {
        Some(p) => Some(
            (
                (base_vaddr + p) as u64,
                if p > 0 {
                    bytes[p - 1]
                } else {
                    0
                },
            ),
        ),
        None => None,
    }
}

/// Walk back from a site to the nearest prologue, the entry of its function.
/// Returns the address of the entry and the byte before it, by which a caller can
/// tell that the entry follows padding or the end of another function; zero where
/// the entry begins the segment.
pub fn find_prologue_entry(
    seg_bytes: &[u8],
    base_vaddr: u64,
    ref_vaddr: u64,
    window: usize,
) -> (entry: Option<(u64, u8)>)
    ensures
        match entry_before(seg_bytes@, ref_vaddr - base_vaddr, window as int) {
            Some(p) => entry == Some(
                ((base_vaddr + p) as u64, if p > 0 { seg_bytes@[p - 1] } else { 0u8 }),
            ) && base_vaddr + p <= ref_vaddr,
            None => entry is None,
        },
        entry == found_entry(seg_bytes@, base_vaddr, ref_vaddr, window as int),
{
    let len: usize = seg_bytes.len();
    if ref_vaddr < base_vaddr || ref_vaddr - base_vaddr >= len as u64 {
        return None;
    }
    let off: usize = (ref_vaddr - base_vaddr) as usize;
    if len < 4 {
        return None;
    }
    let low: usize = off.saturating_sub(window);
    let mut p: usize = if off <= len - 4 { off } else { len - 4 };
    let ghost top = p as int;
    let ghost bottom = backscan_low(seg_bytes@, off as int, window as int);
    loop
        invariant
            len == seg_bytes@.len(),
            off == ref_vaddr - base_vaddr,
            off < len,
            p <= top <= off,
            top + 4 <= len,
            bottom == if low < top { low as int } else { top },
            bottom <= p,
            entry_before(seg_bytes@, off as int, window as int) == prologue_below(
                seg_bytes@,
                p as int,
                bottom,
            ),
        decreases p,
    {
        if has_prologue(seg_bytes, p) {
            let previous: u8 = if p > 0 { seg_bytes[p - 1] } else { 0 };
            return Some((base_vaddr + p as u64, previous));
        }
        if p <= low {
            assert(prologue_below(seg_bytes@, p - 1, bottom) is None);
            return None;
        }
        p -= 1;
    }
}

/// The entry found is the nearest one: a prologue stands there, and none stands
/// between it and the site. Where none is found, none stands in the window.
pub proof fn law_entry_is_nearest(bytes: Seq<u8>, off: int, window: int)
    requires
        0 <= off < bytes.len(),
        window >= 0,
    ensures
        match entry_before(bytes, off, window) {
            Some(p) => {
                &&& 0 <= p <= off
                &&& prologue_at(bytes, p)
                &&& forall|q: int| p < q <= off ==> !#[trigger] prologue_at(bytes, q)
            },
            None => forall|q: int| off - window <= q <= off ==> !#[trigger] prologue_at(bytes, q),
        },
{
    lemma_prologue_below(bytes, backscan_top(bytes, off), backscan_low(bytes, off, window));
}

proof fn lemma_prologue_below(bytes: Seq<u8>, p: int, low: int)
    ensures
        match prologue_below(bytes, p, low) {
            Some(found) => {
                &&& low <= found <= p
                &&& 0 <= found
                &&& prologue_at(bytes, found)
                &&& forall|q: int| found < q <= p ==> !#[trigger] prologue_at(bytes, q)
            },
            None => forall|q: int| low <= q <= p ==> !#[trigger] prologue_at(bytes, q),
        },
    decreases p - low + 1,
{
    if p >= low && p >= 0 && !prologue_at(bytes, p) {
        lemma_prologue_below(bytes, p - 1, low);
    }
}

// ---------------------------------------------------------------------------
// Fingerprint of a function
// ---------------------------------------------------------------------------

/// Targets of the direct calls, in order.
pub open spec fn direct_targets(insns: Seq<Decoded>) -> Seq<u64>
    decreases insns.len(),
{
    if insns.len() == 0 {
        Seq::empty()
    } else {
        let front = direct_targets(insns.drop_last());
        match insns.last().cat {
            InsnCat::Call { target: Some(t) } => front.push(t),
            _ => front,
        }
    }
}

/// Base register and displacement of the checks of memory, in order.
pub open spec fn checked_fields(insns: Seq<Decoded>) -> Seq<(Register, u64)>
    decreases insns.len(),
{
    if insns.len() == 0 {
        Seq::empty()
    } else {
        let front = checked_fields(insns.drop_last());
        match insns.last().cat {
            InsnCat::CmpMemImm { base, disp, .. } => front.push((base, disp)),
            _ => front,
        }
    }
}

/// The instruction is a call without a fixed target.
pub open spec fn is_indirect_call(d: Decoded) -> bool {
    d.cat matches InsnCat::Call { target: None }
}

/// The instruction is a conditional jump.
pub open spec fn is_conditional_jump(d: Decoded) -> bool {
    d.cat matches InsnCat::Jmp { conditional: true, .. }
}

/// The first `n` instructions.
spec fn first_n(insns: Seq<Decoded>, n: usize) -> Seq<Decoded> {
    insns.take(n as int)
}

proof fn lemma_first_n(insns: Seq<Decoded>, n: usize)
    requires
        n < insns.len(),
        n < usize::MAX,
    ensures
        first_n(insns, (n + 1) as usize).len() == n + 1,
        first_n(insns, (n + 1) as usize).drop_last() == first_n(insns, n),
        first_n(insns, (n + 1) as usize).last() == insns[n as int],
{
    assert(first_n(insns, (n + 1) as usize).drop_last() =~= first_n(insns, n));
}

/// The shape of a function, in numbers.
#[derive(Debug, Clone)]
pub struct FnFingerprint {
    /// Number of instructions.
    pub insn_count: usize,
    /// Targets of the direct calls.
    pub direct_call_targets: Vec<u64>,
    /// Number of indirect calls.
    pub indirect_calls: usize,
    /// Base register and displacement of each check of memory against an
    /// immediate.
    pub cmp_mem_fields: Vec<(Register, u64)>,
    /// Number of comparisons of two registers.
    pub cmp_reg_count: usize,
    /// Number of conditional jumps.
    pub cond_branches: usize,
    /// Number of returns.
    pub rets: usize,
}

impl Default for FnFingerprint {
    /// The fingerprint of no instructions.
    fn default() -> (f: FnFingerprint)
        ensures
            f.is_of(Seq::<Decoded>::empty()),
    {
        proof {
            reveal(Seq::filter);
        }
        FnFingerprint {
            insn_count: 0,
            direct_call_targets: Vec::new(),
            indirect_calls: 0,
            cmp_mem_fields: Vec::new(),
            cmp_reg_count: 0,
            cond_branches: 0,
            rets: 0,
        }
    }
}

impl FnFingerprint {
    /// The fingerprint is that of the instructions.
    pub open spec fn is_of(self, insns: Seq<Decoded>) -> bool {
        &&& self.insn_count == insns.len()
        &&& self.direct_call_targets@ == direct_targets(insns)
        &&& self.indirect_calls == insns.filter(|d: Decoded| is_indirect_call(d)).len()
        &&& self.cmp_mem_fields@ == checked_fields(insns)
        &&& self.cmp_reg_count == insns.filter(|d: Decoded| d.cat is CmpReg).len()
        &&& self.cond_branches == insns.filter(|d: Decoded| is_conditional_jump(d)).len()
        &&& self.rets == count_rets(insns)
    }

    /// Sum up instructions.
    pub fn from_decoded(insns: &[Decoded]) -> (f: FnFingerprint)
        ensures
            f.is_of(insns@),
    {
        let mut direct_call_targets: Vec<u64> = Vec::new();
        let mut indirect_calls: usize = 0;
        let mut cmp_mem_fields: Vec<(Register, u64)> = Vec::new();
        let mut cmp_reg_count: usize = 0;
        let mut cond_branches: usize = 0;
        let mut rets: usize = 0;
        let mut i: usize = 0;
        proof {
            reveal(Seq::filter);
            assert(first_n(insns@, 0) == Seq::<Decoded>::empty());
        }
        while i < insns.len()
            invariant
                i <= insns@.len(),
                direct_call_targets@ == direct_targets(first_n(insns@, i)),
                indirect_calls == first_n(insns@, i).filter(
                    |d: Decoded| is_indirect_call(d),
                ).len(),
                indirect_calls <= i,
                cmp_mem_fields@ == checked_fields(first_n(insns@, i)),
                cmp_reg_count == first_n(insns@, i).filter(|d: Decoded| d.cat is CmpReg).len(),
                cmp_reg_count <= i,
                cond_branches == first_n(insns@, i).filter(
                    |d: Decoded| is_conditional_jump(d),
                ).len(),
                cond_branches <= i,
                rets == count_rets(first_n(insns@, i)),
                rets <= i,
            decreases insns@.len() - i,
        {
            proof {
                reveal(Seq::filter);
                lemma_first_n(insns@, i);
            }
            match insns[i].cat {
                InsnCat::Call { target: Some(t) } => direct_call_targets.push(t),
                InsnCat::Call { target: None } => indirect_calls += 1,
                InsnCat::Jmp { conditional: true, .. } => cond_branches += 1,
                InsnCat::Ret => rets += 1,
                InsnCat::CmpMemImm { base, disp, .. } => cmp_mem_fields.push((base, disp)),
                InsnCat::CmpReg => cmp_reg_count += 1,
                _ => {},
            }
            i += 1;
        }
        assert(first_n(insns@, i) == insns@);
        FnFingerprint {
            insn_count: insns.len(),
            direct_call_targets,
            indirect_calls,
            cmp_mem_fields,
            cmp_reg_count,
            cond_branches,
            rets,
        }
    }
}

// ---------------------------------------------------------------------------
// Rendering
// ---------------------------------------------------------------------------

/// One line for a category.
pub open spec fn cat_text(cat: InsnCat) -> Seq<char> {
    match cat {
        InsnCat::Call { target: Some(t) } => "call    -> 0x"@ + hex(t as nat),
        InsnCat::Call { target: None } => "call    (indirect)"@,
        InsnCat::Jmp { target: Some(t), conditional } => if conditional {
            "jcc     -> 0x"@ + hex(t as nat)
        } else {
            "jmp     -> 0x"@ + hex(t as nat)
        },
        InsnCat::Jmp { target: None, .. } => "jmp     (indirect)"@,
        InsnCat::Ret => "ret"@,
        InsnCat::CmpMemImm { base, disp, imm } => "cmp/test ["@ + base.name() + "+0x"@ + hex(
            disp as nat,
        ) + "], 0x"@ + hex(imm as nat),
        InsnCat::CmpReg => "cmp/test reg,reg"@,
        InsnCat::Lea { ip_rel_target: Some(t) } => "lea     [rip] -> 0x"@ + hex(t as nat),
        InsnCat::Lea { ip_rel_target: None } => "lea"@,
        InsnCat::Other => ".."@,
    }
}

/// Render a category in one line.
pub fn cat_str(cat: &InsnCat) -> (text: String)
    ensures
        text@ == cat_text(*cat),
{
    let mut text = String::new();
    match cat {
        InsnCat::Call { target: Some(t) } => {
            text.append("call    -> 0x");
            push_hex(&mut text, *t);
        },
        InsnCat::Call { target: None } => text.append("call    (indirect)"),
        InsnCat::Jmp { target: Some(t), conditional } => {
            text.append(if *conditional { "jcc     -> 0x" } else { "jmp     -> 0x" });
            push_hex(&mut text, *t);
        },
        InsnCat::Jmp { target: None, .. } => text.append("jmp     (indirect)"),
        InsnCat::Ret => text.append("ret"),
        InsnCat::CmpMemImm { base, disp, imm } => {
            text.append("cmp/test [");
            text.append(reg_name(*base));
            text.append("+0x");
            push_hex(&mut text, *disp);
            text.append("], 0x");
            push_hex(&mut text, *imm);
        },
        InsnCat::CmpReg => text.append("cmp/test reg,reg"),
        InsnCat::Lea { ip_rel_target: Some(t) } => {
            text.append("lea     [rip] -> 0x");
            push_hex(&mut text, *t);
        },
        InsnCat::Lea { ip_rel_target: None } => text.append("lea"),
        InsnCat::Other => text.append(".."),
    }
    assert(text@ == cat_text(*cat));
    text
}

// ---------------------------------------------------------------------------
// Laws
// ---------------------------------------------------------------------------

/// The entry found is the nearest `push rbp; mov rbp,rsp`, by its four bytes and by
/// nothing around them: they stand there, and nowhere between there and the site. They
/// stand in the window before the site, or end the segment. Where none is found, they
/// stand nowhere in the window.
pub proof fn law_entry_has_the_four_bytes(bytes: Seq<u8>, off: int, window: int, q: int)
    requires
        0 <= off < bytes.len(),
        window >= 0,
    ensures
        match entry_before(bytes, off, window) {
            Some(p) => {
                &&& 0 <= p <= off
                &&& p + 4 <= bytes.len()
                &&& p >= off - window || p + 4 == bytes.len()
                &&& bytes[p] == 0x55 && bytes[p + 1] == 0x48 && bytes[p + 2] == 0x89 && bytes[p + 3]
                    == 0xe5
                &&& p < q <= off && q + 4 <= bytes.len() ==> bytes.subrange(q, q + 4) != seq![
                    0x55u8,
                    0x48u8,
                    0x89u8,
                    0xe5u8,
                ]
            },
            None => 0 <= q && off - window <= q <= off && q + 4 <= bytes.len() ==> bytes.subrange(
                q,
                q + 4,
            ) != seq![0x55u8, 0x48u8, 0x89u8, 0xe5u8],
        },
{
    law_entry_is_nearest(bytes, off, window);
    lemma_prologue_below(bytes, backscan_top(bytes, off), backscan_low(bytes, off, window));
    assert(PROLOGUE@ =~= seq![0x55u8, 0x48u8, 0x89u8, 0xe5u8]);
    match entry_before(bytes, off, window) {
        Some(p) => {
            assert(prologue_at(bytes, p));
            let part = bytes.subrange(p, p + 4);
            assert(part == PROLOGUE@);
            assert(part[0] == 0x55 && part[1] == 0x48 && part[2] == 0x89 && part[3] == 0xe5);
            if p < q <= off {
                assert(!prologue_at(bytes, q));
            }
        },
        None => {
            if off - window <= q <= off {
                assert(!prologue_at(bytes, q));
            }
        },
    }
}

/// Wherever the four bytes stand in the window before a site, the site has an entry, at
/// or behind them.
pub proof fn law_prologue_in_the_window_is_found(bytes: Seq<u8>, off: int, window: int, q: int)
    requires
        0 <= off < bytes.len(),
        0 <= q,
        off - window <= q <= off,
        q + 4 <= bytes.len(),
        bytes.subrange(q, q + 4) == seq![0x55u8, 0x48u8, 0x89u8, 0xe5u8],
    ensures
        entry_before(bytes, off, window) matches Some(p) && q <= p <= off,
{
    law_entry_has_the_four_bytes(bytes, off, window, q);
}

/// The segment of an address is the first that begins at or before it and ends behind
/// it.
pub proof fn law_segment_of_an_address(segments: Seq<ExecView>, vaddr: int, i: int)
    requires
        0 <= i <= segments.len(),
        forall|j: int|
            0 <= j < i ==> vaddr < (#[trigger] segments[j]).vaddr || vaddr >= segments[j].vaddr
                + segments[j].bytes.len(),
    ensures
        i == segments.len() ==> segment_holding(segments, vaddr) is None,
        i < segments.len() && segments[i].vaddr <= vaddr < segments[i].vaddr
            + segments[i].bytes.len() ==> segment_holding(segments, vaddr) == Some(segments[i]),
    decreases segments.len(),
{
    if i > 0 {
        let rest = segments.drop_first();
        assert(vaddr < segments[0].vaddr || vaddr >= segments[0].vaddr + segments[0].bytes.len());
        assert forall|j: int| 0 <= j < i - 1 implies vaddr < (#[trigger] rest[j]).vaddr || vaddr
            >= rest[j].vaddr + rest[j].bytes.len() by {
            assert(rest[j] == segments[j + 1]);
        }
        law_segment_of_an_address(rest, vaddr, i - 1);
    }
}

/// What each kind of control flow means: an unconditional, an indirect and a
/// conditional jump are kinds one to three, a return is four, a direct and an indirect
/// call are five and six.
pub proof fn law_flow_decides_first(insn: Insn)
    ensures
        insn.flow == 1 ==> category(insn) == (InsnCat::Jmp {
            target: Some(insn.branch_target),
            conditional: false,
        }),
        insn.flow == 2 ==> category(insn) == (InsnCat::Jmp { target: None, conditional: false }),
        insn.flow == 3 ==> category(insn) == (InsnCat::Jmp {
            target: Some(insn.branch_target),
            conditional: true,
        }),
        insn.flow == 4 ==> category(insn) == InsnCat::Ret,
        insn.flow == 5 ==> category(insn) == (InsnCat::Call { target: Some(insn.branch_target) }),
        insn.flow == 6 ==> category(insn) == (InsnCat::Call { target: None }),
        insn.flow < 1 || insn.flow > 6 ==> category(insn) == data_category(insn),
{
}

/// What the other instructions mean: mnemonic 374 is `lea`, 93 is `cmp` and 751 is
/// `test`. A comparison of memory, operand kind 24, with an immediate, kinds 6 to 14, is
/// a check of a field, one of two registers, kind 0, is a comparison, and everything
/// else is something else.
pub proof fn law_data_categories(insn: Insn)
    ensures
        ({
            let compares = (insn.mnemonic == 93 || insn.mnemonic == 751) && insn.op_count >= 2;
            let field = compares && insn.op0_kind == 24 && 6 <= insn.op1_kind <= 14;
            let registers = compares && insn.op0_kind == 0 && insn.op1_kind == 0;
            &&& insn.mnemonic == 374 && insn.ip_relative ==> data_category(insn) == (InsnCat::Lea {
                ip_rel_target: Some(insn.ip_relative_address),
            })
            &&& insn.mnemonic == 374 && !insn.ip_relative ==> data_category(insn) == (InsnCat::Lea {
                ip_rel_target: None,
            })
            &&& field ==> data_category(insn) == (InsnCat::CmpMemImm {
                base: Register::of(insn.memory_base),
                disp: insn.memory_displacement,
                imm: insn.immediate1,
            })
            &&& registers ==> data_category(insn) == InsnCat::CmpReg
            &&& insn.mnemonic != 374 && !field && !registers ==> data_category(insn)
                == InsnCat::Other
        }),
{
}

/// The registers by number: none is zero, the sixteen general-purpose registers are 53
/// to 68 in the order of their encoding, the instruction pointer is 70, and every other
/// number stands for itself.
pub proof fn law_register_numbers(n: u32)
    ensures
        n == 0 <==> Register::of(n) == Register::NoRegister,
        n == 53 <==> Register::of(n) == Register::RAX,
        n == 54 <==> Register::of(n) == Register::RCX,
        n == 55 <==> Register::of(n) == Register::RDX,
        n == 56 <==> Register::of(n) == Register::RBX,
        n == 57 <==> Register::of(n) == Register::RSP,
        n == 58 <==> Register::of(n) == Register::RBP,
        n == 59 <==> Register::of(n) == Register::RSI,
        n == 60 <==> Register::of(n) == Register::RDI,
        n == 61 <==> Register::of(n) == Register::R8,
        n == 62 <==> Register::of(n) == Register::R9,
        n == 63 <==> Register::of(n) == Register::R10,
        n == 64 <==> Register::of(n) == Register::R11,
        n == 65 <==> Register::of(n) == Register::R12,
        n == 66 <==> Register::of(n) == Register::R13,
        n == 67 <==> Register::of(n) == Register::R14,
        n == 68 <==> Register::of(n) == Register::R15,
        n == 70 <==> Register::of(n) == Register::RIP,
        n != 0 && !(53 <= n <= 68) && n != 70 ==> Register::of(n) == Register::Other(n),
{
}

/// The names of the registers.
pub proof fn law_register_names(r: Register)
    ensures
        r.name() == match r {
            Register::NoRegister => "none"@,
            Register::RAX => "rax"@,
            Register::RCX => "rcx"@,
            Register::RDX => "rdx"@,
            Register::RBX => "rbx"@,
            Register::RSP => "rsp"@,
            Register::RBP => "rbp"@,
            Register::RSI => "rsi"@,
            Register::RDI => "rdi"@,
            Register::R8 => "r8"@,
            Register::R9 => "r9"@,
            Register::R10 => "r10"@,
            Register::R11 => "r11"@,
            Register::R12 => "r12"@,
            Register::R13 => "r13"@,
            Register::R14 => "r14"@,
            Register::R15 => "r15"@,
            Register::RIP => "rip"@,
            Register::Other(_) => "reg"@,
        },
{
}

/// A listing grows instruction by instruction, each decoded where the one before ends,
/// until the bytes are used up, it has as many entries as asked for, or it has two
/// returns.
pub proof fn law_listing_step_by_step(bytes: Seq<u8>, ip: u64, max: int, so_far: Seq<Decoded>)
    ensures
        ({
            let done = bytes.len() == 0 || so_far.len() >= max || so_far.filter(
                |d: Decoded| d.cat == InsnCat::Ret,
            ).len() >= 2;
            let insn = decoded_insn(bytes, ip);
            listed(bytes, ip, max, so_far) == if done {
                so_far
            } else {
                listed(
                    bytes.skip(insn.len as int),
                    ((ip + insn.len) % 18446744073709551616) as u64,
                    max,
                    so_far.push(Decoded { ip: insn.ip, len: insn.len, cat: category(insn) }),
                )
            }
        }),
{
    lemma_same_filter(so_far);
}

proof fn lemma_same_filter(insns: Seq<Decoded>)
    ensures
        insns.filter(|d: Decoded| d.cat == InsnCat::Ret).len() == count_rets(insns),
    decreases insns.len(),
{
    reveal(Seq::filter);
    if insns.len() > 0 {
        lemma_same_filter(insns.drop_last());
    }
}

/// One more instruction changes a fingerprint by what it is: a direct call adds its
/// target, an indirect one counts as such, a check of a field adds register and
/// displacement, comparisons, conditional jumps and returns are counted, and nothing
/// else changes but the number of instructions.
pub proof fn law_fingerprint_one_by_one(
    insns: Seq<Decoded>,
    d: Decoded,
    f: FnFingerprint,
    g: FnFingerprint,
)
    requires
        f.is_of(insns),
        g.is_of(insns.push(d)),
    ensures
        g.insn_count == f.insn_count + 1,
        g.direct_call_targets@ == match d.cat {
            InsnCat::Call { target: Some(t) } => f.direct_call_targets@.push(t),
            _ => f.direct_call_targets@,
        },
        g.indirect_calls == f.indirect_calls + if d.cat == (InsnCat::Call { target: None }) {
            1int
        } else {
            0
        },
        g.cmp_mem_fields@ == match d.cat {
            InsnCat::CmpMemImm { base, disp, imm } => f.cmp_mem_fields@.push((base, disp)),
            _ => f.cmp_mem_fields@,
        },
        g.cmp_reg_count == f.cmp_reg_count + if d.cat == InsnCat::CmpReg {
            1int
        } else {
            0
        },
        g.cond_branches == f.cond_branches + match d.cat {
            InsnCat::Jmp { target, conditional } => if conditional {
                1int
            } else {
                0
            },
            _ => 0,
        },
        g.rets == f.rets + if d.cat == InsnCat::Ret {
            1int
        } else {
            0
        },
        insns.len() == 0 ==> {
            &&& f.insn_count == 0 && f.indirect_calls == 0 && f.cmp_reg_count == 0
            &&& f.cond_branches == 0 && f.rets == 0
            &&& f.direct_call_targets@.len() == 0 && f.cmp_mem_fields@.len() == 0
        },
{
    reveal(Seq::filter);
    assert(insns.push(d).drop_last() =~= insns);
}

/// The lines for the categories.
pub proof fn law_category_lines(cat: InsnCat)
    ensures
        cat_text(cat) == match cat {
            InsnCat::Call { target: Some(t) } => "call    -> 0x"@ + hex(t as nat),
            InsnCat::Call { target: None } => "call    (indirect)"@,
            InsnCat::Jmp { target: Some(t), conditional: true } => "jcc     -> 0x"@ + hex(t as nat),
            InsnCat::Jmp { target: Some(t), conditional: false } => "jmp     -> 0x"@ + hex(
                t as nat,
            ),
            InsnCat::Jmp { target: None, conditional: _ } => "jmp     (indirect)"@,
            InsnCat::Ret => "ret"@,
            InsnCat::CmpMemImm { base, disp, imm } => "cmp/test ["@ + base.name() + "+0x"@ + hex(
                disp as nat,
            ) + "], 0x"@ + hex(imm as nat),
            InsnCat::CmpReg => "cmp/test reg,reg"@,
            InsnCat::Lea { ip_rel_target: Some(t) } => "lea     [rip] -> 0x"@ + hex(t as nat),
            InsnCat::Lea { ip_rel_target: None } => "lea"@,
            InsnCat::Other => ".."@,
        },
{
}

/// What is told of an entry: the address at which the four bytes stand, and the byte
/// before them, or zero at the beginning of the segment. A site outside the segment has
/// no entry.
pub proof fn law_entry_is_an_address(bytes: Seq<u8>, base: u64, site: u64, window: int)
    requires
        window >= 0,
        base + bytes.len() <= 18446744073709551616,
    ensures
        site < base || site >= base + bytes.len() ==> found_entry(bytes, base, site, window)
            is None,
        found_entry(bytes, base, site, window) matches Some((at, before)) ==> {
            &&& base <= at <= site
            &&& at + 4 <= base + bytes.len()
            &&& bytes[at - base] == 0x55 && bytes[at - base + 1] == 0x48 && bytes[at - base + 2]
                == 0x89 && bytes[at - base + 3] == 0xe5
            &&& at > base ==> before == bytes[at - base - 1]
            &&& at == base ==> before == 0
        },
{
    let off = site - base;
    if 0 <= off < bytes.len() {
        law_entry_has_the_four_bytes(bytes, off, window, 0);
    }
}

} // verus!
