//! Instructions, their categories, and function entries.

use iced_x86::Register as Iced;
use iced_x86::{FlowControl, Mnemonic, OpKind};
use promptrail::disasm::{
    cat_str, classify, decode_function, exec_segment_for, find_prologue_entry,
    is_immediate_opkind, reg_name, FnFingerprint, Insn, InsnCat, Listing, Register,
    ENTRY_BACKSCAN_WINDOW, FLOW_CALL, FLOW_CONDITIONAL_BRANCH, FLOW_INDIRECT_BRANCH,
    FLOW_INDIRECT_CALL, FLOW_RETURN, FLOW_UNCONDITIONAL_BRANCH, MNEMONIC_COMPARE, MNEMONIC_LEA,
    MNEMONIC_TEST, OP_FIRST_IMMEDIATE, OP_LAST_IMMEDIATE, OP_MEMORY, OP_REGISTER, REGISTER_RAX,
    REGISTER_RIP,
};
use promptrail::elf::ElfImage;

fn decode_one(bytes: &[u8], ip: u64) -> InsnCat {
    let insns = decode_function(bytes, ip, ip, 1);
    assert_eq!(insns.len(), 1);
    assert_eq!(insns[0].ip, ip);
    insns[0].cat
}

#[test]
fn classify_ret() {
    assert_eq!(decode_one(&[0xc3], 0x1000), InsnCat::Ret);
}

#[test]
fn classify_call_rel32() {
    let cat = decode_one(&[0xe8, 0x00, 0x00, 0x00, 0x00], 0x1000);
    assert_eq!(cat, InsnCat::Call { target: Some(0x1005) });
}

#[test]
fn classify_cmp_mem_imm() {
    // cmp qword ptr [rdi+0x98], 0
    let cat = decode_one(&[0x48, 0x83, 0xbf, 0x98, 0x00, 0x00, 0x00, 0x00], 0x1000);
    assert_eq!(cat, InsnCat::CmpMemImm { base: Register::RDI, disp: 0x98, imm: 0 });
}

#[test]
fn classify_test_reg() {
    // test rax, rax
    assert_eq!(decode_one(&[0x48, 0x85, 0xc0], 0x1000), InsnCat::CmpReg);
}

#[test]
fn classify_lea_iprel() {
    // lea rsi, [rip+0x1234]
    let cat = decode_one(&[0x48, 0x8d, 0x35, 0x34, 0x12, 0x00, 0x00], 0x1000);
    assert_eq!(cat, InsnCat::Lea { ip_rel_target: Some(0x223b) });
}

#[test]
fn classify_the_other_shapes() {
    // jmp +2, je +2, jmp rax, call rax
    assert_eq!(
        decode_one(&[0xeb, 0x02], 0x1000),
        InsnCat::Jmp { target: Some(0x1004), conditional: false }
    );
    assert_eq!(
        decode_one(&[0x74, 0xfe], 0x1000),
        InsnCat::Jmp { target: Some(0x1000), conditional: true }
    );
    assert_eq!(
        decode_one(&[0xff, 0xe0], 0x1000),
        InsnCat::Jmp { target: None, conditional: false }
    );
    assert_eq!(decode_one(&[0xff, 0xd0], 0x1000), InsnCat::Call { target: None });
    // lea rax, [rdi+8]
    assert_eq!(
        decode_one(&[0x48, 0x8d, 0x47, 0x08], 0x1000),
        InsnCat::Lea { ip_rel_target: None }
    );
    // cmp dword ptr [rax], -1: the immediate is sign-extended.
    assert_eq!(
        decode_one(&[0x83, 0x38, 0xff], 0x1000),
        InsnCat::CmpMemImm { base: Register::RAX, disp: 0, imm: u64::MAX }
    );
    // test byte ptr [r14+0x10], 1
    assert_eq!(
        decode_one(&[0x41, 0xf6, 0x46, 0x10, 0x01], 0x1000),
        InsnCat::CmpMemImm { base: Register::R14, disp: 0x10, imm: 1 }
    );
    // cmp eax, 5 and mov rax, rbx and a byte that is no instruction
    assert_eq!(decode_one(&[0x83, 0xf8, 0x05], 0x1000), InsnCat::Other);
    assert_eq!(decode_one(&[0x48, 0x89, 0xd8], 0x1000), InsnCat::Other);
    assert_eq!(decode_one(&[0x06], 0x1000), InsnCat::Other);
}

#[test]
fn numbers_of_the_decoder() {
    assert_eq!(FlowControl::UnconditionalBranch as u32, FLOW_UNCONDITIONAL_BRANCH);
    assert_eq!(FlowControl::IndirectBranch as u32, FLOW_INDIRECT_BRANCH);
    assert_eq!(FlowControl::ConditionalBranch as u32, FLOW_CONDITIONAL_BRANCH);
    assert_eq!(FlowControl::Return as u32, FLOW_RETURN);
    assert_eq!(FlowControl::Call as u32, FLOW_CALL);
    assert_eq!(FlowControl::IndirectCall as u32, FLOW_INDIRECT_CALL);
    assert_eq!(Mnemonic::Cmp as u32, MNEMONIC_COMPARE);
    assert_eq!(Mnemonic::Lea as u32, MNEMONIC_LEA);
    assert_eq!(Mnemonic::Test as u32, MNEMONIC_TEST);
    assert_eq!(OpKind::Register as u32, OP_REGISTER);
    assert_eq!(OpKind::Memory as u32, OP_MEMORY);
    let immediates = [
        OpKind::Immediate8,
        OpKind::Immediate8_2nd,
        OpKind::Immediate16,
        OpKind::Immediate32,
        OpKind::Immediate64,
        OpKind::Immediate8to16,
        OpKind::Immediate8to32,
        OpKind::Immediate8to64,
        OpKind::Immediate32to64,
    ];
    assert_eq!(immediates[0] as u32, OP_FIRST_IMMEDIATE);
    assert_eq!(immediates[8] as u32, OP_LAST_IMMEDIATE);
    for kind in immediates {
        assert!(is_immediate_opkind(kind as u32));
    }
    assert!(!is_immediate_opkind(OP_MEMORY));
    assert!(!is_immediate_opkind(OP_REGISTER));
}

#[test]
fn registers_by_number() {
    assert_eq!(Iced::RAX as u32, REGISTER_RAX);
    assert_eq!(Iced::RIP as u32, REGISTER_RIP);
    let pairs = [
        (Iced::None, Register::NoRegister),
        (Iced::RAX, Register::RAX),
        (Iced::RCX, Register::RCX),
        (Iced::RDX, Register::RDX),
        (Iced::RBX, Register::RBX),
        (Iced::RSP, Register::RSP),
        (Iced::RBP, Register::RBP),
        (Iced::RSI, Register::RSI),
        (Iced::RDI, Register::RDI),
        (Iced::R8, Register::R8),
        (Iced::R9, Register::R9),
        (Iced::R10, Register::R10),
        (Iced::R11, Register::R11),
        (Iced::R12, Register::R12),
        (Iced::R13, Register::R13),
        (Iced::R14, Register::R14),
        (Iced::R15, Register::R15),
        (Iced::RIP, Register::RIP),
    ];
    for (iced, own) in pairs {
        assert_eq!(Register::from_number(iced as u32), own);
    }
    assert_eq!(Register::from_number(Iced::EAX as u32), Register::Other(Iced::EAX as u32));
    assert_eq!(reg_name(Register::RDI), "rdi");
    assert_eq!(reg_name(Register::R15), "r15");
    assert_eq!(reg_name(Register::Other(37)), "reg");
}

#[test]
fn a_listing_ends_after_two_returns() {
    // nop; ret; nop; ret; nop
    let code = [0x90, 0xc3, 0x90, 0xc3, 0x90];
    let insns = decode_function(&code, 0x1000, 0x1000, 100);
    let ips: Vec<u64> = insns.iter().map(|d| d.ip).collect();
    assert_eq!(ips, vec![0x1000, 0x1001, 0x1002, 0x1003]);
    assert!(insns.iter().all(|d| d.len == 1));
    assert_eq!(decode_function(&code, 0x1000, 0x1000, 3).len(), 3);
    assert_eq!(decode_function(&code, 0x1000, 0x1000, 0).len(), 0);
    // From the middle, before the segment, and behind it.
    let from_third = decode_function(&code, 0x1000, 0x1002, 100);
    assert_eq!(from_third.len(), 3);
    assert_eq!(from_third[0].ip, 0x1002);
    assert_eq!(decode_function(&code, 0x1000, 0xfff, 100).len(), 0);
    assert_eq!(decode_function(&code, 0x1000, 0x1005, 100).len(), 0);
    assert_eq!(decode_function(&[], 0x1000, 0x1000, 100).len(), 0);
}

#[test]
fn listings_hold_their_instructions() {
    let ret = Insn {
        ip: 9,
        len: 1,
        flow: FLOW_RETURN,
        branch_target: 0,
        mnemonic: 0,
        op_count: 0,
        op0_kind: 0,
        op1_kind: 0,
        ip_relative: false,
        ip_relative_address: 0,
        memory_base: 0,
        memory_displacement: 0,
        immediate1: 0,
    };
    assert_eq!(classify(&ret), InsnCat::Ret);
    let listing = Listing::new();
    assert!(!listing.full(10));
    assert!(listing.full(0));
    let listing = listing.push(&ret);
    assert!(!listing.full(10));
    let listing = listing.push(&ret);
    assert!(listing.full(10));
    let insns = listing.into_insns();
    assert_eq!(insns.len(), 2);
    assert_eq!((insns[0].ip, insns[0].len, insns[0].cat), (9, 1, InsnCat::Ret));
}

#[test]
fn listings_agree_with_one_decoder_over_the_whole_code() {
    let code: Vec<u8> = (0..4000u32).map(|i| (i.wrapping_mul(2654435761) >> 11) as u8).collect();
    for from in [0usize, 1, 17, 500, 3990] {
        let ip = 0x40_0000 + from as u64;
        let insns = decode_function(&code, 0x40_0000, ip, 200);
        let mut decoder =
            iced_x86::Decoder::with_ip(64, &code[from..], ip, iced_x86::DecoderOptions::NONE);
        let mut i = 0;
        while i < insns.len() {
            assert!(decoder.can_decode());
            let whole = decoder.decode();
            assert_eq!((insns[i].ip, insns[i].len), (whole.ip(), whole.len()));
            i += 1;
        }
        assert!(i > 0);
    }
}

#[test]
fn prologue_entry_backwalk() {
    let seg = [
        0xcc, 0xcc, // padding
        0x55, 0x48, 0x89, 0xe5, // prologue @ off 2
        0x48, 0x83, 0xec, 0x20, // sub rsp,0x20 (body)
    ];
    let base = 0x2000u64;
    let ref_vaddr = 0x2008; // inside the body
    let (entry, prev) = find_prologue_entry(&seg, base, ref_vaddr, 4096).expect("entry");
    assert_eq!(entry, 0x2002, "entry at the prologue");
    assert_eq!(prev, 0xcc, "preceding byte is int3 padding");
}

#[test]
fn the_nearest_prologue_in_the_window_is_the_entry() {
    let mut seg = vec![0x90u8; 64];
    seg[0..4].copy_from_slice(&[0x55, 0x48, 0x89, 0xe5]);
    seg[20..24].copy_from_slice(&[0x55, 0x48, 0x89, 0xe5]);
    assert_eq!(find_prologue_entry(&seg, 0x1000, 0x1028, 64), Some((0x1014, 0x90)));
    assert_eq!(find_prologue_entry(&seg, 0x1000, 0x1028, 20), Some((0x1014, 0x90)));
    assert_eq!(find_prologue_entry(&seg, 0x1000, 0x1028, 19), None);
    assert_eq!(find_prologue_entry(&seg, 0x1000, 0x1013, 64), Some((0x1000, 0)));
    assert_eq!(find_prologue_entry(&seg, 0x1000, 0x1014, 0), Some((0x1014, 0x90)));
    assert_eq!(find_prologue_entry(&seg, 0x1000, 0x1040, 64), None);
    assert_eq!(find_prologue_entry(&seg, 0x1000, 0xfff, 64), None);
    assert_eq!(find_prologue_entry(&seg[20..23], 0x1000, 0x1000, 64), None);
    assert_eq!(find_prologue_entry(&[], 0x1000, 0x1000, 64), None);
    // A site in the last bytes: the search begins where a prologue still fits.
    assert_eq!(find_prologue_entry(&seg[..24], 0x1000, 0x1017, 64), Some((0x1014, 0x90)));
    assert_eq!(ENTRY_BACKSCAN_WINDOW, 0x4000);
}

#[test]
fn fingerprint_of_a_function() {
    let code = [
        0x55, 0x48, 0x89, 0xe5, // push rbp; mov rbp, rsp
        0xe8, 0x00, 0x00, 0x00, 0x00, // call next
        0xff, 0xd0, // call rax
        0x48, 0x83, 0xbf, 0x98, 0x00, 0x00, 0x00, 0x00, // cmp qword ptr [rdi+0x98], 0
        0x48, 0x85, 0xc0, // test rax, rax
        0x74, 0x00, // je next
        0xc3, // ret
    ];
    let insns = decode_function(&code, 0x1000, 0x1000, 80);
    let f = FnFingerprint::from_decoded(&insns);
    assert_eq!(f.insn_count, 8);
    assert_eq!(f.direct_call_targets, vec![0x1009]);
    assert_eq!(f.indirect_calls, 1);
    assert_eq!(f.cmp_mem_fields, vec![(Register::RDI, 0x98)]);
    assert_eq!(f.cmp_reg_count, 1);
    assert_eq!(f.cond_branches, 1);
    assert_eq!(f.rets, 1);
}

#[test]
fn fingerprint_of_nothing() {
    for f in [FnFingerprint::default(), FnFingerprint::from_decoded(&[])] {
        assert_eq!((f.insn_count, f.indirect_calls, f.cmp_reg_count), (0, 0, 0));
        assert_eq!((f.cond_branches, f.rets), (0, 0));
        assert!(f.direct_call_targets.is_empty() && f.cmp_mem_fields.is_empty());
    }
}

#[test]
fn lines_for_the_categories() {
    let lines = [
        (InsnCat::Call { target: Some(0x1005) }, "call    -> 0x1005"),
        (InsnCat::Call { target: None }, "call    (indirect)"),
        (InsnCat::Jmp { target: Some(0xab), conditional: true }, "jcc     -> 0xab"),
        (InsnCat::Jmp { target: Some(0), conditional: false }, "jmp     -> 0x0"),
        (InsnCat::Jmp { target: None, conditional: true }, "jmp     (indirect)"),
        (InsnCat::Ret, "ret"),
        (
            InsnCat::CmpMemImm { base: Register::RDI, disp: 0x98, imm: 0 },
            "cmp/test [rdi+0x98], 0x0",
        ),
        (InsnCat::CmpReg, "cmp/test reg,reg"),
        (InsnCat::Lea { ip_rel_target: Some(0x223b) }, "lea     [rip] -> 0x223b"),
        (InsnCat::Lea { ip_rel_target: None }, "lea"),
        (InsnCat::Other, ".."),
    ];
    for (cat, line) in lines {
        assert_eq!(cat_str(&cat), line);
    }
}

#[test]
fn the_segment_of_an_address() {
    let mut d = vec![0u8; 0x2000];
    d[0..6].copy_from_slice(&[0x7f, b'E', b'L', b'F', 2, 1]);
    d[18] = 0x3e;
    d[32] = 64;
    d[54] = 56;
    d[56] = 1;
    d[64] = 1;
    d[68] = 5;
    d[72..80].copy_from_slice(&0x1000u64.to_le_bytes());
    d[80..88].copy_from_slice(&0x7000u64.to_le_bytes());
    d[96..104].copy_from_slice(&0x10u64.to_le_bytes());
    d[0x1003] = 0xc3;
    let img = match ElfImage::parse("t", Ok(d)) {
        Ok(img) => img,
        Err(e) => panic!("{}", e.message()),
    };
    let (bytes, base) = exec_segment_for(&img, 0x700f).expect("in the segment");
    assert_eq!((bytes.len(), bytes[3], base), (0x10, 0xc3, 0x7000));
    assert!(exec_segment_for(&img, 0x7010).is_none());
    assert!(exec_segment_for(&img, 0x6fff).is_none());
}
