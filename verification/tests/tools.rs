use ebpf_vm::isa::{disasm, insns_from_bytes, mem_size, off_str, RawInsn};
use ebpf_vm::listing::{build_assemble_result, insns_from_hex, result_from_insns};
use ebpf_vm::verify::verify;
use ebpf_vm::assembler::{assemble, AsmError};

fn insn(op: u8, dst: u8, src: u8, off: i16, imm: i32) -> RawInsn {
    RawInsn { op, dst, src, off, imm }
}

fn diags(insns: &[RawInsn]) -> Vec<(usize, &'static str, String)> {
    verify(insns).into_iter().map(|d| (d.pc, d.level, d.msg)).collect()
}

fn prog(src: &str) -> Vec<RawInsn> {
    let (insns, errors) = assemble(src);
    assert!(errors.is_empty(), "{errors:?}");
    insns
}

#[test]
fn encoding_roundtrip() {
    let i = insn(0xb7, 1, 2, -3, -5);
    let b = i.to_bytes();
    assert_eq!(b, [0xb7, 0x21, 0xfd, 0xff, 0xfb, 0xff, 0xff, 0xff]);
    assert_eq!(RawInsn::from_slot(&b), i);
    // A register number above 15 does not survive the four-bit field.
    let j = insn(0xb7, 16, 0, 0, 0);
    assert_eq!(RawInsn::from_slot(&j.to_bytes()).dst, 0);
    let raw = [0x61, 0xa3, 0x10, 0x80, 1, 2, 3, 4];
    assert_eq!(RawInsn::from_slot(&raw).to_bytes(), raw);
    assert_eq!(RawInsn::from_slot(&raw).off, -32752);
    assert_eq!(RawInsn::from_slot(&raw).imm, 0x04030201);
}

#[test]
fn class_and_width() {
    assert_eq!(insn(0x18, 0, 0, 0, 0).class(), 0);
    assert!(insn(0x18, 0, 0, 0, 0).is_wide());
    assert_eq!(insn(0x95, 0, 0, 0, 0).class(), 5);
    assert!(!insn(0x95, 0, 0, 0, 0).is_wide());
    assert_eq!(mem_size(0x61), 4);
    assert_eq!(mem_size(0x69), 2);
    assert_eq!(mem_size(0x71), 1);
    assert_eq!(mem_size(0x79), 8);
    assert_eq!(off_str(4), "+4");
    assert_eq!(off_str(0), "+0");
    assert_eq!(off_str(-8), "-8");
}

#[test]
fn bytes_errors() {
    assert_eq!(insns_from_bytes(&[]).unwrap_err(), "no bytes provided");
    assert_eq!(insns_from_bytes(&[0xb7, 0, 0]).unwrap_err(), "byte length 3 is not a multiple of 8");
    let v = insns_from_bytes(&[0x95, 0, 0, 0, 0, 0, 0, 0, 0xb7, 0x01, 0, 0, 9, 0, 0, 0]).unwrap();
    assert_eq!(v, vec![insn(0x95, 0, 0, 0, 0), insn(0xb7, 1, 0, 0, 9)]);
}

#[test]
fn disassembly_text() {
    let p = prog("add32 r1, r2\nneg r3\nmov r0, -5\nja -1\njeq r1, 5, +2\njne r1, r2, -1\ncall 1\nlddw r2, 0x1122334455667788\nldxh r1, [r2+4]\nstw [r10-8], 7\nstxdw [r10-8], r1\nexit");
    let texts: Vec<String> = (0..p.len()).map(|pc| disasm(&p, pc)).collect();
    assert_eq!(
        texts,
        vec![
            "add32 r1, r2",
            "neg r3",
            "mov r0, -5",
            "ja -1",
            "jeq r1, 5, +2",
            "jne r1, r2, -1",
            "call 1",
            "lddw r2, 0x1122334455667788",
            "(lddw upper half)",
            "ldxh r1, [r2+4]",
            "stw [r10-8], 7",
            "stxdw [r10-8], r1",
            "exit",
        ]
    );
    let odd = vec![insn(0x06, 0, 0, 0, 0), insn(0xd4, 0, 0, 0, 0), insn(0xe5, 0, 0, 0, 0), insn(0x18, 1, 0, 0, -1)];
    assert_eq!(disasm(&odd, 0), "(unknown op 0x06)");
    assert_eq!(disasm(&odd, 1), "alu?32 r0, 0");
    assert_eq!(disasm(&odd, 2), "jmp? r0, 0, +0");
    assert_eq!(disasm(&odd, 3), "lddw r1, 0xffffffff");
}

#[test]
fn verifier_findings() {
    assert_eq!(diags(&[]), vec![(0, "error", "empty program".to_string())]);
    assert_eq!(
        diags(&prog("mov r0, 1")),
        vec![
            (0, "error", "program has no exit instruction".to_string()),
            (0, "warn", "last instruction is not exit/jump \u{2014} execution can fall off the end".to_string()),
        ]
    );
    assert_eq!(diags(&prog("mov r0, 1\nexit")), vec![]);
    assert_eq!(
        diags(&[insn(0xb7, 11, 0, 0, 0), insn(0x95, 0, 0, 0, 0)]),
        vec![(0, "error", "invalid register (r0\u{2013}r10 exist)".to_string())]
    );
    assert_eq!(
        diags(&[insn(0x06, 0, 0, 0, 0), insn(0x95, 0, 0, 0, 0)]),
        vec![(0, "error", "unknown or unsupported opcode 0x06".to_string())]
    );
    assert_eq!(
        diags(&prog("mov r10, 1\nexit")),
        vec![(0, "error", "r10 is the read-only frame pointer".to_string())]
    );
    assert_eq!(
        diags(&prog("div r0, 0\nexit")),
        vec![(0, "error", "division by zero immediate".to_string())]
    );
    assert_eq!(
        diags(&prog("lsh r0, 64\nlsh32 r0, -1\nexit")),
        vec![
            (0, "warn", "shift amount 64 outside 0\u{2013}63".to_string()),
            (1, "warn", "shift amount -1 outside 0\u{2013}31".to_string()),
        ]
    );
    assert_eq!(
        diags(&prog("call 5\nexit")),
        vec![(0, "error", "unknown helper function 5".to_string())]
    );
    assert_eq!(
        diags(&prog("ja +5\nexit")),
        vec![(0, "error", "jump target 6 out of bounds".to_string())]
    );
    assert_eq!(
        diags(&prog("ja +1\nlddw r0, 1\nexit")),
        vec![(0, "error", "jump into the middle of an lddw".to_string())]
    );
    assert_eq!(
        diags(&prog("stxw [r10+0], r1\nexit")),
        vec![(0, "warn", "store at or above r10 \u{2014} the stack grows downward".to_string())]
    );
    let long: Vec<RawInsn> = vec![insn(0x95, 0, 0, 0, 0); 4097];
    assert_eq!(diags(&long), vec![(0, "error", "program too long: 4097 > 4096 instructions".to_string())]);
}

#[test]
fn hex_input() {
    let v = insns_from_hex("b7 00 00 00 2a 00 00 00\n95 00 00 00 00 00 00 00").unwrap();
    assert_eq!(v, vec![insn(0xb7, 0, 0, 0, 42), insn(0x95, 0, 0, 0, 0)]);
    let w = insns_from_hex("0x95,0x00,0x00 0X00,00,00,0000").unwrap();
    assert_eq!(w, vec![insn(0x95, 0, 0, 0, 0)]);
    assert_eq!(insns_from_hex("zz").unwrap_err(), "invalid hex token `zz`");
    assert_eq!(insns_from_hex("95 0x").unwrap_err(), "invalid hex token `0x`");
    assert_eq!(insns_from_hex("").unwrap_err(), "no bytes provided");
    assert_eq!(insns_from_hex(" , ").unwrap_err(), "no bytes provided");
    assert_eq!(insns_from_hex("abc").unwrap_err(), "odd number of hex digits");
    assert_eq!(insns_from_hex("b7000000").unwrap_err(), "byte length 4 is not a multiple of 8");
}

#[test]
fn result_rows_and_verdict() {
    let p = prog("mov r0, 42\nexit");
    let r = result_from_insns(&p, vec![]);
    assert!(r.ok);
    assert_eq!(r.listing.len(), 2);
    assert_eq!(r.listing[0].pc, 0);
    assert_eq!(r.listing[0].bytes, "b7 00 00 00 2a 00 00 00");
    assert_eq!(r.listing[0].assembly, "mov r0, 42");
    assert!(r.diags.is_empty());

    let r = result_from_insns(&p, vec![AsmError { line: 1, msg: "x".to_string() }]);
    assert!(!r.ok);
    assert!(r.diags.is_empty());

    let r = result_from_insns(&prog("mov r0, 1"), vec![]);
    assert!(!r.ok);
    assert_eq!(r.diags.len(), 2);

    let r = result_from_insns(&prog("stxw [r10+0], r1\nexit"), vec![]);
    assert!(r.ok);
    assert_eq!(r.diags.len(), 1);

    let (insns, r) = build_assemble_result("mov r0, 1\nexit\n");
    assert!(r.ok);
    assert_eq!(insns.len(), 2);
    let (_, r) = build_assemble_result("bogus\n");
    assert!(!r.ok);
    assert_eq!(r.errors.len(), 1);
}
