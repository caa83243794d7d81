use ebpf_vm::assembler::{assemble, AsmError};
use ebpf_vm::isa::RawInsn;

fn errors_of(src: &str) -> Vec<(u32, String)> {
    let (_, errors) = assemble(src);
    errors.into_iter().map(|e: AsmError| (e.line, e.msg)).collect()
}

fn one_error(src: &str) -> String {
    let errs = errors_of(src);
    assert_eq!(errs.len(), 1, "errors: {errs:?}");
    errs[0].1.clone()
}

fn insn(op: u8, dst: u8, src: u8, off: i16, imm: i32) -> RawInsn {
    RawInsn { op, dst, src, off, imm }
}

#[test]
fn encodes_each_form() {
    let (insns, errors) = assemble(
        "add r1, r2\nadd32 r1, 7\nneg r3\nlddw r4, 0x1122334455667788\nldxh r1, [r2+4]\nstxdw [r10-8], r1\nstb [r1], -1\nja +2\njne r1, r2, -1\njsle r1, 3, +0\ncall 1\nexit\n",
    );
    assert!(errors.is_empty(), "{errors:?}");
    assert_eq!(
        insns,
        vec![
            insn(0x0f, 1, 2, 0, 0),
            insn(0x04, 1, 0, 0, 7),
            insn(0x87, 3, 0, 0, 0),
            insn(0x18, 4, 0, 0, 0x55667788),
            insn(0x00, 0, 0, 0, 0x11223344),
            insn(0x69, 1, 2, 4, 0),
            insn(0x7b, 10, 1, -8, 0),
            insn(0x72, 1, 0, 0, -1),
            insn(0x05, 0, 0, 2, 0),
            insn(0x5d, 1, 2, -1, 0),
            insn(0xd5, 1, 0, 0, 3),
            insn(0x85, 0, 0, 0, 1),
            insn(0x95, 0, 0, 0, 0),
        ]
    );
}

#[test]
fn comments_labels_and_case() {
    let src = "start: ; label only\n  MOV r0, 1 # comment\n// whole line\nLDDW r1, 2\n  ja start // back\nexit\n";
    let (insns, errors) = assemble(src);
    assert!(errors.is_empty(), "{errors:?}");
    assert_eq!(insns.len(), 5);
    assert_eq!(insns[0], insn(0xb7, 0, 0, 0, 1));
    assert_eq!(insns[3], insn(0x05, 0, 0, -4, 0));
}

#[test]
fn several_labels_on_one_line() {
    let (insns, errors) = assemble("a: b: mov r0, 1\nja a\nja b\nexit");
    assert!(errors.is_empty());
    assert_eq!(insns[1].off, -2);
    assert_eq!(insns[2].off, -3);
}

#[test]
fn operand_quirks() {
    let (insns, errors) = assemble("mov r+5, 1\nldxb r0, [r10 - 8]\nmov r1, -0x10\nmov r2, 0X1f\nmov r3, +5\nexit");
    assert!(errors.is_empty(), "{errors:?}");
    assert_eq!(insns[0].dst, 5);
    assert_eq!(insns[1].off, -8);
    assert_eq!(insns[2].imm, -16);
    assert_eq!(insns[3].imm, 31);
    assert_eq!(insns[4].imm, 5);
}

#[test]
fn failing_statement_keeps_slots() {
    let (insns, errors) = assemble("lddw r11, 5\nja end\nend: exit\n");
    assert_eq!(errors.len(), 1);
    assert_eq!(errors[0].line, 1);
    assert_eq!(errors[0].msg, "bad register `r11`");
    assert_eq!(insns.len(), 4);
    assert_eq!(insns[0], insn(0, 0, 0, 0, 0));
    assert_eq!(insns[1], insn(0, 0, 0, 0, 0));
    assert_eq!(insns[2], insn(0x05, 0, 0, 0, 0));
    assert_eq!(insns[3], insn(0x95, 0, 0, 0, 0));
}

#[test]
fn operand_count_errors() {
    assert_eq!(one_error("add r0"), "`add` expects 2 operand(s), got 1");
    assert_eq!(one_error("NEG r0, r1"), "`neg` expects 1 operand(s), got 2");
    assert_eq!(one_error("exit r0"), "`exit` expects 0 operand(s), got 1");
    assert_eq!(one_error("jeq r0, 1"), "`jeq` expects 3 operand(s), got 2");
}

#[test]
fn operand_errors() {
    assert_eq!(one_error("neg x"), "expected register");
    assert_eq!(one_error("mov r11, 1"), "bad register `r11`");
    assert_eq!(one_error("mov r0, foo"), "bad operand `foo`");
    assert_eq!(
        one_error("mov r0, 0x100000000"),
        "immediate `0x100000000` needs 64 bits \u{2014} use lddw"
    );
    assert_eq!(one_error("lddw r0, zz"), "bad immediate `zz`");
    assert_eq!(one_error("ldxw r0, [r1"), "bad memory operand `[r1`");
    assert_eq!(one_error("stxw [r1], 5"), "bad register `5`");
    assert_eq!(one_error("stw [r1], x"), "bad immediate `x`");
    assert_eq!(one_error("stw [r1], 4294967296"), "store immediate must fit 32 bits");
    assert_eq!(one_error("jeq r0, 4294967296, +1"), "comparison immediate must fit 32 bits");
    assert_eq!(one_error("jeq r0, q, +1"), "bad operand `q`");
    assert_eq!(one_error("call x"), "bad helper id `x`");
    assert_eq!(one_error("FROB r0"), "unknown mnemonic `FROB`");
}

#[test]
fn jump_errors() {
    assert_eq!(one_error("ja nowhere"), "unknown label `nowhere`");
    assert_eq!(one_error("ja +40000"), "jump offset `+40000` out of range");
    assert_eq!(one_error("ja +x"), "bad jump offset `+x`");
}

#[test]
fn label_errors() {
    assert_eq!(errors_of(": exit"), vec![(1, "invalid label ``".to_string())]);
    assert_eq!(errors_of("a b: exit"), vec![(1, "invalid label `a b`".to_string())]);
    let (insns, errors) = assemble("x: mov r0, 1\nx: exit\nja x");
    assert_eq!(errors.len(), 1);
    assert_eq!((errors[0].line, errors[0].msg.as_str()), (2, "duplicate label `x`"));
    // The later definition wins.
    assert_eq!(insns[2].off, -2);
}

#[test]
fn lines_are_numbered_from_one() {
    let errs = errors_of("\n\nmov r0\nexit\n");
    assert_eq!(errs, vec![(3, "`mov` expects 2 operand(s), got 1".to_string())]);
}
