use ebpf_vm::assembler::assemble;
use ebpf_vm::interp::{Status, Vm, MAX_STEPS, PACKET_BASE, STACK_TOP};
use ebpf_vm::isa::RawInsn;

fn program(src: &str) -> Vec<RawInsn> {
    let (insns, errors) = assemble(src);
    assert!(errors.is_empty(), "asm errors: {errors:?}");
    insns
}

fn run(src: &str, packet: &[u8]) -> Vm {
    let mut vm = Vm::new(program(src), packet.to_vec());
    while vm.status == Status::Running {
        vm.step();
    }
    vm
}

fn errored(vm: &Vm) -> String {
    match &vm.status {
        Status::Errored(m) => m.clone(),
        other => panic!("expected an error, got {other:?}"),
    }
}

#[test]
fn fresh_machine_registers() {
    let vm = Vm::new(vec![], vec![9, 9, 9]);
    assert_eq!(vm.regs[1], PACKET_BASE);
    assert_eq!(vm.regs[2], 3);
    assert_eq!(vm.regs[10], STACK_TOP);
    assert_eq!(vm.regs[0], 0);
    assert_eq!(vm.pc, 0);
    assert_eq!(vm.steps, 0);
    assert!(vm.stack.iter().all(|b| *b == 0));
    assert!(vm.log.is_empty());
    assert_eq!(vm.status, Status::Running);
}

#[test]
fn store_then_load_gives_value_back() {
    let vm = run(
        "lddw r3, 0x0102030405060708\nstxdw [r10-16], r3\nldxdw r0, [r10-16]\nexit\n",
        &[],
    );
    assert_eq!(vm.status, Status::Exited(0x0102030405060708));
    // Little-endian layout on the stack.
    assert_eq!(&vm.stack[496..504], &[8, 7, 6, 5, 4, 3, 2, 1]);
}

#[test]
fn narrow_store_cuts_value() {
    let vm = run("mov r3, 0x1234\nstxb [r10-1], r3\nldxb r0, [r10-1]\nexit\n", &[]);
    assert_eq!(vm.status, Status::Exited(0x34));
    let vm = run("mov r3, 0x12345678\nstxh [r10-2], r3\nldxh r0, [r10-2]\nexit\n", &[]);
    assert_eq!(vm.status, Status::Exited(0x5678));
}

#[test]
fn packet_write_and_immediate_store() {
    let vm = run("stb [r1+1], 0x7f\nstw [r10-4], -1\nldxw r0, [r10-4]\nexit\n", &[1, 2, 3]);
    assert_eq!(vm.packet, vec![1, 0x7f, 3]);
    assert_eq!(vm.status, Status::Exited(0xffff_ffff));
}

#[test]
fn stopped_machine_does_not_change() {
    let mut vm = run("mov r0, 5\nexit\n", &[]);
    assert_eq!(vm.status, Status::Exited(5));
    let (pc, steps, regs) = (vm.pc, vm.steps, vm.regs);
    let info = vm.step();
    assert_eq!(info.pc, pc);
    assert_eq!(info.assembly, "");
    assert!(info.changed.is_none() && info.mem_write.is_none() && info.log_line.is_none());
    assert_eq!((vm.pc, vm.steps, vm.regs), (pc, steps, regs));
    assert_eq!(vm.status, Status::Exited(5));
}

#[test]
fn exit_keeps_program_counter() {
    let vm = run("mov r0, 1\nexit\n", &[]);
    assert_eq!(vm.pc, 1);
    assert_eq!(vm.steps, 2);
}

#[test]
fn run_stops_at_step_budget() {
    let mut vm = Vm::new(program("loop: ja loop\n"), vec![]);
    vm.run();
    assert_eq!(errored(&vm), "instruction budget exceeded (100000)");
    assert_eq!(vm.steps, MAX_STEPS + 1);
}

#[test]
fn falling_off_the_end() {
    let vm = run("mov r0, 1\n", &[]);
    assert_eq!(errored(&vm), "execution fell off the end of the program");
    assert_eq!(vm.steps, 1);
}

#[test]
fn mod_by_zero_keeps_destination() {
    let vm = run("mov r0, 100\nmov r1, 0\nmod r0, r1\nexit\n", &[]);
    assert_eq!(vm.status, Status::Exited(100));
    let vm = run("lddw r0, 0x100000007\nmov r1, 0\nmod32 r0, r1\nexit\n", &[]);
    assert_eq!(vm.status, Status::Exited(7));
    let vm = run("mov r0, 9\nmov r1, 0\ndiv32 r0, r1\nexit\n", &[]);
    assert_eq!(vm.status, Status::Exited(0));
}

#[test]
fn alu_operations() {
    assert_eq!(run("mov r0, -1\nexit\n", &[]).status, Status::Exited(u64::MAX));
    assert_eq!(run("mov32 r0, -1\nexit\n", &[]).status, Status::Exited(0xffff_ffff));
    assert_eq!(run("mov r0, 5\nneg r0\nexit\n", &[]).status, Status::Exited(5u64.wrapping_neg()));
    assert_eq!(run("mov r0, 5\nneg32 r0\nexit\n", &[]).status, Status::Exited(0xffff_fffb));
    assert_eq!(run("mov r0, 1\nlsh r0, 65\nexit\n", &[]).status, Status::Exited(2));
    assert_eq!(run("mov r0, -16\narsh r0, 2\nexit\n", &[]).status, Status::Exited((-4i64) as u64));
    assert_eq!(run("mov r0, -16\nrsh32 r0, 2\nexit\n", &[]).status, Status::Exited(0x3fff_fffc));
    assert_eq!(run("mov r0, 6\nxor r0, 3\nor r0, 8\nand r0, 12\nexit\n", &[]).status, Status::Exited(12));
    assert_eq!(run("mov r0, 3\nsub r0, 5\nexit\n", &[]).status, Status::Exited(u64::MAX - 1));
    assert_eq!(run("mov r0, 17\nmod r0, 5\nexit\n", &[]).status, Status::Exited(2));
}

#[test]
fn unsigned_and_signed_jumps() {
    let src = "
        mov r3, -1
        jgt r3, 5, big
        mov r0, 1
        exit
    big:
        jslt r3, 0, neg
        mov r0, 2
        exit
    neg:
        mov r4, 12
        jset r4, 4, set
        mov r0, 3
        exit
    set:
        mov r0, 4
        exit
    ";
    assert_eq!(run(src, &[]).status, Status::Exited(4));
}

#[test]
fn step_reports_changes() {
    let mut vm = Vm::new(program("mov r2, 7\nstxb [r10-1], r2\nexit\n"), vec![1]);
    let info = vm.step();
    assert_eq!(info.pc, 0);
    assert_eq!(info.assembly, "mov r2, 7");
    assert_eq!(info.changed, Some((2, 1, 7)));
    let info = vm.step();
    assert_eq!(info.assembly, "stxb [r10-1], r2");
    assert_eq!(info.mem_write, Some((STACK_TOP - 1, 1, 7)));
    assert_eq!(info.changed, None);
}

#[test]
fn helper_clobbers_and_logs_bytes() {
    let vm = run("mov r2, 3\ncall 1\nmov r0, r1\nexit\n", &[0xab, 0x01, 0xff, 0x44]);
    assert_eq!(vm.log, vec!["log_bytes(r1, r2) \u{2192} [ab 01 ff]".to_string()]);
    assert_eq!(vm.regs[1..=5], [0, 0, 0, 0, 0]);
    assert_eq!(vm.status, Status::Exited(0));
}

#[test]
fn helper_log_u64_text() {
    let vm = run("mov r1, 255\ncall 0\nexit\n", &[]);
    assert_eq!(vm.log, vec!["log_u64(r1) \u{2192} 255 (0xff)".to_string()]);
}

#[test]
fn unknown_helper_errors() {
    let mut vm = Vm::new(vec![RawInsn { op: 0x85, dst: 0, src: 0, off: 0, imm: 7 }], vec![]);
    vm.step();
    assert_eq!(errored(&vm), "unknown helper 7");
    assert_eq!(vm.pc, 0);
}

#[test]
fn helper_bytes_out_of_bounds() {
    let vm = run("mov r1, 0\nmov r2, 1\ncall 1\nexit\n", &[]);
    assert_eq!(
        errored(&vm),
        "invalid memory access: 1 byte(s) at 0x0 (packet is 0x10000000..0x10000000, stack 0x20000000..0x20000200)"
    );
}

#[test]
fn bad_read_message() {
    let vm = run("ldxdw r0, [r1+100]\nexit\n", &[1, 2, 3]);
    assert_eq!(
        errored(&vm),
        "invalid memory access: 8 byte(s) at 0x10000064 (packet is 0x10000000..0x10000003, stack 0x20000000..0x20000200)"
    );
}

#[test]
fn bad_write_message() {
    let vm = run("stxw [r10+0], r1\nexit\n", &[]);
    assert_eq!(errored(&vm), "invalid memory write: 4 byte(s) at 0x20000200");
}

#[test]
fn jump_out_of_bounds() {
    let vm = run("ja +5\nexit\n", &[]);
    assert_eq!(errored(&vm), "jump target 6 out of bounds");
    let vm = run("ja -3\nexit\n", &[]);
    assert_eq!(errored(&vm), "jump target -2 out of bounds");
}

#[test]
fn jump_to_end_then_falls_off() {
    let vm = run("ja +1\nexit\n", &[]);
    assert_eq!(errored(&vm), "execution fell off the end of the program");
    assert_eq!(vm.pc, 2);
}

#[test]
fn unsupported_opcodes() {
    let mut vm = Vm::new(vec![RawInsn { op: 0x06, dst: 0, src: 0, off: 0, imm: 0 }], vec![]);
    vm.step();
    assert_eq!(errored(&vm), "unsupported opcode 0x06");
    let mut vm = Vm::new(vec![RawInsn { op: 0xd7, dst: 0, src: 0, off: 0, imm: 0 }], vec![]);
    vm.step();
    assert_eq!(errored(&vm), "unsupported alu op 0xd");
    let mut vm = Vm::new(vec![RawInsn { op: 0xe4, dst: 0, src: 0, off: 0, imm: 0 }], vec![]);
    vm.step();
    assert_eq!(errored(&vm), "unsupported alu32 op 0xe");
    let mut vm = Vm::new(vec![RawInsn { op: 0xe5, dst: 0, src: 0, off: 0, imm: 0 }], vec![]);
    vm.step();
    assert_eq!(errored(&vm), "unsupported jump op 0xe");
}

#[test]
fn can_step_detects_bad_registers() {
    let vm = Vm::new(vec![RawInsn { op: 0xb7, dst: 12, src: 0, off: 0, imm: 1 }], vec![]);
    assert!(!vm.can_step());
    let vm = Vm::new(vec![RawInsn { op: 0x18, dst: 0, src: 0, off: 0, imm: 1 }], vec![]);
    assert!(!vm.can_step());
    let vm = Vm::new(program("mov r0, 1\nexit\n"), vec![]);
    assert!(vm.can_step());
}
