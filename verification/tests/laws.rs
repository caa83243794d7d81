use ebpf_vm::assembler::assemble;
use ebpf_vm::interp::{Status, Vm};
use ebpf_vm::isa::{disasm, RawInsn};

fn program(src: &str) -> Vec<RawInsn> {
    let (insns, errors) = assemble(src);
    assert!(errors.is_empty(), "asm errors: {errors:?}");
    insns
}

fn run(src: &str) -> Vm {
    let mut vm = Vm::new(program(src), vec![1, 2, 3, 4]);
    while vm.status == Status::Running {
        vm.step();
    }
    vm
}

#[test]
fn disassembly_reassembles() {
    let src = "
        mov r0, 7
        add32 r0, -3
        neg r1
        neg32 r2
        arsh r3, r4
        mul32 r5, r6
        lddw r7, 0xfedcba9876543210
        lddw r8, 5
        ldxdw r0, [r1+100]
        ldxb r2, [r10-8]
        stw [r10-4], -2147483648
        sth [r1+0], 65535
        stxdw [r10-16], r9
        stxb [r2+7], r3
    top:
        jeq r1, r2, top
        jsgt r3, -5, +2
        jset r4, 0x10, -3
        ja +0
        ja top
        call 1
        exit
    ";
    let insns = program(src);
    let mut pc = 0;
    while pc < insns.len() {
        let text = disasm(&insns, pc);
        let width = if insns[pc].op == 0x18 { 2 } else { 1 };
        let (again, errors) = assemble(&text);
        assert!(errors.is_empty(), "`{text}` gives {errors:?}");
        assert_eq!(again, insns[pc..pc + width].to_vec(), "`{text}`");
        pc += width;
    }
}

#[test]
fn mnemonics_ignore_case() {
    let lower = program("mov r0, 7\nadd32 r0, 1\nldxb r1, [r1+0]\njne r0, 3, +1\nlddw r2, 9\nexit\n");
    let mixed = program("MOV r0, 7\nAdd32 r0, 1\nLDXB r1, [r1+0]\njNe r0, 3, +1\nLddW r2, 9\nEXIT\n");
    assert_eq!(lower, mixed);
    let (_, errors) = assemble("MOVE r0, 1\n");
    assert_eq!(errors[0].msg, "unknown mnemonic `MOVE`");
}

#[test]
fn alu32_reads_low_halves() {
    let vm = run("lddw r0, 0xffffffff00000005\nlddw r1, 0x7fffffff00000003\nadd32 r0, r1\nexit\n");
    assert_eq!(vm.status, Status::Exited(8));
    let vm = run("lddw r0, 0xaaaaaaaa00000010\nlddw r1, 0x5555555500000002\nrsh32 r0, r1\nexit\n");
    assert_eq!(vm.status, Status::Exited(4));
}

#[test]
fn failed_step_changes_only_status_and_count() {
    let mut vm = Vm::new(program("mov r0, 5\nstxdw [r10-8], r0\nldxdw r0, [r1+100]\nexit\n"), vec![7]);
    vm.step();
    vm.step();
    let (pc, regs, stack, packet, log, steps) =
        (vm.pc, vm.regs, vm.stack, vm.packet.clone(), vm.log.clone(), vm.steps);
    let info = vm.step();
    assert!(matches!(vm.status, Status::Errored(_)));
    assert_eq!((vm.pc, vm.regs, vm.stack, vm.packet.clone(), vm.log.clone()), (pc, regs, stack, packet, log));
    assert_eq!(vm.steps, steps + 1);
    assert_eq!((info.changed, info.mem_write, info.log_line), (None, None, None));
}
