use ebpf_vm::assembler::assemble;
use ebpf_vm::interp::{Status, Vm};
use ebpf_vm::isa::insns_from_bytes;

fn run_src(src: &str, packet: &[u8]) -> Vm {
    let (insns, errors) = assemble(src);
    assert!(errors.is_empty(), "asm errors: {errors:?}");
    let mut vm = Vm::new(insns, packet.to_vec());
    while vm.status == Status::Running {
        vm.step();
    }
    vm
}

#[test]
fn arithmetic_and_exit() {
    let vm = run_src("mov r0, 7\nmul r0, 6\nexit\n", &[]);
    assert_eq!(vm.status, Status::Exited(42));
}

#[test]
fn packet_sum_loop() {
    let src = "
        mov r0, 0
        add r2, r1
    loop:
        jge r1, r2, done
        ldxb r3, [r1+0]
        add r0, r3
        add r1, 1
        ja loop
    done:
        exit
    ";
    let vm = run_src(src, &[1, 2, 3, 4, 5]);
    assert_eq!(vm.status, Status::Exited(15));
}

#[test]
fn stack_store_load() {
    let src = "
        lddw r3, 0x1122334455667788
        stxdw [r10-8], r3
        ldxw r0, [r10-8]
        exit
    ";
    let vm = run_src(src, &[]);
    assert_eq!(vm.status, Status::Exited(0x55667788));
}

#[test]
fn div_by_zero_yields_zero() {
    let vm = run_src("mov r0, 100\nmov r1, 0\ndiv r0, r1\nexit\n", &[]);
    assert_eq!(vm.status, Status::Exited(0));
}

#[test]
fn out_of_bounds_read_errors() {
    let vm = run_src("ldxdw r0, [r1+100]\nexit\n", &[1, 2, 3]);
    assert!(matches!(vm.status, Status::Errored(_)));
}

#[test]
fn alu32_zero_extends() {
    let vm = run_src("lddw r0, 0xffffffffffffffff\nadd32 r0, 1\nexit\n", &[]);
    assert_eq!(vm.status, Status::Exited(0));
}

#[test]
fn helper_log() {
    let vm = run_src("mov r1, 123\ncall 0\nmov r0, 1\nexit\n", &[]);
    assert_eq!(vm.log.len(), 1);
    assert!(vm.log[0].contains("123"));
    assert_eq!(vm.status, Status::Exited(1));
}

#[test]
fn bytecode_roundtrip_runs() {
    // Assemble, serialize to raw bytes, decode back, and execute: the
    // "paste real bytecode" path must reproduce the same result.
    let (insns, errors) = assemble("mov r0, 42\nadd r0, 8\nexit\n");
    assert!(errors.is_empty());
    let bytes: Vec<u8> = insns.iter().flat_map(|i| i.to_bytes()).collect();
    let decoded = insns_from_bytes(&bytes).unwrap();
    assert_eq!(decoded.len(), insns.len());
    let mut vm = Vm::new(decoded, vec![]);
    while vm.status == Status::Running {
        vm.step();
    }
    assert_eq!(vm.status, Status::Exited(50));
}

#[test]
fn bytecode_rejects_bad_length() {
    assert!(insns_from_bytes(&[0xb7, 0x00, 0x00]).is_err());
}

#[test]
fn signed_comparison() {
    let src = "
        mov r3, -5
        jsgt r3, 0, bad
        mov r0, 1
        exit
    bad:
        mov r0, 2
        exit
    ";
    let vm = run_src(src, &[]);
    assert_eq!(vm.status, Status::Exited(1));
}
