//! A miniature, teaching-oriented version of the kernel's eBPF verifier.
//! Static checks only: the real verifier also tracks value ranges and
//! pointer provenance, but the failure classes it reports are the same.
use vstd::prelude::*;
use vstd::string::*;
use crate::text::{dec, hex2, int_dec, push_dec, push_hex2, push_int, push_str, string_of};
use crate::isa::{
    RawInsn, alu_name, is_upper_half, jmp_name, upper_half, CLS_ALU32, CLS_ALU64, CLS_JMP, CLS_LD,
    CLS_LDX, CLS_ST, CLS_STX, OP_CALL, OP_EXIT, OP_LDDW, SRC_X,
};
use crate::interp::{HELPER_LOG_BYTES, HELPER_LOG_U64};

verus! {

/// The most instruction slots that a program may have.
pub const MAX_INSNS: usize = 4096;

/// One finding: the slot it concerns, its level (`"error"` or `"warn"`)
/// and its message.
#[derive(Debug, Clone)]
pub struct Diag {
    pub pc: usize,
    pub level: &'static str,
    pub msg: String,
}

/// A `Diag` as a mathematical value.
pub struct DiagView {
    pub pc: usize,
    pub level: Seq<char>,
    pub msg: Seq<char>,
}

impl View for Diag {
    type V = DiagView;

    open spec fn view(&self) -> DiagView {
        DiagView { pc: self.pc, level: self.level@, msg: self.msg@ }
    }
}

/// An error finding.
pub open spec fn err(pc: usize, msg: Seq<char>) -> DiagView {
    DiagView { pc, level: "error"@, msg }
}

/// A warning finding.
pub open spec fn warn(pc: usize, msg: Seq<char>) -> DiagView {
    DiagView { pc, level: "warn"@, msg }
}

/// Whether the opcode is one that the interpreter knows.
pub open spec fn known_op_spec(i: RawInsn) -> bool {
    let cls = i.cls();
    if cls == CLS_ALU64 || cls == CLS_ALU32 {
        alu_name(i.op >> 4u8) is Some
    } else if cls == CLS_JMP {
        i.op == OP_CALL || i.op == OP_EXIT || jmp_name(i.op >> 4u8) is Some
    } else if cls == CLS_LD {
        i.op == OP_LDDW
    } else if cls == CLS_LDX {
        i.op & 0xe7 == 0x61
    } else if cls == CLS_ST {
        i.op & 0xe7 == 0x62
    } else if cls == CLS_STX {
        i.op & 0xe7 == 0x63
    } else {
        false
    }
}

/// The findings that the class of the instruction at `pc` gives.
pub open spec fn class_diags(insns: Seq<RawInsn>, pc: usize) -> Seq<DiagView> {
    let i = insns[pc as int];
    let cls = i.cls();
    let code = i.op >> 4u8;
    let k = i.op & SRC_X == 0;
    if cls == CLS_ALU32 || cls == CLS_ALU64 {
        let div0 = if (code == 0x3 || code == 0x9) && k && i.imm == 0 {
            seq![err(pc, "division by zero immediate"@)]
        } else {
            Seq::empty()
        };
        let max: i32 = if cls == CLS_ALU32 {
            31
        } else {
            63
        };
        let shift = if (code == 0x6 || code == 0x7 || code == 0xc) && k && (i.imm < 0 || i.imm
            > max) {
            seq![
                warn(
                    pc,
                    "shift amount "@ + int_dec(i.imm as int) + " outside 0\u{2013}"@ + dec(
                        max as nat,
                    ),
                ),
            ]
        } else {
            Seq::empty()
        };
        div0 + shift
    } else if cls == CLS_JMP {
        if i.op == OP_CALL {
            if i.imm as u32 != HELPER_LOG_U64 && i.imm as u32 != HELPER_LOG_BYTES {
                seq![err(pc, "unknown helper function "@ + int_dec(i.imm as int))]
            } else {
                Seq::empty()
            }
        } else if i.op != OP_EXIT {
            let target = pc + 1 + i.off;
            if target < 0 || target >= insns.len() {
                seq![err(pc, "jump target "@ + int_dec(target) + " out of bounds"@)]
            } else if upper_half(insns, target) {
                seq![err(pc, "jump into the middle of an lddw"@)]
            } else {
                Seq::empty()
            }
        } else {
            Seq::empty()
        }
    } else if cls == CLS_ST || cls == CLS_STX {
        if i.dst == 10 && i.off >= 0 {
            seq![warn(pc, "store at or above r10 \u{2014} the stack grows downward"@)]
        } else {
            Seq::empty()
        }
    } else {
        Seq::empty()
    }
}

/// The findings for the slot at `pc`.
pub open spec fn diags_at(insns: Seq<RawInsn>, pc: usize) -> Seq<DiagView> {
    let i = insns[pc as int];
    let cls = i.cls();
    if upper_half(insns, pc as int) {
        Seq::empty()
    } else if !known_op_spec(i) {
        seq![err(pc, "unknown or unsupported opcode 0x"@ + hex2(i.op))]
    } else if i.dst > 10 || i.src > 10 {
        seq![err(pc, "invalid register (r0\u{2013}r10 exist)"@)]
    } else {
        let writes_dst = cls == CLS_ALU32 || cls == CLS_ALU64 || cls == CLS_LDX || i.wide();
        let r10 = if writes_dst && i.dst == 10 {
            seq![err(pc, "r10 is the read-only frame pointer"@)]
        } else {
            Seq::empty()
        };
        r10 + class_diags(insns, pc)
    }
}

/// The findings for slots `0..n`, in order.
pub open spec fn diags_upto(insns: Seq<RawInsn>, n: nat) -> Seq<DiagView>
    decreases n,
{
    if n == 0 {
        Seq::empty()
    } else {
        diags_upto(insns, (n - 1) as nat) + diags_at(insns, (n - 1) as usize)
    }
}

/// Whether slot `pc` is a checked `exit`.
pub open spec fn exit_at(insns: Seq<RawInsn>, pc: int) -> bool {
    &&& !upper_half(insns, pc)
    &&& insns[pc].dst <= 10
    &&& insns[pc].src <= 10
    &&& insns[pc].op == OP_EXIT
}

/// Whether one of the slots `0..n` is a checked `exit`.
pub open spec fn exit_upto(insns: Seq<RawInsn>, n: nat) -> bool
    decreases n,
{
    n > 0 && (exit_upto(insns, (n - 1) as nat) || exit_at(insns, n - 1))
}

/// All findings for a program.
pub open spec fn verify_spec(insns: Seq<RawInsn>) -> Seq<DiagView> {
    let n = insns.len();
    if n == 0 {
        seq![err(0, "empty program"@)]
    } else {
        let too_long = if n > MAX_INSNS {
            seq![err(0, "program too long: "@ + dec(n) + " > 4096 instructions"@)]
        } else {
            Seq::empty()
        };
        let no_exit = if !exit_upto(insns, n) {
            seq![err((n - 1) as usize, "program has no exit instruction"@)]
        } else {
            Seq::empty()
        };
        let last = insns.last();
        let falls = if last.op != OP_EXIT && last.cls() != CLS_JMP {
            seq![
                warn(
                    (n - 1) as usize,
                    "last instruction is not exit/jump \u{2014} execution can fall off the end"@,
                ),
            ]
        } else {
            Seq::empty()
        };
        too_long + diags_upto(insns, n) + no_exit + falls
    }
}

/// Every finding for a slot before `k` is among the findings for slots
/// `0..k`.
pub proof fn lemma_diags_upto_has(insns: Seq<RawInsn>, k: nat, pc: usize, j: int)
    requires
        pc < k,
        0 <= j < diags_at(insns, pc).len(),
    ensures
        diags_upto(insns, k).contains(diags_at(insns, pc)[j]),
    decreases k,
{
    let prev = diags_upto(insns, (k - 1) as nat);
    let here = diags_at(insns, (k - 1) as usize);
    assert(diags_upto(insns, k) == prev + here);
    if pc < k - 1 {
        lemma_diags_upto_has(insns, (k - 1) as nat, pc, j);
        let w = choose|x: int| 0 <= x < prev.len() && prev[x] == diags_at(insns, pc)[j];
        assert((prev + here)[w] == prev[w]);
    } else {
        assert((prev + here)[prev.len() + j] == here[j]);
    }
}

/// Every finding for a slot is among the program's findings.
pub proof fn lemma_slot_finding_reported(insns: Seq<RawInsn>, pc: usize, j: int)
    requires
        pc < insns.len(),
        0 <= j < diags_at(insns, pc).len(),
    ensures
        verify_spec(insns).contains(diags_at(insns, pc)[j]),
{
    let d = diags_at(insns, pc);
    lemma_diags_upto_has(insns, insns.len(), pc, j);
    let n = insns.len();
    let too_long = if n > MAX_INSNS {
        seq![err(0, "program too long: "@ + dec(n) + " > 4096 instructions"@)]
    } else {
        Seq::empty()
    };
    let up = diags_upto(insns, n);
    let w = choose|x: int| 0 <= x < up.len() && up[x] == d[j];
    let v = verify_spec(insns);
    assert(v[too_long.len() + w] == up[w]);
}

/// Dividing or taking the remainder by an immediate zero is an error: for
/// any program, an ALU `div` or `mod` (32 or 64 bit) with immediate 0 in a
/// slot with valid registers gets the finding "division by zero
/// immediate" at its position, whatever else the program holds.
pub proof fn lemma_division_by_zero_found(insns: Seq<RawInsn>, pc: usize)
    requires
        pc < insns.len(),
        !upper_half(insns, pc as int),
        insns[pc as int].cls() == CLS_ALU32 || insns[pc as int].cls() == CLS_ALU64,
        insns[pc as int].op >> 4u8 == 0x3 || insns[pc as int].op >> 4u8 == 0x9,
        insns[pc as int].op & SRC_X == 0,
        insns[pc as int].imm == 0,
        insns[pc as int].dst <= 10,
        insns[pc as int].src <= 10,
    ensures
        verify_spec(insns).contains(
            DiagView { pc, level: "error"@, msg: "division by zero immediate"@ },
        ),
{
    let i = insns[pc as int];
    let d = diags_at(insns, pc);
    let c = class_diags(insns, pc);
    assert(known_op_spec(i));
    assert(c[0] == err(pc, "division by zero immediate"@));
    let r10 = d.len() - c.len();
    assert(d[r10] == c[0]);
    lemma_slot_finding_reported(insns, pc, r10);
}

/// A call of a helper other than 0 (`log_u64`) and 1 (`log_bytes`) is an
/// error at its position.
pub proof fn lemma_unknown_helper_found(insns: Seq<RawInsn>, pc: usize)
    requires
        pc < insns.len(),
        !upper_half(insns, pc as int),
        insns[pc as int].op == OP_CALL,
        insns[pc as int].dst <= 10,
        insns[pc as int].src <= 10,
        insns[pc as int].imm as u32 != 0,
        insns[pc as int].imm as u32 != 1,
    ensures
        verify_spec(insns).contains(
            DiagView {
                pc,
                level: "error"@,
                msg: "unknown helper function "@ + int_dec(insns[pc as int].imm as int),
            },
        ),
{
    assert(OP_CALL & 0x07 == 5 && OP_CALL != OP_LDDW) by (bit_vector);
    let d = diags_at(insns, pc);
    assert(d[0] == err(pc, "unknown helper function "@ + int_dec(insns[pc as int].imm as int)));
    lemma_slot_finding_reported(insns, pc, 0);
}

/// A jump whose target (the slot after it plus the offset) lies outside
/// the program is an error at its position.
pub proof fn lemma_jump_out_of_bounds_found(insns: Seq<RawInsn>, pc: usize)
    requires
        pc < insns.len(),
        !upper_half(insns, pc as int),
        insns[pc as int].cls() == CLS_JMP,
        jmp_name(insns[pc as int].op >> 4u8) is Some,
        insns[pc as int].op != OP_CALL,
        insns[pc as int].op != OP_EXIT,
        insns[pc as int].dst <= 10,
        insns[pc as int].src <= 10,
        pc + 1 + insns[pc as int].off < 0 || pc + 1 + insns[pc as int].off >= insns.len(),
    ensures
        verify_spec(insns).contains(
            DiagView {
                pc,
                level: "error"@,
                msg: "jump target "@ + int_dec(pc + 1 + insns[pc as int].off) + " out of bounds"@,
            },
        ),
{
    assert(OP_LDDW & 0x07 == 0) by (bit_vector);
    let i = insns[pc as int];
    assert(known_op_spec(i));
    assert(!i.wide());
    let d = diags_at(insns, pc);
    assert(d =~= class_diags(insns, pc));
    assert(d[0] == err(pc, "jump target "@ + int_dec(pc + 1 + i.off) + " out of bounds"@));
    lemma_slot_finding_reported(insns, pc, 0);
}

/// Writing the frame pointer r10 (by an ALU operation, a load or an
/// `lddw`) is an error at its position.
pub proof fn lemma_r10_write_found(insns: Seq<RawInsn>, pc: usize)
    requires
        pc < insns.len(),
        !upper_half(insns, pc as int),
        known_op_spec(insns[pc as int]),
        insns[pc as int].cls() == CLS_ALU32 || insns[pc as int].cls() == CLS_ALU64
            || insns[pc as int].cls() == CLS_LDX || insns[pc as int].op == OP_LDDW,
        insns[pc as int].dst == 10,
        insns[pc as int].src <= 10,
    ensures
        verify_spec(insns).contains(
            DiagView { pc, level: "error"@, msg: "r10 is the read-only frame pointer"@ },
        ),
{
    let d = diags_at(insns, pc);
    assert(d[0] == err(pc, "r10 is the read-only frame pointer"@));
    lemma_slot_finding_reported(insns, pc, 0);
}

/// A known instruction that names a register above r10 is an error at its
/// position.
pub proof fn lemma_invalid_register_found(insns: Seq<RawInsn>, pc: usize)
    requires
        pc < insns.len(),
        !upper_half(insns, pc as int),
        known_op_spec(insns[pc as int]),
        insns[pc as int].dst > 10 || insns[pc as int].src > 10,
    ensures
        verify_spec(insns).contains(
            DiagView { pc, level: "error"@, msg: "invalid register (r0\u{2013}r10 exist)"@ },
        ),
{
    let d = diags_at(insns, pc);
    assert(d[0] == err(pc, "invalid register (r0\u{2013}r10 exist)"@));
    lemma_slot_finding_reported(insns, pc, 0);
}

/// A store (immediate or register) through r10 at a non-negative offset
/// gets a warning at its position: the stack lies below r10.
pub proof fn lemma_store_above_r10_found(insns: Seq<RawInsn>, pc: usize)
    requires
        pc < insns.len(),
        !upper_half(insns, pc as int),
        known_op_spec(insns[pc as int]),
        insns[pc as int].cls() == CLS_ST || insns[pc as int].cls() == CLS_STX,
        insns[pc as int].dst == 10,
        insns[pc as int].src <= 10,
        insns[pc as int].off >= 0,
    ensures
        verify_spec(insns).contains(
            DiagView {
                pc,
                level: "warn"@,
                msg: "store at or above r10 \u{2014} the stack grows downward"@,
            },
        ),
{
    assert(OP_LDDW & 0x07 == 0) by (bit_vector);
    let d = diags_at(insns, pc);
    assert(d =~= class_diags(insns, pc));
    assert(d[0] == warn(pc, "store at or above r10 \u{2014} the stack grows downward"@));
    lemma_slot_finding_reported(insns, pc, 0);
}

/// A shift by an immediate outside 0 to 31 (32-bit) or 0 to 63 (64-bit)
/// gets a warning at its position.
pub proof fn lemma_shift_range_found(insns: Seq<RawInsn>, pc: usize)
    requires
        pc < insns.len(),
        !upper_half(insns, pc as int),
        insns[pc as int].cls() == CLS_ALU32 || insns[pc as int].cls() == CLS_ALU64,
        insns[pc as int].op >> 4u8 == 0x6 || insns[pc as int].op >> 4u8 == 0x7
            || insns[pc as int].op >> 4u8 == 0xc,
        insns[pc as int].op & SRC_X == 0,
        insns[pc as int].dst <= 10,
        insns[pc as int].src <= 10,
        insns[pc as int].imm < 0 || insns[pc as int].imm > (if insns[pc as int].cls()
            == CLS_ALU32 {
            31i32
        } else {
            63i32
        }),
    ensures
        verify_spec(insns).contains(
            DiagView {
                pc,
                level: "warn"@,
                msg: "shift amount "@ + int_dec(insns[pc as int].imm as int) + " outside 0\u{2013}"@
                    + dec(
                    if insns[pc as int].cls() == CLS_ALU32 {
                        31nat
                    } else {
                        63nat
                    },
                ),
            },
        ),
{
    let i = insns[pc as int];
    assert(known_op_spec(i));
    let d = diags_at(insns, pc);
    let c = class_diags(insns, pc);
    let at = d.len() - c.len();
    assert(d[at] == c[0]);
    lemma_slot_finding_reported(insns, pc, at);
}

/// A program of slots none of which is an `exit` gets the error "program
/// has no exit instruction" at its last slot.
pub proof fn lemma_no_exit_found(insns: Seq<RawInsn>)
    requires
        insns.len() > 0,
        forall|pc: int| 0 <= pc < insns.len() ==> (#[trigger] insns[pc]).op != OP_EXIT,
    ensures
        verify_spec(insns).contains(
            DiagView {
                pc: (insns.len() - 1) as usize,
                level: "error"@,
                msg: "program has no exit instruction"@,
            },
        ),
{
    lemma_no_exit_upto(insns, insns.len());
    let v = verify_spec(insns);
    let n = insns.len();
    let too_long = if n > MAX_INSNS {
        seq![err(0, "program too long: "@ + dec(n) + " > 4096 instructions"@)]
    } else {
        Seq::empty()
    };
    let up = diags_upto(insns, n);
    assert(v[too_long.len() + up.len() as int] == err((n - 1) as usize, "program has no exit instruction"@));
}

proof fn lemma_no_exit_upto(insns: Seq<RawInsn>, k: nat)
    requires
        k <= insns.len(),
        forall|pc: int| 0 <= pc < insns.len() ==> (#[trigger] insns[pc]).op != OP_EXIT,
    ensures
        !exit_upto(insns, k),
    decreases k,
{
    if k > 0 {
        lemma_no_exit_upto(insns, (k - 1) as nat);
        assert(insns[k - 1].op != OP_EXIT);
    }
}

/// A program whose last slot is neither an `exit` nor a jump gets a
/// warning at that slot that execution can fall off the end; a program of
/// more than 4096 slots gets an error.
pub proof fn lemma_program_shape_found(insns: Seq<RawInsn>)
    requires
        insns.len() > 0,
    ensures
        insns.last().op != OP_EXIT && insns.last().cls() != CLS_JMP ==> verify_spec(
            insns,
        ).contains(
            DiagView {
                pc: (insns.len() - 1) as usize,
                level: "warn"@,
                msg: "last instruction is not exit/jump \u{2014} execution can fall off the end"@,
            },
        ),
        insns.len() > MAX_INSNS ==> verify_spec(insns).contains(
            DiagView {
                pc: 0,
                level: "error"@,
                msg: "program too long: "@ + dec(insns.len()) + " > 4096 instructions"@,
            },
        ),
{
    let v = verify_spec(insns);
    let n = insns.len();
    let too_long = if n > MAX_INSNS {
        seq![err(0, "program too long: "@ + dec(n) + " > 4096 instructions"@)]
    } else {
        Seq::empty()
    };
    let up = diags_upto(insns, n);
    let no_exit = if !exit_upto(insns, n) {
        seq![err((n - 1) as usize, "program has no exit instruction"@)]
    } else {
        Seq::empty()
    };
    if n > MAX_INSNS {
        assert(v[0] == too_long[0]);
    }
    if insns.last().op != OP_EXIT && insns.last().cls() != CLS_JMP {
        assert(v[too_long.len() + up.len() + no_exit.len() as int] == warn(
            (n - 1) as usize,
            "last instruction is not exit/jump \u{2014} execution can fall off the end"@,
        ));
    }
}

/// The findings of a list, as mathematical values.
pub open spec fn diags_view(d: Seq<Diag>) -> Seq<DiagView> {
    d.map_values(|x: Diag| x@)
}

fn error_diag(pc: usize, msg: String) -> (d: Diag)
    ensures
        d@ == err(pc, msg@),
{
    Diag { pc, level: "error", msg }
}

fn warn_diag(pc: usize, msg: String) -> (d: Diag)
    ensures
        d@ == warn(pc, msg@),
{
    Diag { pc, level: "warn", msg }
}

fn push_diag(v: &mut Vec<Diag>, d: Diag)
    ensures
        diags_view(final(v)@) == diags_view(old(v)@).push(d@),
{
    v.push(d);
    assert(diags_view(final(v)@) =~= diags_view(old(v)@).push(d@));
}

fn known_op(insn: &RawInsn) -> (b: bool)
    ensures
        b == known_op_spec(*insn),
{
    let cls = insn.class();
    if cls == CLS_ALU64 || cls == CLS_ALU32 {
        (insn.op >> 4u8) <= 0xc
    } else if cls == CLS_JMP {
        let code = insn.op >> 4u8;
        insn.op == OP_CALL || insn.op == OP_EXIT || code <= 0x7 || (0xa <= code && code <= 0xd)
    } else if cls == CLS_LD {
        insn.op == OP_LDDW
    } else if cls == CLS_LDX {
        insn.op & 0xe7 == 0x61
    } else if cls == CLS_ST {
        insn.op & 0xe7 == 0x62
    } else if cls == CLS_STX {
        insn.op & 0xe7 == 0x63
    } else {
        false
    }
}

/// Appends the findings that the class of the instruction at `pc` gives.
fn check_class(insns: &[RawInsn], pc: usize, diags: &mut Vec<Diag>)
    requires
        pc < insns@.len(),
    ensures
        diags_view(final(diags)@) == diags_view(old(diags)@) + class_diags(insns@, pc),
{
    let ghost d0 = diags_view(diags@);
    let insn = insns[pc];
    let cls = insn.class();
    let code = insn.op >> 4u8;
    let k = insn.op & SRC_X == 0;
    if cls == CLS_ALU32 || cls == CLS_ALU64 {
        if (code == 0x3 || code == 0x9) && k && insn.imm == 0 {
            push_diag(diags, error_diag(pc, string_of("division by zero immediate")));
        }
        let ghost d1 = diags_view(diags@);
        let max: i32 = if cls == CLS_ALU32 {
            31
        } else {
            63
        };
        if (code == 0x6 || code == 0x7 || code == 0xc) && k && (insn.imm < 0 || insn.imm > max) {
            let mut m = string_of("shift amount ");
            push_int(&mut m, insn.imm as i128);
            push_str(&mut m, " outside 0\u{2013}");
            push_dec(&mut m, max as u64);
            push_diag(diags, warn_diag(pc, m));
        }
        assert(diags_view(diags@) =~= d0 + class_diags(insns@, pc));
    } else if cls == CLS_JMP {
        if insn.op == OP_CALL {
            if insn.imm as u32 != HELPER_LOG_U64 && insn.imm as u32 != HELPER_LOG_BYTES {
                let mut m = string_of("unknown helper function ");
                push_int(&mut m, insn.imm as i128);
                push_diag(diags, error_diag(pc, m));
            }
        } else if insn.op != OP_EXIT {
            let target: i128 = pc as i128 + 1 + insn.off as i128;
            if target < 0 || target >= insns.len() as i128 {
                let mut m = string_of("jump target ");
                push_int(&mut m, target);
                push_str(&mut m, " out of bounds");
                push_diag(diags, error_diag(pc, m));
            } else if is_upper_half(insns, target as usize) {
                push_diag(diags, error_diag(pc, string_of("jump into the middle of an lddw")));
            }
        }
        assert(diags_view(diags@) =~= d0 + class_diags(insns@, pc));
    } else if cls == CLS_ST || cls == CLS_STX {
        if insn.dst == 10 && insn.off >= 0 {
            push_diag(
                diags,
                warn_diag(pc, string_of("store at or above r10 \u{2014} the stack grows downward")),
            );
        }
        assert(diags_view(diags@) =~= d0 + class_diags(insns@, pc));
    } else {
        assert(diags_view(diags@) =~= d0 + class_diags(insns@, pc));
    }
}

/// Runs the static checks: an empty or too long program, unknown opcodes,
/// invalid registers, writes to r10, immediate division by zero, shift
/// amounts out of range, unknown helpers, jumps out of the program or into
/// an `lddw`, stores above r10, a missing `exit` and a last instruction that
/// lets execution fall off the end.
pub fn verify(insns: &[RawInsn]) -> (diags: Vec<Diag>)
    ensures
        diags_view(diags@) == verify_spec(insns@),
{
    let mut diags: Vec<Diag> = Vec::new();
    let n = insns.len();
    if n == 0 {
        push_diag(&mut diags, error_diag(0, string_of("empty program")));
        assert(diags_view(diags@) =~= verify_spec(insns@));
        return diags;
    }
    if n > MAX_INSNS {
        let mut m = string_of("program too long: ");
        push_dec(&mut m, n as u64);
        push_str(&mut m, " > 4096 instructions");
        push_diag(&mut diags, error_diag(0, m));
    }
    let ghost too_long = diags_view(diags@);
    let mut has_exit = false;
    let mut pc: usize = 0;
    while pc < n
        invariant
            n == insns@.len(),
            pc <= n,
            diags_view(diags@) == too_long + diags_upto(insns@, pc as nat),
            has_exit == exit_upto(insns@, pc as nat),
        decreases n - pc,
    {
        let ghost before = diags_view(diags@);
        if !is_upper_half(insns, pc) {
            let insn = insns[pc];
            proof {
                if insn.op == OP_EXIT {
                    let op = insn.op;
                    assert(op & 7u8 == 5u8) by (bit_vector)
                        requires
                            op == 0x95u8,
                    ;
                }
            }
            if !known_op(&insn) {
                let mut m = string_of("unknown or unsupported opcode 0x");
                push_hex2(&mut m, insn.op);
                push_diag(&mut diags, error_diag(pc, m));
            } else if insn.dst > 10 || insn.src > 10 {
                push_diag(
                    &mut diags,
                    error_diag(pc, string_of("invalid register (r0\u{2013}r10 exist)")),
                );
            } else {
                let cls = insn.class();
                let writes_dst = cls == CLS_ALU32 || cls == CLS_ALU64 || cls == CLS_LDX
                    || insn.is_wide();
                if writes_dst && insn.dst == 10 {
                    push_diag(
                        &mut diags,
                        error_diag(pc, string_of("r10 is the read-only frame pointer")),
                    );
                }
                check_class(insns, pc, &mut diags);
                if insn.op == OP_EXIT {
                    has_exit = true;
                }
            }
        }
        assert(diags_view(diags@) =~= before + diags_at(insns@, pc));
        pc = pc + 1;
    }
    if !has_exit {
        push_diag(&mut diags, error_diag(n - 1, string_of("program has no exit instruction")));
    }
    let last = insns[n - 1];
    if last.op != OP_EXIT && last.class() != CLS_JMP {
        push_diag(
            &mut diags,
            warn_diag(
                n - 1,
                string_of("last instruction is not exit/jump \u{2014} execution can fall off the end"),
            ),
        );
    }
    assert(diags_view(diags@) =~= verify_spec(insns@));
    diags
}

}
