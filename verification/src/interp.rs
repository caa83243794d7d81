//! The stepping eBPF interpreter. Memory model:
//!
//! - the packet (program input) is mapped at `PACKET_BASE`; r1 = base,
//!   r2 = length
//! - a 512-byte stack is mapped below `STACK_TOP`; r10 = `STACK_TOP` (it
//!   grows down)
//!
//! 64-bit ALU operations wrap; 32-bit operations zero-extend their result,
//! as the ISA specifies. `div`/`mod` by zero follow the modern rule: `div`
//! gives 0, `mod` leaves the destination unchanged.
use vstd::prelude::*;
use vstd::string::*;
use vstd::arithmetic::div_mod::lemma_div_denominator;
use crate::text::{dec, hex, hex2, int_dec, join_hex, push_char, push_dec, push_hex, push_hex2, push_int, push_str, string_of};
use crate::isa::{
    RawInsn, disasm, disasm_spec, mem_size, mem_size_spec, wide_value, CLS_ALU32, CLS_ALU64,
    CLS_JMP, CLS_LD, CLS_LDX, CLS_ST, CLS_STX, OP_CALL, OP_EXIT, SRC_X,
};

verus! {

/// Where the packet and the stack appear in the machine's address space,
/// and how many steps a run may take.
pub const PACKET_BASE: u64 = 0x1000_0000;
pub const STACK_SIZE: usize = 512;
pub const STACK_BASE: u64 = 0x2000_0000;
pub const STACK_TOP: u64 = 0x2000_0200;
pub const MAX_STEPS: u64 = 100_000;

/// Numbers of the helpers that `call` reaches.
pub const HELPER_LOG_U64: u32 = 0;
pub const HELPER_LOG_BYTES: u32 = 1;

/// Whether the machine still runs, or how it stopped.
#[derive(Debug, Clone)]
pub enum Status {
    Running,
    Exited(u64),
    Errored(String),
}

/// A `Status` as a mathematical value.
pub enum StatusView {
    Running,
    Exited(u64),
    Errored(Seq<char>),
}

impl View for Status {
    type V = StatusView;

    open spec fn view(&self) -> StatusView {
        match self {
            Status::Running => StatusView::Running,
            Status::Exited(v) => StatusView::Exited(*v),
            Status::Errored(m) => StatusView::Errored(m@),
        }
    }
}

impl PartialEq for Status {
    fn eq(&self, other: &Status) -> (r: bool) {
        let r = match self {
            Status::Running => match other {
                Status::Running => true,
                _ => false,
            },
            Status::Exited(a) => match other {
                Status::Exited(b) => *a == *b,
                _ => false,
            },
            Status::Errored(a) => match other {
                Status::Errored(b) => *a == *b,
                _ => false,
            },
        };
        r
    }
}

impl vstd::std_specs::cmp::PartialEqSpecImpl for Status {
    open spec fn obeys_eq_spec() -> bool {
        true
    }

    open spec fn eq_spec(&self, other: &Status) -> bool {
        self@ == other@
    }
}

/// What one step reports, for highlighting.
#[derive(Debug, Clone)]
pub struct StepInfo {
    pub pc: usize,
    pub assembly: String,
    /// (register, old value, new value)
    pub changed: Option<(u8, u64, u64)>,
    /// (address, size, value)
    pub mem_write: Option<(u64, u8, u64)>,
    pub log_line: Option<String>,
}

/// A `StepInfo` as a mathematical value.
pub struct StepReport {
    pub pc: usize,
    pub assembly: Seq<char>,
    pub changed: Option<(u8, u64, u64)>,
    pub mem_write: Option<(u64, u8, u64)>,
    pub log_line: Option<Seq<char>>,
}

impl View for StepInfo {
    type V = StepReport;

    open spec fn view(&self) -> StepReport {
        StepReport {
            pc: self.pc,
            assembly: self.assembly@,
            changed: self.changed,
            mem_write: self.mem_write,
            log_line: match self.log_line {
                Some(l) => Some(l@),
                None => None,
            },
        }
    }
}

/// The interpreter: program, registers r0 to r10, program counter, stack,
/// packet, helper log, step count and status.
pub struct Vm {
    pub insns: Vec<RawInsn>,
    pub regs: [u64; 11],
    pub pc: usize,
    pub stack: [u8; STACK_SIZE],
    pub packet: Vec<u8>,
    pub log: Vec<String>,
    pub steps: u64,
    pub status: Status,
}

/// A `Vm` as a mathematical value.
pub struct VmState {
    pub insns: Seq<RawInsn>,
    pub regs: Seq<u64>,
    pub pc: usize,
    pub stack: Seq<u8>,
    pub packet: Seq<u8>,
    pub log: Seq<Seq<char>>,
    pub steps: u64,
    pub status: StatusView,
}

impl View for Vm {
    type V = VmState;

    open spec fn view(&self) -> VmState {
        VmState {
            insns: self.insns@,
            regs: self.regs@,
            pc: self.pc,
            stack: self.stack@,
            packet: self.packet@,
            log: self.log@.map_values(|s: String| s@),
            steps: self.steps,
            status: self.status@,
        }
    }
}

// ---------------------------------------------------------------------------
// Memory
// ---------------------------------------------------------------------------

/// 256 to the power `n`.
pub open spec fn pow256(n: nat) -> nat
    decreases n,
{
    if n == 0 {
        1
    } else {
        256 * pow256((n - 1) as nat)
    }
}

/// The number that little-endian bytes denote.
pub open spec fn le_value(s: Seq<u8>) -> nat
    decreases s.len(),
{
    if s.len() == 0 {
        0
    } else {
        s[0] as nat + 256 * le_value(s.drop_first())
    }
}

/// The `n` low-order bytes of `v`, little-endian.
pub open spec fn le_bytes(v: nat, n: nat) -> Seq<u8> {
    Seq::new(n, |k: int| ((v / pow256(k as nat)) % 256) as u8)
}

/// `s` with `b` written over it from `start`.
pub open spec fn splice(s: Seq<u8>, start: int, b: Seq<u8>) -> Seq<u8> {
    s.take(start) + b + s.skip(start + b.len())
}

/// The limit that any machine holding a `Vm` meets: the packet's
/// addresses fit in 64 bits.
pub open spec fn fits_machine(m: VmState) -> bool {
    PACKET_BASE + m.packet.len() <= u64::MAX
}

/// Where `size` bytes at `addr` lie: in the packet (`true`) or in the
/// stack (`false`), and at which offset; `None` if in neither.
pub open spec fn region(m: VmState, addr: u64, size: nat) -> Option<(bool, int)> {
    if addr >= PACKET_BASE && addr + size <= PACKET_BASE + m.packet.len() {
        Some((true, addr - PACKET_BASE))
    } else if addr >= STACK_BASE && addr + size <= STACK_TOP {
        Some((false, addr - STACK_BASE))
    } else {
        None
    }
}

/// The message of a read outside both regions.
pub open spec fn read_error(m: VmState, addr: u64, size: u8) -> Seq<char> {
    "invalid memory access: "@ + dec(size as nat) + " byte(s) at 0x"@ + hex(addr as nat)
        + " (packet is 0x10000000..0x"@ + hex((PACKET_BASE + m.packet.len()) as nat)
        + ", stack 0x20000000..0x20000200)"@
}

/// The message of a write outside both regions.
pub open spec fn write_error(addr: u64, size: u8) -> Seq<char> {
    "invalid memory write: "@ + dec(size as nat) + " byte(s) at 0x"@ + hex(addr as nat)
}

/// What a little-endian read of `size` bytes at `addr` gives.
pub open spec fn load_spec(m: VmState, addr: u64, size: u8) -> Result<u64, Seq<char>> {
    match region(m, addr, size as nat) {
        Some((true, start)) => Ok(le_value(m.packet.subrange(start, start + size)) as u64),
        Some((false, start)) => Ok(le_value(m.stack.subrange(start, start + size)) as u64),
        None => Err(read_error(m, addr, size)),
    }
}

/// The state after a little-endian write of the `size` low bytes of
/// `value` at `addr`.
pub open spec fn store_spec(m: VmState, addr: u64, size: u8, value: u64) -> Result<
    VmState,
    Seq<char>,
> {
    match region(m, addr, size as nat) {
        Some((true, start)) => Ok(
            VmState { packet: splice(m.packet, start, le_bytes(value as nat, size as nat)), ..m },
        ),
        Some((false, start)) => Ok(
            VmState { stack: splice(m.stack, start, le_bytes(value as nat, size as nat)), ..m },
        ),
        None => Err(write_error(addr, size)),
    }
}

/// Little-endian bytes denote less than 256 to the power of their count.
pub proof fn lemma_le_value_bound(s: Seq<u8>)
    ensures
        le_value(s) < pow256(s.len()),
    decreases s.len(),
{
    if s.len() > 0 {
        lemma_le_value_bound(s.drop_first());
        let r = le_value(s.drop_first());
        let p = pow256(s.drop_first().len());
        assert(s[0] as nat + 256 * r < 256 * p) by (nonlinear_arith)
            requires
                r < p,
                s[0] < 256,
        ;
    }
}

/// Reading back the bytes of a write gives the written value, cut to the
/// width of the write.
pub proof fn lemma_le_value_bytes(v: nat, n: nat)
    ensures
        le_value(le_bytes(v, n)) == v % pow256(n),
    decreases n,
{
    if n == 0 {
        assert(v % 1 == 0);
    } else {
        lemma_le_value_bytes(v / 256, (n - 1) as nat);
        let b = le_bytes(v, n);
        assert forall|k: int| 0 <= k < n - 1 implies #[trigger] b.drop_first()[k] == le_bytes(
            v / 256,
            (n - 1) as nat,
        )[k] by {
            lemma_pow256_pos((k + 1) as nat);
            lemma_pow256_pos(k as nat);
            lemma_div_denominator(v as int, 256, pow256(k as nat) as int);
        }
        assert(b.drop_first() =~= le_bytes(v / 256, (n - 1) as nat));
        lemma_pow256_pos((n - 1) as nat);
        vstd::arithmetic::div_mod::lemma_mod_breakdown(v as int, 256, pow256((n - 1) as nat) as int);
        assert(pow256(0) == 1);
        assert(v / 1 == v);
        assert(b[0] == (v % 256) as u8);
    }
}

/// 256 to a power is positive.
pub proof fn lemma_pow256_pos(n: nat)
    ensures
        pow256(n) > 0,
    decreases n,
{
    if n > 0 {
        lemma_pow256_pos((n - 1) as nat);
    }
}

proof fn lemma_pow256_values()
    ensures
        pow256(0) == 1,
        pow256(1) == 0x100,
        pow256(2) == 0x1_0000,
        pow256(3) == 0x100_0000,
        pow256(4) == 0x1_0000_0000,
        pow256(5) == 0x100_0000_0000,
        pow256(6) == 0x1_0000_0000_0000,
        pow256(7) == 0x100_0000_0000_0000,
        pow256(8) == 0x1_0000_0000_0000_0000,
{
    reveal_with_fuel(pow256, 9);
}

proof fn lemma_pow256_mono(a: nat, b: nat)
    requires
        a <= b,
    ensures
        pow256(a) <= pow256(b),
    decreases b,
{
    if a < b {
        lemma_pow256_mono(a, (b - 1) as nat);
    }
}

impl Vm {
    /// Where `size` bytes at `addr` lie: in the packet (`true`) or the stack
    /// (`false`), and at which offset.
    fn mem_slice(&self, addr: u64, size: u8) -> (r: Option<(bool, usize)>)
        requires
            fits_machine(self@),
        ensures
            match r {
                Some((p, start)) => region(self@, addr, size as nat) == Some((p, start as int)),
                None => region(self@, addr, size as nat) is None,
            },
    {
        let end: u128 = addr as u128 + size as u128;
        if addr >= PACKET_BASE && end <= PACKET_BASE as u128 + self.packet.len() as u128 {
            Some((true, (addr - PACKET_BASE) as usize))
        } else if addr >= STACK_BASE && end <= STACK_TOP as u128 {
            Some((false, (addr - STACK_BASE) as usize))
        } else {
            None
        }
    }

    /// Reads `size` bytes (1, 2, 4 or 8) at `addr`, little-endian.
    fn load(&self, addr: u64, size: u8) -> (r: Result<u64, String>)
        requires
            fits_machine(self@),
            size == 1 || size == 2 || size == 4 || size == 8,
        ensures
            match r {
                Ok(v) => load_spec(self@, addr, size) == Ok::<u64, Seq<char>>(v),
                Err(e) => load_spec(self@, addr, size) == Err::<u64, Seq<char>>(e@),
            },
    {
        match self.mem_slice(addr, size) {
            Some((in_packet, start)) => {
                let ghost mem = if in_packet {
                    self.packet@
                } else {
                    self.stack@
                };
                let ghost s = mem.subrange(start as int, start + size);
                let n = size as usize;
                let plen = self.packet.len();
                let mut acc: u64 = 0;
                let mut i: usize = n;
                proof {
                    lemma_pow256_values();
                    assert(s.subrange(n as int, n as int) =~= Seq::<u8>::empty());
                }
                while i > 0
                    invariant
                        i <= n,
                        n == size,
                        plen == self.packet@.len(),
                        size == 1 || size == 2 || size == 4 || size == 8,
                        start + n <= mem.len(),
                        mem == (if in_packet {
                            self.packet@
                        } else {
                            self.stack@
                        }),
                        s == mem.subrange(start as int, start + n),
                        acc as nat == le_value(s.subrange(i as int, n as int)),
                        acc < pow256((n - i) as nat),
                        pow256(8) == 0x1_0000_0000_0000_0000,
                    decreases i,
                {
                    i = i - 1;
                    let b: u8 = if in_packet {
                        self.packet[start + i]
                    } else {
                        self.stack[start + i]
                    };
                    assert(b == s[i as int]);
                    proof {
                        lemma_pow256_mono((n - i) as nat, 8);
                        assert(acc * 256 + b < pow256((n - i) as nat)) by (nonlinear_arith)
                            requires
                                acc < pow256((n - i - 1) as nat),
                                b < 256,
                                pow256((n - i) as nat) == 256 * pow256((n - i - 1) as nat),
                        ;
                        assert(s.subrange(i as int, n as int).drop_first() =~= s.subrange(
                            i + 1,
                            n as int,
                        ));
                    }
                    acc = acc * 256 + b as u64;
                }
                assert(s.subrange(0, n as int) =~= s);
                Ok(acc)
            },
            None => {
                let mut e = string_of("invalid memory access: ");
                push_dec(&mut e, size as u64);
                push_str(&mut e, " byte(s) at 0x");
                push_hex(&mut e, addr);
                push_str(&mut e, " (packet is 0x10000000..0x");
                push_hex(&mut e, PACKET_BASE + self.packet.len() as u64);
                push_str(&mut e, ", stack 0x20000000..0x20000200)");
                Err(e)
            },
        }
    }

    /// Writes the `size` low bytes of `value` at `addr`, little-endian.
    fn store(&mut self, addr: u64, size: u8, value: u64) -> (r: Result<(), String>)
        requires
            fits_machine(old(self)@),
            size == 1 || size == 2 || size == 4 || size == 8,
        ensures
            match r {
                Ok(()) => store_spec(old(self)@, addr, size, value) == Ok::<VmState, Seq<char>>(
                    final(self)@,
                ),
                Err(e) => store_spec(old(self)@, addr, size, value) == Err::<VmState, Seq<char>>(
                    e@,
                ) && final(self)@ == old(self)@,
            },
    {
        match self.mem_slice(addr, size) {
            Some((in_packet, start)) => {
                let ghost old_packet = self.packet@;
                let ghost old_stack = self.stack@;
                let ghost bytes = le_bytes(value as nat, size as nat);
                let n = size as usize;
                let plen = self.packet.len();
                let mut w: u64 = value;
                let mut i: usize = 0;
                proof {
                    lemma_pow256_values();
                }
                while i < n
                    invariant
                        i <= n,
                        n == size,
                        plen == self.packet@.len(),
                        bytes == le_bytes(value as nat, size as nat),
                        in_packet ==> start + n <= old_packet.len(),
                        !in_packet ==> start + n <= old_stack.len(),
                        self.insns == old(self).insns,
                        self.regs == old(self).regs,
                        self.pc == old(self).pc,
                        self.log == old(self).log,
                        self.steps == old(self).steps,
                        self.status == old(self).status,
                        in_packet ==> self.stack@ == old_stack,
                        !in_packet ==> self.packet@ == old_packet,
                        in_packet ==> self.packet@ == splice(
                            old_packet,
                            start as int,
                            bytes.take(i as int),
                        ),
                        !in_packet ==> self.stack@ == splice(
                            old_stack,
                            start as int,
                            bytes.take(i as int),
                        ),
                        w as nat == value as nat / pow256(i as nat),
                    decreases n - i,
                {
                    let b = (w % 256) as u8;
                    assert(b == bytes[i as int]);
                    if in_packet {
                        self.packet[start + i] = b;
                        assert(self.packet@ =~= splice(
                            old_packet,
                            start as int,
                            bytes.take(i + 1),
                        ));
                    } else {
                        self.stack[start + i] = b;
                        assert(self.stack@ =~= splice(old_stack, start as int, bytes.take(i + 1)));
                    }
                    proof {
                        lemma_pow256_pos(i as nat);
                        lemma_div_denominator(value as int, pow256(i as nat) as int, 256);
                        assert(pow256(i as nat) * 256 == pow256((i + 1) as nat)) by (
                        nonlinear_arith)
                            requires
                                pow256((i + 1) as nat) == 256 * pow256(i as nat),
                        ;
                    }
                    w = w / 256;
                    i = i + 1;
                }
                assert(bytes.take(n as int) =~= bytes);
                Ok(())
            },
            None => {
                let mut e = string_of("invalid memory write: ");
                push_dec(&mut e, size as u64);
                push_str(&mut e, " byte(s) at 0x");
                push_hex(&mut e, addr);
                Err(e)
            },
        }
    }
}


// ---------------------------------------------------------------------------
// ALU, helpers and jumps
// ---------------------------------------------------------------------------

/// A 32-bit ALU operation; `None` for an unknown operation code.
pub open spec fn alu32_spec(code: u8, d: u32, s: u32) -> Option<u32> {
    if code == 0x0 {
        Some(d.wrapping_add(s))
    } else if code == 0x1 {
        Some(d.wrapping_sub(s))
    } else if code == 0x2 {
        Some(d.wrapping_mul(s))
    } else if code == 0x3 {
        Some(if s == 0 { 0 } else { d / s })
    } else if code == 0x4 {
        Some(d | s)
    } else if code == 0x5 {
        Some(d & s)
    } else if code == 0x6 {
        Some(d.wrapping_shl(s & 31))
    } else if code == 0x7 {
        Some(d.wrapping_shr(s & 31))
    } else if code == 0x8 {
        Some(0u32.wrapping_sub(d))
    } else if code == 0x9 {
        Some(if s == 0 { d } else { d % s })
    } else if code == 0xa {
        Some(d ^ s)
    } else if code == 0xb {
        Some(s)
    } else if code == 0xc {
        Some(((d as i32).wrapping_shr(s & 31)) as u32)
    } else {
        None
    }
}

/// A 64-bit ALU operation; `None` for an unknown operation code.
pub open spec fn alu64_spec(code: u8, d: u64, s: u64) -> Option<u64> {
    if code == 0x0 {
        Some(d.wrapping_add(s))
    } else if code == 0x1 {
        Some(d.wrapping_sub(s))
    } else if code == 0x2 {
        Some(d.wrapping_mul(s))
    } else if code == 0x3 {
        Some(if s == 0 { 0 } else { d / s })
    } else if code == 0x4 {
        Some(d | s)
    } else if code == 0x5 {
        Some(d & s)
    } else if code == 0x6 {
        Some(d.wrapping_shl((s as u32) & 63))
    } else if code == 0x7 {
        Some(d.wrapping_shr((s as u32) & 63))
    } else if code == 0x8 {
        Some(0u64.wrapping_sub(d))
    } else if code == 0x9 {
        Some(if s == 0 { d } else { d % s })
    } else if code == 0xa {
        Some(d ^ s)
    } else if code == 0xb {
        Some(s)
    } else if code == 0xc {
        Some(((d as i64).wrapping_shr((s as u32) & 63)) as u64)
    } else {
        None
    }
}

/// The result of an ALU instruction on destination value `dst` and operand
/// `operand`: 32-bit operations work on the low halves and zero-extend.
pub open spec fn alu_spec(code: u8, dst: u64, operand: u64, is32: bool) -> Result<u64, Seq<char>> {
    if is32 {
        match alu32_spec(code, dst as u32, operand as u32) {
            Some(r) => Ok(r as u64),
            None => Err("unsupported alu32 op 0x"@ + hex(code as nat)),
        }
    } else {
        match alu64_spec(code, dst, operand) {
            Some(r) => Ok(r),
            None => Err("unsupported alu op 0x"@ + hex(code as nat)),
        }
    }
}

/// Whether a conditional jump is taken; `None` for an unknown jump code.
pub open spec fn jump_taken(code: u8, dst: u64, operand: u64) -> Option<bool> {
    if code == 0x0 {
        Some(true)
    } else if code == 0x1 {
        Some(dst == operand)
    } else if code == 0x2 {
        Some(dst > operand)
    } else if code == 0x3 {
        Some(dst >= operand)
    } else if code == 0x4 {
        Some(dst & operand != 0)
    } else if code == 0x5 {
        Some(dst != operand)
    } else if code == 0x6 {
        Some((dst as i64) > (operand as i64))
    } else if code == 0x7 {
        Some((dst as i64) >= (operand as i64))
    } else if code == 0xa {
        Some(dst < operand)
    } else if code == 0xb {
        Some(dst <= operand)
    } else if code == 0xc {
        Some((dst as i64) < (operand as i64))
    } else if code == 0xd {
        Some((dst as i64) <= (operand as i64))
    } else {
        None
    }
}

/// The `n` bytes at `ptr` onward, read one at a time (addresses wrap), or
/// the error of the first read that fails.
pub open spec fn read_bytes(m: VmState, ptr: u64, n: nat) -> Result<Seq<u8>, Seq<char>>
    decreases n,
{
    if n == 0 {
        Ok(Seq::empty())
    } else {
        match read_bytes(m, ptr, (n - 1) as nat) {
            Err(e) => Err(e),
            Ok(bs) => match load_spec(m, ptr.wrapping_add((n - 1) as u64), 1) {
                Ok(b) => Ok(bs.push(b as u8)),
                Err(e) => Err(e),
            },
        }
    }
}

/// The log line of a helper call, or its error: helper 0 logs r1, helper 1
/// logs up to 64 bytes at r1 (count in r2).
pub open spec fn helper_spec(m: VmState, id: u32) -> Result<Seq<char>, Seq<char>> {
    if id == HELPER_LOG_U64 {
        let v = m.regs[1];
        Ok("log_u64(r1) \u{2192} "@ + dec(v as nat) + " (0x"@ + hex(v as nat) + seq![')'])
    } else if id == HELPER_LOG_BYTES {
        let len = if m.regs[2] < 64 {
            m.regs[2]
        } else {
            64
        };
        match read_bytes(m, m.regs[1], len as nat) {
            Ok(bs) => Ok("log_bytes(r1, r2) \u{2192} ["@ + join_hex(bs) + seq![']']),
            Err(e) => Err(e),
        }
    } else {
        Err("unknown helper "@ + dec(id as nat))
    }
}

/// Once a read fails, reading more bytes fails with the same error.
proof fn lemma_read_bytes_err(m: VmState, ptr: u64, k: nat, n: nat)
    requires
        k <= n,
        read_bytes(m, ptr, k) is Err,
    ensures
        read_bytes(m, ptr, n) == read_bytes(m, ptr, k),
    decreases n,
{
    if k < n {
        lemma_read_bytes_err(m, ptr, k, (n - 1) as nat);
    }
}

impl Vm {
    /// An ALU operation on destination value `dst` and `operand`.
    fn alu(&self, code: u8, dst: u64, operand: u64, is32: bool) -> (r: Result<u64, String>)
        ensures
            match r {
                Ok(v) => alu_spec(code, dst, operand, is32) == Ok::<u64, Seq<char>>(v),
                Err(e) => alu_spec(code, dst, operand, is32) == Err::<u64, Seq<char>>(e@),
            },
    {
        if is32 {
            let d = dst as u32;
            let s = operand as u32;
            let v: u32 = if code == 0x0 {
                d.wrapping_add(s)
            } else if code == 0x1 {
                d.wrapping_sub(s)
            } else if code == 0x2 {
                d.wrapping_mul(s)
            } else if code == 0x3 {
                if s == 0 {
                    0
                } else {
                    d / s
                }
            } else if code == 0x4 {
                d | s
            } else if code == 0x5 {
                d & s
            } else if code == 0x6 {
                d.wrapping_shl(s & 31)
            } else if code == 0x7 {
                d.wrapping_shr(s & 31)
            } else if code == 0x8 {
                0u32.wrapping_sub(d)
            } else if code == 0x9 {
                if s == 0 {
                    d
                } else {
                    d % s
                }
            } else if code == 0xa {
                d ^ s
            } else if code == 0xb {
                s
            } else if code == 0xc {
                ((d as i32).wrapping_shr(s & 31)) as u32
            } else {
                let mut e = string_of("unsupported alu32 op 0x");
                push_hex(&mut e, code as u64);
                return Err(e);
            };
            Ok(v as u64)
        } else {
            let d = dst;
            let s = operand;
            let v: u64 = if code == 0x0 {
                d.wrapping_add(s)
            } else if code == 0x1 {
                d.wrapping_sub(s)
            } else if code == 0x2 {
                d.wrapping_mul(s)
            } else if code == 0x3 {
                if s == 0 {
                    0
                } else {
                    d / s
                }
            } else if code == 0x4 {
                d | s
            } else if code == 0x5 {
                d & s
            } else if code == 0x6 {
                d.wrapping_shl((s as u32) & 63)
            } else if code == 0x7 {
                d.wrapping_shr((s as u32) & 63)
            } else if code == 0x8 {
                0u64.wrapping_sub(d)
            } else if code == 0x9 {
                if s == 0 {
                    d
                } else {
                    d % s
                }
            } else if code == 0xa {
                d ^ s
            } else if code == 0xb {
                s
            } else if code == 0xc {
                ((d as i64).wrapping_shr((s as u32) & 63)) as u64
            } else {
                let mut e = string_of("unsupported alu op 0x");
                push_hex(&mut e, code as u64);
                return Err(e);
            };
            Ok(v)
        }
    }

    /// Runs a helper: returns its log line.
    fn call_helper(&mut self, id: u32) -> (r: Result<String, String>)
        requires
            fits_machine(old(self)@),
        ensures
            final(self)@ == old(self)@,
            match r {
                Ok(l) => helper_spec(old(self)@, id) == Ok::<Seq<char>, Seq<char>>(l@),
                Err(e) => helper_spec(old(self)@, id) == Err::<Seq<char>, Seq<char>>(e@),
            },
    {
        if id == HELPER_LOG_U64 {
            let v = self.regs[1];
            let mut l = string_of("log_u64(r1) \u{2192} ");
            push_dec(&mut l, v);
            push_str(&mut l, " (0x");
            push_hex(&mut l, v);
            push_char(&mut l, ')');
            assert(l@ =~= "log_u64(r1) \u{2192} "@ + dec(v as nat) + " (0x"@ + hex(v as nat) + seq![
                ')',
            ]);
            Ok(l)
        } else if id == HELPER_LOG_BYTES {
            let ptr = self.regs[1];
            let len: u64 = if self.regs[2] < 64 {
                self.regs[2]
            } else {
                64
            };
            let mut l = string_of("log_bytes(r1, r2) \u{2192} [");
            let ghost l0 = l@;
            let ghost mut bs: Seq<u8> = Seq::empty();
            let mut i: u64 = 0;
            while i < len
                invariant
                    i <= len,
                    len <= 64,
                    ptr == self.regs[1],
                    id == HELPER_LOG_BYTES,
                    len == (if self.regs[2] < 64 {
                        self.regs[2]
                    } else {
                        64
                    }),
                    self@ == old(self)@,
                    fits_machine(self@),
                    read_bytes(self@, ptr, i as nat) == Ok::<Seq<u8>, Seq<char>>(bs),
                    bs.len() == i,
                    l@ == l0 + join_hex(bs),
                decreases len - i,
            {
                let b = match self.load(ptr.wrapping_add(i), 1) {
                    Ok(v) => v as u8,
                    Err(e) => {
                        proof {
                            assert(((i + 1) as nat - 1) as u64 == i);
                            lemma_read_bytes_err(self@, ptr, (i + 1) as nat, len as nat);
                        }
                        return Err(e);
                    },
                };
                if i > 0 {
                    push_char(&mut l, ' ');
                }
                push_hex2(&mut l, b);
                proof {
                    let nbs = bs.push(b);
                    assert(nbs.drop_last() =~= bs);
                    bs = nbs;
                    if i == 0 {
                        assert(l@ =~= l0 + join_hex(bs));
                    } else {
                        assert(l@ =~= l0 + join_hex(bs));
                    }
                }
                i = i + 1;
            }
            push_char(&mut l, ']');
            assert(l@ =~= "log_bytes(r1, r2) \u{2192} ["@ + join_hex(bs) + seq![']']);
            Ok(l)
        } else {
            let mut e = string_of("unknown helper ");
            push_dec(&mut e, id as u64);
            Err(e)
        }
    }
}


// ---------------------------------------------------------------------------
// Stepping
// ---------------------------------------------------------------------------

/// What executing one instruction does, when it succeeds: the new state,
/// the next program counter and what to report.
pub struct Effect {
    pub state: VmState,
    pub next: int,
    pub changed: Option<(u8, u64, u64)>,
    pub mem_write: Option<(u64, u8, u64)>,
    pub log_line: Option<Seq<char>>,
}

/// Whether `r` names one of the registers r0 to r10.
pub open spec fn reg_ok(r: u8) -> bool {
    r <= 10
}

/// The second operand: the source register or the sign-extended immediate.
pub open spec fn operand_spec(m: VmState, i: RawInsn) -> u64 {
    if i.op & SRC_X != 0 {
        m.regs[i.src as int]
    } else {
        (i.imm as i64) as u64
    }
}

/// The registers after a helper call: r0 to r5 cleared.
pub open spec fn clear_r0_r5(regs: Seq<u64>) -> Seq<u64> {
    Seq::new(regs.len(), |k: int| if k <= 5 { 0u64 } else { regs[k] })
}

/// The effect of executing `i` at `m.pc`, or the error that stops the
/// machine.
pub open spec fn exec_spec(m: VmState, i: RawInsn) -> Result<Effect, Seq<char>> {
    let pc = m.pc as int;
    let cls = i.cls();
    let plain = Effect { state: m, next: pc + 1, changed: None, mem_write: None, log_line: None };
    if cls == CLS_ALU64 || cls == CLS_ALU32 {
        let prev = m.regs[i.dst as int];
        match alu_spec(i.op >> 4u8, prev, operand_spec(m, i), cls == CLS_ALU32) {
            Ok(v) => Ok(
                Effect {
                    state: VmState { regs: m.regs.update(i.dst as int, v), ..m },
                    changed: Some((i.dst, prev, v)),
                    ..plain
                },
            ),
            Err(e) => Err(e),
        }
    } else if cls == CLS_LD && i.wide() {
        let v = wide_value(i.imm, m.insns[pc + 1].imm);
        let prev = m.regs[i.dst as int];
        Ok(
            Effect {
                state: VmState { regs: m.regs.update(i.dst as int, v), ..m },
                next: pc + 2,
                changed: Some((i.dst, prev, v)),
                ..plain
            },
        )
    } else if cls == CLS_LDX {
        let addr = m.regs[i.src as int].wrapping_add((i.off as i64) as u64);
        match load_spec(m, addr, mem_size_spec(i.op)) {
            Ok(v) => {
                let prev = m.regs[i.dst as int];
                Ok(
                    Effect {
                        state: VmState { regs: m.regs.update(i.dst as int, v), ..m },
                        changed: Some((i.dst, prev, v)),
                        ..plain
                    },
                )
            },
            Err(e) => Err(e),
        }
    } else if cls == CLS_ST || cls == CLS_STX {
        let addr = m.regs[i.dst as int].wrapping_add((i.off as i64) as u64);
        let size = mem_size_spec(i.op);
        let value = if cls == CLS_STX {
            m.regs[i.src as int]
        } else {
            (i.imm as i64) as u64
        };
        match store_spec(m, addr, size, value) {
            Ok(m2) => Ok(Effect { state: m2, mem_write: Some((addr, size, value)), ..plain }),
            Err(e) => Err(e),
        }
    } else if cls == CLS_JMP {
        if i.op == OP_EXIT {
            Ok(Effect { state: VmState { status: StatusView::Exited(m.regs[0]), ..m }, ..plain })
        } else if i.op == OP_CALL {
            match helper_spec(m, i.imm as u32) {
                Ok(line) => Ok(
                    Effect {
                        state: VmState { log: m.log.push(line), regs: clear_r0_r5(m.regs), ..m },
                        changed: Some((0u8, m.regs[0], 0u64)),
                        log_line: Some(line),
                        ..plain
                    },
                ),
                Err(e) => Err(e),
            }
        } else {
            let code = i.op >> 4u8;
            match jump_taken(code, m.regs[i.dst as int], operand_spec(m, i)) {
                None => Err("unsupported jump op 0x"@ + hex(code as nat)),
                Some(taken) => {
                    let target = pc + 1 + i.off;
                    if !taken {
                        Ok(plain)
                    } else if target < 0 || target > m.insns.len() {
                        Err("jump target "@ + int_dec(target) + " out of bounds"@)
                    } else {
                        Ok(Effect { next: target, ..plain })
                    }
                },
            }
        }
    } else {
        Err("unsupported opcode 0x"@ + hex2(i.op))
    }
}

/// The registers that executing `i` reads or writes are r0 to r10, and an
/// `lddw` has its second slot (the conditions under which executing `i`
/// never indexes out of bounds).
pub open spec fn insn_safe(m: VmState, i: RawInsn) -> bool {
    let cls = i.cls();
    let x = i.op & SRC_X != 0;
    if cls == CLS_ALU64 || cls == CLS_ALU32 {
        reg_ok(i.dst) && (x ==> reg_ok(i.src))
    } else if cls == CLS_LD && i.wide() {
        m.pc + 1 < m.insns.len() && reg_ok(i.dst)
    } else if cls == CLS_LDX {
        &&& reg_ok(i.src)
        &&& load_spec(
            m,
            m.regs[i.src as int].wrapping_add((i.off as i64) as u64),
            mem_size_spec(i.op),
        ) is Ok ==> reg_ok(i.dst)
    } else if cls == CLS_ST {
        reg_ok(i.dst)
    } else if cls == CLS_STX {
        reg_ok(i.dst) && reg_ok(i.src)
    } else if cls == CLS_JMP && i.op != OP_EXIT && i.op != OP_CALL {
        reg_ok(i.dst) && (x ==> reg_ok(i.src))
    } else {
        true
    }
}

/// The states on which one step is defined: within the machine's limits,
/// the step counter does not overflow, and the instruction about to run
/// stays in bounds.
pub open spec fn step_safe(m: VmState) -> bool {
    &&& fits_machine(m)
    &&& (m.status is Running && m.pc < m.insns.len()) ==> {
        &&& m.steps < u64::MAX
        &&& m.steps + 1 <= MAX_STEPS ==> insn_safe(m, m.insns[m.pc as int])
    }
}

/// The state after one step, and what the step reports.
pub open spec fn step_spec(m: VmState) -> (VmState, StepReport) {
    let info0 = StepReport {
        pc: m.pc,
        assembly: Seq::empty(),
        changed: None,
        mem_write: None,
        log_line: None,
    };
    if !(m.status is Running) {
        (m, info0)
    } else if m.pc >= m.insns.len() {
        (
            VmState {
                status: StatusView::Errored("execution fell off the end of the program"@),
                ..m
            },
            info0,
        )
    } else if m.steps + 1 > MAX_STEPS {
        (
            VmState {
                steps: (m.steps + 1) as u64,
                status: StatusView::Errored("instruction budget exceeded (100000)"@),
                ..m
            },
            info0,
        )
    } else {
        let m1 = VmState { steps: (m.steps + 1) as u64, ..m };
        let info1 = StepReport { assembly: disasm_spec(m.insns, m.pc as int), ..info0 };
        match exec_spec(m1, m.insns[m.pc as int]) {
            Ok(e) => (
                if e.state.status is Running {
                    VmState { pc: e.next as usize, ..e.state }
                } else {
                    e.state
                },
                StepReport {
                    changed: e.changed,
                    mem_write: e.mem_write,
                    log_line: e.log_line,
                    ..info1
                },
            ),
            Err(msg) => (VmState { status: StatusView::Errored(msg), ..m1 }, info1),
        }
    }
}

/// An optional string as an optional sequence of characters.
pub open spec fn opt_chars(o: Option<String>) -> Option<Seq<char>> {
    match o {
        Some(s) => Some(s@),
        None => None,
    }
}

impl Vm {
    /// Executes `insn`, the instruction at `pc`; returns the next program
    /// counter and what to report.
    fn execute(&mut self, insn: RawInsn, pc: usize) -> (r: Result<
        (usize, Option<(u8, u64, u64)>, Option<(u64, u8, u64)>, Option<String>),
        String,
    >)
        requires
            old(self)@.pc == pc,
            pc < old(self)@.insns.len(),
            insn == old(self)@.insns[pc as int],
            fits_machine(old(self)@),
            insn_safe(old(self)@, insn),
        ensures
            match r {
                Ok((next, changed, mem_write, log_line)) => exec_spec(old(self)@, insn) == Ok::<
                    Effect,
                    Seq<char>,
                >(
                    Effect {
                        state: final(self)@,
                        next: next as int,
                        changed,
                        mem_write,
                        log_line: opt_chars(log_line),
                    },
                ),
                Err(e) => exec_spec(old(self)@, insn) == Err::<Effect, Seq<char>>(e@)
                    && final(self)@ == old(self)@,
            },
    {
        let cls = insn.class();
        let x = insn.op & SRC_X != 0;
        let n = self.insns.len();
        assert(pc < n);
        if cls == CLS_ALU64 || cls == CLS_ALU32 {
            let is32 = cls == CLS_ALU32;
            let operand = if x {
                self.regs[insn.src as usize]
            } else {
                insn.imm as i64 as u64
            };
            let prev = self.regs[insn.dst as usize];
            let new = match self.alu(insn.op >> 4u8, prev, operand, is32) {
                Ok(v) => v,
                Err(e) => {
                    return Err(e);
                },
            };
            self.regs[insn.dst as usize] = new;
            assert(self.regs@ =~= old(self).regs@.update(insn.dst as int, new));
            Ok((pc + 1, Some((insn.dst, prev, new)), None, None))
        } else if cls == CLS_LD && insn.is_wide() {
            let hi = self.insns[pc + 1].imm;
            let value: u64 = ((insn.imm as u32) as u64) | (((hi as u32) as u64) << 32u64);
            let prev = self.regs[insn.dst as usize];
            self.regs[insn.dst as usize] = value;
            assert(self.regs@ =~= old(self).regs@.update(insn.dst as int, value));
            Ok((pc + 2, Some((insn.dst, prev, value)), None, None))
        } else if cls == CLS_LDX {
            let addr = self.regs[insn.src as usize].wrapping_add(insn.off as i64 as u64);
            let size = mem_size(insn.op);
            let value = match self.load(addr, size) {
                Ok(v) => v,
                Err(e) => {
                    return Err(e);
                },
            };
            let prev = self.regs[insn.dst as usize];
            self.regs[insn.dst as usize] = value;
            assert(self.regs@ =~= old(self).regs@.update(insn.dst as int, value));
            Ok((pc + 1, Some((insn.dst, prev, value)), None, None))
        } else if cls == CLS_ST || cls == CLS_STX {
            let addr = self.regs[insn.dst as usize].wrapping_add(insn.off as i64 as u64);
            let size = mem_size(insn.op);
            let value = if cls == CLS_STX {
                self.regs[insn.src as usize]
            } else {
                insn.imm as i64 as u64
            };
            match self.store(addr, size, value) {
                Ok(()) => {},
                Err(e) => {
                    return Err(e);
                },
            }
            Ok((pc + 1, None, Some((addr, size, value)), None))
        } else if cls == CLS_JMP {
            if insn.op == OP_EXIT {
                self.status = Status::Exited(self.regs[0]);
                Ok((pc + 1, None, None, None))
            } else if insn.op == OP_CALL {
                let line = match self.call_helper(insn.imm as u32) {
                    Ok(l) => l,
                    Err(e) => {
                        return Err(e);
                    },
                };
                let ghost old_log = self.log@;
                self.log.push(line.clone());
                assert(self.log@.map_values(|s: String| s@) =~= old_log.map_values(
                    |s: String| s@,
                ).push(line@));
                let prev = self.regs[0];
                self.regs[0] = 0;
                self.regs[1] = 0;
                self.regs[2] = 0;
                self.regs[3] = 0;
                self.regs[4] = 0;
                self.regs[5] = 0;
                assert(self.regs@ =~= clear_r0_r5(old(self).regs@));
                Ok((pc + 1, Some((0u8, prev, 0u64)), None, Some(line)))
            } else {
                let dst = self.regs[insn.dst as usize];
                let operand = if x {
                    self.regs[insn.src as usize]
                } else {
                    insn.imm as i64 as u64
                };
                let code = insn.op >> 4u8;
                let take = if code == 0x0 {
                    true
                } else if code == 0x1 {
                    dst == operand
                } else if code == 0x2 {
                    dst > operand
                } else if code == 0x3 {
                    dst >= operand
                } else if code == 0x4 {
                    dst & operand != 0
                } else if code == 0x5 {
                    dst != operand
                } else if code == 0x6 {
                    (dst as i64) > (operand as i64)
                } else if code == 0x7 {
                    (dst as i64) >= (operand as i64)
                } else if code == 0xa {
                    dst < operand
                } else if code == 0xb {
                    dst <= operand
                } else if code == 0xc {
                    (dst as i64) < (operand as i64)
                } else if code == 0xd {
                    (dst as i64) <= (operand as i64)
                } else {
                    let mut e = string_of("unsupported jump op 0x");
                    push_hex(&mut e, code as u64);
                    return Err(e);
                };
                if take {
                    let target: i128 = pc as i128 + 1 + insn.off as i128;
                    if target < 0 || target > n as i128 {
                        let mut e = string_of("jump target ");
                        push_int(&mut e, target);
                        push_str(&mut e, " out of bounds");
                        return Err(e);
                    }
                    Ok((target as usize, None, None, None))
                } else {
                    Ok((pc + 1, None, None, None))
                }
            }
        } else {
            let mut e = string_of("unsupported opcode 0x");
            push_hex2(&mut e, insn.op);
            Err(e)
        }
    }

    /// Executes one instruction, unless the machine has stopped; a failing
    /// instruction stops it with an error status.
    pub fn step(&mut self) -> (info: StepInfo)
        requires
            step_safe(old(self)@),
        ensures
            (final(self)@, info@) == step_spec(old(self)@),
    {
        let pc = self.pc;
        let mut info = StepInfo {
            pc,
            assembly: String::new(),
            changed: None,
            mem_write: None,
            log_line: None,
        };
        match self.status {
            Status::Running => {},
            _ => {
                return info;
            },
        }
        if pc >= self.insns.len() {
            self.status = Status::Errored(string_of("execution fell off the end of the program"));
            return info;
        }
        self.steps = self.steps + 1;
        if self.steps > MAX_STEPS {
            self.status = Status::Errored(string_of("instruction budget exceeded (100000)"));
            return info;
        }
        let insn = self.insns[pc];
        info.assembly = disasm(self.insns.as_slice(), pc);
        match self.execute(insn, pc) {
            Ok((next, changed, mem_write, log_line)) => {
                info.changed = changed;
                info.mem_write = mem_write;
                info.log_line = log_line;
                match self.status {
                    Status::Running => {
                        self.pc = next;
                    },
                    _ => {},
                }
            },
            Err(msg) => {
                self.status = Status::Errored(msg);
            },
        }
        info
    }
}


// ---------------------------------------------------------------------------
// Construction, running, and what every step keeps
// ---------------------------------------------------------------------------

/// The registers of a fresh machine: r1 = packet base, r2 = packet length,
/// r10 = stack top, the rest zero.
pub open spec fn initial_regs(plen: nat) -> Seq<u64> {
    Seq::new(
        11,
        |k: int|
            if k == 1 {
                PACKET_BASE
            } else if k == 2 {
                plen as u64
            } else if k == 10 {
                STACK_TOP
            } else {
                0u64
            },
    )
}

/// A fresh machine for `insns` and `packet`.
pub open spec fn initial_state(insns: Seq<RawInsn>, packet: Seq<u8>) -> VmState {
    VmState {
        insns,
        regs: initial_regs(packet.len()),
        pc: 0,
        stack: Seq::new(STACK_SIZE as nat, |k: int| 0u8),
        packet,
        log: Seq::empty(),
        steps: 0,
        status: StatusView::Running,
    }
}

/// A program on which execution never indexes out of bounds: every register
/// number is r0 to r10, and the last slot is not the first half of an
/// `lddw`.
pub open spec fn program_ok(insns: Seq<RawInsn>) -> bool {
    &&& forall|k: int| 0 <= k < insns.len() ==> reg_ok(#[trigger] insns[k].dst) && reg_ok(insns[k].src)
    &&& insns.len() > 0 ==> !insns.last().wide()
}

/// A well-formed machine: within the machine's limits, with 11 registers
/// and a full stack, a running machine within its step budget, and a
/// program that stays in bounds.
pub open spec fn wf(m: VmState) -> bool {
    &&& fits_machine(m)
    &&& m.regs.len() == 11
    &&& m.stack.len() == STACK_SIZE
    &&& (m.status is Running ==> m.steps <= MAX_STEPS)
    &&& program_ok(m.insns)
}

/// The state after `n` steps.
pub open spec fn steps_from(m: VmState, n: nat) -> VmState
    decreases n,
{
    if n == 0 {
        m
    } else {
        step_spec(steps_from(m, (n - 1) as nat)).0
    }
}

/// How far a running machine is from stopping at the latest (when its step
/// budget runs out); 0 once stopped.
pub open spec fn fuel(m: VmState) -> nat {
    if !(m.status is Running) {
        0
    } else if m.steps <= MAX_STEPS {
        (MAX_STEPS + 2 - m.steps) as nat
    } else {
        1
    }
}

/// A machine on which every step, from this state on, is defined: the
/// states it reaches never index out of bounds or overflow the counter.
pub open spec fn runs_safely(m: VmState) -> bool {
    forall|n: nat| step_safe(#[trigger] steps_from(m, n))
}

impl Vm {
    /// A fresh machine: r1 = packet base, r2 = packet length, r10 = stack
    /// top, zeroed stack, empty log, running.
    pub fn new(insns: Vec<RawInsn>, packet: Vec<u8>) -> (vm: Self)
        ensures
            vm@ == initial_state(insns@, packet@),
    {
        let mut regs = [0u64; 11];
        regs[1] = PACKET_BASE;
        regs[2] = packet.len() as u64;
        regs[10] = STACK_TOP;
        let vm = Vm {
            insns,
            regs,
            pc: 0,
            stack: [0u8; STACK_SIZE],
            packet,
            log: Vec::new(),
            steps: 0,
            status: Status::Running,
        };
        assert(vm.regs@ =~= initial_regs(vm.packet@.len()));
        assert(vm.stack@ =~= Seq::new(STACK_SIZE as nat, |k: int| 0u8));
        assert(vm.log@.map_values(|s: String| s@) =~= Seq::<Seq<char>>::empty());
        vm
    }

    /// Whether one step is defined on this machine (no index out of
    /// bounds, no counter overflow).
    pub fn can_step(&self) -> (b: bool)
        requires
            fits_machine(self@),
        ensures
            b == step_safe(self@),
    {
        match self.status {
            Status::Running => {},
            _ => {
                return true;
            },
        }
        let n = self.insns.len();
        if self.pc >= n {
            return true;
        }
        if self.steps == u64::MAX {
            return false;
        }
        if self.steps + 1 > MAX_STEPS {
            return true;
        }
        let i = self.insns[self.pc];
        let cls = i.class();
        let x = i.op & SRC_X != 0;
        if cls == CLS_ALU64 || cls == CLS_ALU32 {
            i.dst <= 10 && (!x || i.src <= 10)
        } else if cls == CLS_LD && i.is_wide() {
            self.pc + 1 < n && i.dst <= 10
        } else if cls == CLS_LDX {
            if i.src > 10 {
                return false;
            }
            let addr = self.regs[i.src as usize].wrapping_add(i.off as i64 as u64);
            match self.load(addr, mem_size(i.op)) {
                Ok(_) => i.dst <= 10,
                Err(_) => true,
            }
        } else if cls == CLS_ST {
            i.dst <= 10
        } else if cls == CLS_STX {
            i.dst <= 10 && i.src <= 10
        } else if cls == CLS_JMP && i.op != OP_EXIT && i.op != OP_CALL {
            i.dst <= 10 && (!x || i.src <= 10)
        } else {
            true
        }
    }

    /// Steps until the machine exits or fails (at the latest when the step
    /// budget runs out).
    pub fn run(&mut self)
        requires
            runs_safely(old(self)@),
        ensures
            !(final(self)@.status is Running),
            exists|n: nat| final(self)@ == steps_from(old(self)@, n),
    {
        let ghost start = self@;
        let ghost mut n: nat = 0;
        assert(self@ == steps_from(start, 0));
        loop
            invariant
                runs_safely(start),
                self@ == steps_from(start, n),
            ensures
                !(self@.status is Running),
                self@ == steps_from(start, n),
            decreases fuel(self@),
        {
            match self.status {
                Status::Running => {},
                _ => {
                    break;
                },
            }
            proof {
                assert(step_safe(steps_from(start, n)));
                lemma_step_uses_fuel(self@);
            }
            self.step();
            proof {
                n = n + 1;
            }
        }
    }
}

/// On a well-formed machine, a step is always defined.
pub proof fn lemma_wf_step_safe(m: VmState)
    requires
        wf(m),
    ensures
        step_safe(m),
{
    if m.status is Running && m.pc < m.insns.len() {
        let i = m.insns[m.pc as int];
        assert(reg_ok(m.insns[m.pc as int].dst));
        if i.wide() && m.pc + 1 >= m.insns.len() {
            assert(m.insns.last() == i);
        }
    }
}

/// A splice of bytes that fit keeps the length.
proof fn lemma_splice_len(s: Seq<u8>, start: int, b: Seq<u8>)
    requires
        0 <= start,
        start + b.len() <= s.len(),
    ensures
        splice(s, start, b).len() == s.len(),
{
}

/// A successful write keeps everything but the memory it wrote, and the
/// memory's size.
proof fn lemma_store_frame(m: VmState, addr: u64, size: u8, value: u64)
    requires
        store_spec(m, addr, size, value) is Ok,
    ensures
        ({
            let m2 = store_spec(m, addr, size, value)->Ok_0;
            &&& m2.insns == m.insns
            &&& m2.regs == m.regs
            &&& m2.pc == m.pc
            &&& m2.log == m.log
            &&& m2.steps == m.steps
            &&& m2.status == m.status
            &&& m2.packet.len() == m.packet.len()
            &&& m2.stack.len() == m.stack.len() || m.stack.len() != STACK_SIZE
        }),
{
    match region(m, addr, size as nat) {
        Some((p, start)) => {
            if p {
                lemma_splice_len(m.packet, start, le_bytes(value as nat, size as nat));
            } else if m.stack.len() == STACK_SIZE {
                lemma_splice_len(m.stack, start, le_bytes(value as nat, size as nat));
            }
        },
        None => {},
    }
}

/// What one step keeps: the program, the sizes of the packet and of a full
/// stack, and (when the step is defined) the eleven registers; a machine that stays running has counted
/// one more step within its budget; a stopped machine does not change.
pub proof fn lemma_step_frame(m: VmState)
    ensures
        step_spec(m).0.insns == m.insns,
        step_safe(m) && m.regs.len() == 11 ==> step_spec(m).0.regs.len() == 11,
        step_spec(m).0.packet.len() == m.packet.len(),
        m.stack.len() == STACK_SIZE ==> step_spec(m).0.stack.len() == STACK_SIZE,
        m.status is Running && step_spec(m).0.status is Running ==> step_spec(m).0.steps
            == m.steps + 1 <= MAX_STEPS,
        !(m.status is Running) ==> step_spec(m).0 == m,
{
    if m.status is Running && m.pc < m.insns.len() && m.steps + 1 <= MAX_STEPS {
        let m1 = VmState { steps: (m.steps + 1) as u64, ..m };
        let i = m.insns[m.pc as int];
        let cls = i.cls();
        if cls == CLS_ST || cls == CLS_STX {
            let addr = m1.regs[i.dst as int].wrapping_add((i.off as i64) as u64);
            let value = if cls == CLS_STX {
                m1.regs[i.src as int]
            } else {
                (i.imm as i64) as u64
            };
            if store_spec(m1, addr, mem_size_spec(i.op), value) is Ok {
                lemma_store_frame(m1, addr, mem_size_spec(i.op), value);
            }
        }
    }
}

/// Every step keeps a machine well-formed.
pub proof fn lemma_step_keeps_wf(m: VmState)
    requires
        wf(m),
    ensures
        wf(step_spec(m).0),
{
    lemma_step_frame(m);
}

/// A step of a running machine either stops it or brings it closer to its
/// step budget.
pub proof fn lemma_step_uses_fuel(m: VmState)
    requires
        m.status is Running,
    ensures
        fuel(step_spec(m).0) < fuel(m),
{
    lemma_step_frame(m);
}

/// A well-formed machine runs safely: every state it reaches can step.
pub proof fn lemma_wf_runs_safely(m: VmState)
    requires
        wf(m),
    ensures
        runs_safely(m),
{
    assert forall|n: nat| step_safe(#[trigger] steps_from(m, n)) by {
        lemma_wf_steps(m, n);
        lemma_wf_step_safe(steps_from(m, n));
    }
}

/// Every state that a well-formed machine reaches is well-formed.
proof fn lemma_wf_steps(m: VmState, n: nat)
    requires
        wf(m),
    ensures
        wf(steps_from(m, n)),
    decreases n,
{
    if n > 0 {
        lemma_wf_steps(m, (n - 1) as nat);
        lemma_step_keeps_wf(steps_from(m, (n - 1) as nat));
    }
}

/// A machine that has stopped stays as it is: stepping it changes nothing.
pub proof fn lemma_stopped_is_fixed(m: VmState)
    requires
        !(m.status is Running),
    ensures
        step_spec(m).0 == m,
        step_spec(m).1.changed is None,
        step_spec(m).1.mem_write is None,
        step_spec(m).1.log_line is None,
{
}

/// A fresh machine is well-formed when its program stays in bounds (and the
/// machine's limits hold).
pub proof fn lemma_initial_wf(insns: Seq<RawInsn>, packet: Seq<u8>)
    requires
        program_ok(insns),
        fits_machine(initial_state(insns, packet)),
    ensures
        wf(initial_state(insns, packet)),
{
}

/// The `size` low-order bytes of `value`: the value masked to the width of
/// the access.
pub open spec fn low_bytes(value: u64, size: u8) -> u64 {
    if size == 1 {
        value & 0xff
    } else if size == 2 {
        value & 0xffff
    } else if size == 4 {
        value & 0xffff_ffff
    } else {
        value
    }
}

/// Cutting a value to `size` bytes is taking it modulo 256 to the `size`.
pub proof fn lemma_low_bytes(value: u64, size: u8)
    requires
        size == 1 || size == 2 || size == 4 || size == 8,
    ensures
        (value as nat % pow256(size as nat)) as u64 == low_bytes(value, size),
{
    lemma_pow256_values();
    assert(value & 0xff == value % 0x100) by (bit_vector);
    assert(value & 0xffff == value % 0x1_0000) by (bit_vector);
    assert(value & 0xffff_ffff == value % 0x1_0000_0000) by (bit_vector);
    if size == 8 {
        assert(value as nat % 0x1_0000_0000_0000_0000 == value as nat);
    } else if size == 4 {
        assert(value as nat % pow256(4) == value % 0x1_0000_0000);
    } else if size == 2 {
        assert(value as nat % pow256(2) == value % 0x1_0000);
    } else {
        assert(value as nat % pow256(1) == value % 0x100);
    }
}

/// Reading what was just written gives the written value, cut to the width
/// of the access.
pub proof fn lemma_load_after_store(m: VmState, addr: u64, size: u8, value: u64)
    requires
        size == 1 || size == 2 || size == 4 || size == 8,
        m.stack.len() == STACK_SIZE,
        store_spec(m, addr, size, value) is Ok,
    ensures
        load_spec(store_spec(m, addr, size, value)->Ok_0, addr, size) == Ok::<u64, Seq<char>>(
            (value as nat % pow256(size as nat)) as u64,
        ),
        load_spec(store_spec(m, addr, size, value)->Ok_0, addr, size) == Ok::<u64, Seq<char>>(
            low_bytes(value, size),
        ),
{
    lemma_low_bytes(value, size);
    let m2 = store_spec(m, addr, size, value)->Ok_0;
    let b = le_bytes(value as nat, size as nat);
    lemma_store_frame(m, addr, size, value);
    let (p, start) = region(m, addr, size as nat)->Some_0;
    assert(region(m2, addr, size as nat) == region(m, addr, size as nat));
    if p {
        assert(m2.packet.subrange(start, start + size) =~= b);
    } else {
        assert(m2.stack.subrange(start, start + size) =~= b);
    }
    lemma_le_value_bytes(value as nat, size as nat);
}

/// Division by zero gives 0; modulo by zero leaves the destination as it
/// was (cut to 32 bits for the 32-bit form).
pub proof fn lemma_division_by_zero(dst: u64, is32: bool)
    ensures
        alu_spec(0x3, dst, 0, is32) == Ok::<u64, Seq<char>>(0),
        alu_spec(0x9, dst, 0, is32) == Ok::<u64, Seq<char>>(
            if is32 {
                (dst as u32) as u64
            } else {
                dst
            },
        ),
{
}

/// 32-bit operations zero-extend: their results fit in 32 bits.
pub proof fn lemma_alu32_zero_extends(code: u8, dst: u64, operand: u64)
    ensures
        alu_spec(code, dst, operand, true) is Ok ==> alu_spec(code, dst, operand, true)->Ok_0
            <= u32::MAX,
{
}

/// A 32-bit ALU operation reads only the low 32 bits of its inputs: masking
/// off the high halves first gives the same result (or the same error).
pub proof fn lemma_alu32_low_halves(code: u8, dst: u64, operand: u64)
    ensures
        alu_spec(code, dst & 0xffff_ffff, operand & 0xffff_ffff, true) == alu_spec(
            code,
            dst,
            operand,
            true,
        ),
{
    assert((dst & 0xffff_ffff) as u32 == dst as u32) by (bit_vector);
    assert((operand & 0xffff_ffff) as u32 == operand as u32) by (bit_vector);
}

/// A step that stops a running machine with an error changes nothing but
/// its status and its step count (counted when an instruction was fetched),
/// and reports no register, memory or log change.
pub proof fn lemma_failed_step(m: VmState)
    requires
        m.status is Running,
        m.steps < u64::MAX,
        step_spec(m).0.status is Errored,
    ensures
        ({
            let (m2, info) = step_spec(m);
            &&& m2.pc == m.pc
            &&& m2.regs == m.regs
            &&& m2.stack == m.stack
            &&& m2.packet == m.packet
            &&& m2.log == m.log
            &&& m2.insns == m.insns
            &&& m2.steps == if m.pc < m.insns.len() {
                m.steps + 1
            } else {
                m.steps as int
            }
            &&& info.changed is None
            &&& info.mem_write is None
            &&& info.log_line is None
        }),
{
    if m.pc < m.insns.len() && m.steps + 1 <= MAX_STEPS {
        let m1 = VmState { steps: (m.steps + 1) as u64, ..m };
        let i = m.insns[m.pc as int];
        let cls = i.cls();
        if cls == CLS_ST || cls == CLS_STX {
            let addr = m1.regs[i.dst as int].wrapping_add((i.off as i64) as u64);
            let value = if cls == CLS_STX {
                m1.regs[i.src as int]
            } else {
                (i.imm as i64) as u64
            };
            if store_spec(m1, addr, mem_size_spec(i.op), value) is Ok {
                lemma_store_frame(m1, addr, mem_size_spec(i.op), value);
            }
        }
    }
}


/// How the jump conditions relate: `jne` is the negation of `jeq`; `jlt`
/// and `jle` are `jgt` and `jge` with the operands swapped and the
/// negations of `jge` and `jgt`; the same holds of the signed forms; the
/// unsigned forms compare the 64-bit values, the signed forms compare them
/// as two's-complement numbers; `ja` always jumps.
pub proof fn lemma_jump_relations(d: u64, o: u64)
    ensures
        jump_taken(0x0, d, o) == Some(true),
        jump_taken(0x1, d, o) == Some(d == o),
        jump_taken(0x2, d, o) == Some(d > o),
        jump_taken(0x3, d, o) == Some(d >= o),
        jump_taken(0x4, d, o) == Some(d & o != 0),
        jump_taken(0x6, d, o) == Some((d as i64) > (o as i64)),
        jump_taken(0x7, d, o) == Some((d as i64) >= (o as i64)),
        jump_taken(0x5, d, o) == Some(!(jump_taken(0x1, d, o)->Some_0)),
        jump_taken(0xa, d, o) == jump_taken(0x2, o, d),
        jump_taken(0xb, d, o) == jump_taken(0x3, o, d),
        jump_taken(0xc, d, o) == jump_taken(0x6, o, d),
        jump_taken(0xd, d, o) == jump_taken(0x7, o, d),
        jump_taken(0xa, d, o) == Some(!(jump_taken(0x3, d, o)->Some_0)),
        jump_taken(0xb, d, o) == Some(!(jump_taken(0x2, d, o)->Some_0)),
        jump_taken(0xc, d, o) == Some(!(jump_taken(0x7, d, o)->Some_0)),
        jump_taken(0xd, d, o) == Some(!(jump_taken(0x6, d, o)->Some_0)),
        jump_taken(0xa, d, d) == Some(false),
        jump_taken(0xc, d, d) == Some(false),
        jump_taken(0xb, d, d) == Some(true),
        jump_taken(0xd, d, d) == Some(true),
{
}

/// A conditional jump in bounds: the machine stays running and goes to the
/// target (the slot after the jump plus the offset) exactly when the
/// condition holds of the destination register and the operand (the source
/// register, or the sign-extended immediate), and to the next slot
/// otherwise: `jeq` equal, `jne` different, `jgt`/`jge`/`jlt`/`jle` the
/// unsigned order, `jsgt`/`jsge`/`jslt`/`jsle` the signed order, `jset` a
/// common bit, `ja` always.
pub proof fn lemma_conditional_jump_step(m: VmState)
    requires
        m.status is Running,
        m.pc < m.insns.len(),
        m.steps + 1 <= MAX_STEPS,
        m.insns[m.pc as int].cls() == CLS_JMP,
        m.insns[m.pc as int].op != OP_CALL,
        m.insns[m.pc as int].op != OP_EXIT,
        jump_taken(m.insns[m.pc as int].op >> 4u8, 0, 0) is Some,
        0 <= m.pc + 1 + m.insns[m.pc as int].off <= m.insns.len(),
        m.insns.len() <= usize::MAX,
    ensures
        ({
            let i = m.insns[m.pc as int];
            let code = i.op >> 4u8;
            let d = m.regs[i.dst as int];
            let o = if i.op & SRC_X != 0 {
                m.regs[i.src as int]
            } else {
                (i.imm as i64) as u64
            };
            let cond = if code == 0x0 {
                true
            } else if code == 0x1 {
                d == o
            } else if code == 0x5 {
                d != o
            } else if code == 0x2 {
                d > o
            } else if code == 0x3 {
                d >= o
            } else if code == 0xa {
                d < o
            } else if code == 0xb {
                d <= o
            } else if code == 0x6 {
                (d as i64) > (o as i64)
            } else if code == 0x7 {
                (d as i64) >= (o as i64)
            } else if code == 0xc {
                (d as i64) < (o as i64)
            } else if code == 0xd {
                (d as i64) <= (o as i64)
            } else {
                d & o != 0
            };
            let m2 = step_spec(m).0;
            &&& m2.status is Running
            &&& m2.pc == if cond {
                m.pc + 1 + i.off
            } else {
                m.pc + 1
            }
            &&& m2.regs == m.regs
            &&& m2.stack == m.stack
            &&& m2.packet == m.packet
            &&& m2.steps == m.steps + 1
        }),
{
    let i = m.insns[m.pc as int];
    let code = i.op >> 4u8;
    let d = m.regs[i.dst as int];
    let o = if i.op & SRC_X != 0 {
        m.regs[i.src as int]
    } else {
        (i.imm as i64) as u64
    };
    let m1 = VmState { steps: (m.steps + 1) as u64, ..m };
    assert(operand_spec(m1, i) == o);
    assert(m1.regs[i.dst as int] == d);
    lemma_jump_relations(d, o);
    assert(jump_taken(code, d, o) is Some);
    assert(exec_spec(m1, i) is Ok);
    let e = exec_spec(m1, i)->Ok_0;
    let cond = jump_taken(code, d, o)->Some_0;
    assert(e.state == m1);
    assert(e.next == if cond { m.pc + 1 + i.off } else { m.pc + 1 });
    let m2 = step_spec(m).0;
    assert(m2 == VmState { pc: e.next as usize, ..m1 });
}


/// What the 64-bit ALU operations compute: every known operation succeeds;
/// `add`, `sub` and `mul` are the integer results modulo 2^64 (so `sub`
/// undoes `add`), `div` and `mod` by a non-zero operand are the quotient
/// and remainder, `mov` gives the operand, `neg` gives the number that
/// added to the destination makes 0, `xor` twice gives the destination
/// back, `and`/`or` of a value with itself give the value, shifts by 0
/// change nothing, `lsh`/`rsh` by 1 double/halve, and `arsh` agrees with
/// `rsh` on values whose top bit is clear.
pub proof fn lemma_alu64_laws(d: u64, s: u64)
    ensures
        forall|c: u8| c <= 12 ==> (#[trigger] alu_spec(c, d, s, false)) is Ok,
        alu_spec(0x0, d, s, false)->Ok_0 == (d + s) % 0x1_0000_0000_0000_0000,
        alu_spec(0x1, d, s, false)->Ok_0 == (d - s + 0x1_0000_0000_0000_0000)
            % 0x1_0000_0000_0000_0000,
        alu_spec(0x1, alu_spec(0x0, d, s, false)->Ok_0, s, false)->Ok_0 == d,
        alu_spec(0x2, d, s, false)->Ok_0 == (d * s) % 0x1_0000_0000_0000_0000,
        s != 0 ==> alu_spec(0x3, d, s, false)->Ok_0 == d / s,
        s != 0 ==> alu_spec(0x9, d, s, false)->Ok_0 == d % s,
        alu_spec(0xb, d, s, false)->Ok_0 == s,
        alu_spec(0x0, alu_spec(0x8, d, s, false)->Ok_0, d, false)->Ok_0 == 0,
        alu_spec(0xa, alu_spec(0xa, d, s, false)->Ok_0, s, false)->Ok_0 == d,
        alu_spec(0x4, d, d, false)->Ok_0 == d,
        alu_spec(0x5, d, d, false)->Ok_0 == d,
        alu_spec(0x6, d, 0, false)->Ok_0 == d,
        alu_spec(0x7, d, 0, false)->Ok_0 == d,
        alu_spec(0xc, d, 0, false)->Ok_0 == d,
        alu_spec(0x6, d, 1, false)->Ok_0 == (2 * d) % 0x1_0000_0000_0000_0000,
        alu_spec(0x7, d, 1, false)->Ok_0 == d / 2,
        d < 0x8000_0000_0000_0000 ==> alu_spec(0xc, d, s, false) == alu_spec(0x7, d, s, false),
{
    assert forall|c: u8| c <= 12 implies (#[trigger] alu_spec(c, d, s, false)) is Ok by {}
    assert((d ^ s) ^ s == d) by (bit_vector);
    assert(d | d == d && d & d == d) by (bit_vector);
    assert(d << 0u32 == d && d >> 0u32 == d && ((d as i64) >> 0u32) as u64 == d) by (bit_vector);
    assert(d << 1u32 == (2 * d) % 0x1_0000_0000_0000_0000 && d >> 1u32 == d / 2) by (bit_vector);
    assert(((s as u32) & 63) < 64) by (bit_vector);
    let k = (s as u32) & 63;
    assert(d < 0x8000_0000_0000_0000 ==> ((d as i64) >> k) as u64 == d >> k) by (bit_vector)
        requires
            k < 64,
    ;
    assert((0u32 & 63) == 0 && (1u32 & 63) == 1) by (bit_vector);
    if s != 0 {
        assert((d / s) * s + d % s == d) by (nonlinear_arith)
            requires
                s != 0,
        ;
    }
    assert(d * s >= 0) by (nonlinear_arith);
}

/// What the 32-bit ALU operations compute on 32-bit values: the same laws
/// modulo 2^32, with results zero-extended.
pub proof fn lemma_alu32_laws(d: u32, s: u32)
    ensures
        forall|c: u8| c <= 12 ==> (#[trigger] alu_spec(c, d as u64, s as u64, true)) is Ok,
        alu_spec(0x0, d as u64, s as u64, true)->Ok_0 == (d + s) % 0x1_0000_0000,
        alu_spec(0x1, d as u64, s as u64, true)->Ok_0 == (d - s + 0x1_0000_0000) % 0x1_0000_0000,
        alu_spec(0x2, d as u64, s as u64, true)->Ok_0 == (d * s) % 0x1_0000_0000,
        s != 0 ==> alu_spec(0x3, d as u64, s as u64, true)->Ok_0 == d / s,
        s != 0 ==> alu_spec(0x9, d as u64, s as u64, true)->Ok_0 == d % s,
        alu_spec(0xb, d as u64, s as u64, true)->Ok_0 == s,
        alu_spec(0x4, d as u64, d as u64, true)->Ok_0 == d,
        alu_spec(0x5, d as u64, d as u64, true)->Ok_0 == d,
        alu_spec(0x6, d as u64, 0, true)->Ok_0 == d,
        alu_spec(0x7, d as u64, 0, true)->Ok_0 == d,
        alu_spec(0xc, d as u64, 0, true)->Ok_0 == d,
        alu_spec(0x6, d as u64, 1, true)->Ok_0 == (2 * d) % 0x1_0000_0000,
        alu_spec(0x7, d as u64, 1, true)->Ok_0 == d / 2,
        alu_spec(0x8, d as u64, s as u64, true)->Ok_0 == (0x1_0000_0000 - d) % 0x1_0000_0000,
        alu_spec(0xa, d as u64, s as u64, true)->Ok_0 == (d ^ s) as u64,
{
    assert forall|c: u8| c <= 12 implies (#[trigger] alu_spec(c, d as u64, s as u64, true)) is Ok by {}
    assert((d as u64) as u32 == d && (s as u64) as u32 == s) by (bit_vector);
    assert(d | d == d && d & d == d) by (bit_vector);
    assert(d << 0u32 == d && d >> 0u32 == d && ((d as i32) >> 0u32) as u32 == d) by (bit_vector);
    assert(d << 1u32 == (2 * d) % 0x1_0000_0000 && d >> 1u32 == d / 2) by (bit_vector);
    assert((0u32 & 31) == 0 && (1u32 & 31) == 1) by (bit_vector);
    assert((0u64 as u32) == 0 && (1u64 as u32) == 1) by (bit_vector);
    assert(d * s >= 0) by (nonlinear_arith);
}

}
