//! eBPF instruction encoding and disassembly. One `RawInsn` is one 8-byte
//! instruction slot; `lddw` occupies two slots (the second carries the upper
//! 32 bits of the immediate), as in the real ISA: jump offsets are counted
//! in slots.
use vstd::prelude::*;
use vstd::string::*;
use crate::text::{dec, hex, hex2, int_dec, push_char, push_dec, push_hex, push_hex2, push_int, push_str, string_of};


verus! {

/// Instruction classes: the low three bits of the opcode.
pub const CLS_LD: u8 = 0x00;
pub const CLS_LDX: u8 = 0x01;
pub const CLS_ST: u8 = 0x02;
pub const CLS_STX: u8 = 0x03;
pub const CLS_ALU32: u8 = 0x04;
pub const CLS_JMP: u8 = 0x05;
pub const CLS_ALU64: u8 = 0x07;

/// Operand is the immediate.
pub const SRC_K: u8 = 0x00;
/// Operand is the source register.
pub const SRC_X: u8 = 0x08;

/// Size bits of loads and stores.
pub const SZ_W: u8 = 0x00;
pub const SZ_H: u8 = 0x08;
pub const SZ_B: u8 = 0x10;
pub const SZ_DW: u8 = 0x18;

/// Whole opcodes of the call, exit and 64-bit immediate load instructions.
pub const OP_CALL: u8 = 0x85;
pub const OP_EXIT: u8 = 0x95;
pub const OP_LDDW: u8 = 0x18;

/// One instruction slot: opcode, destination and source registers (four
/// bits each in the encoding), a signed 16-bit offset and a signed 32-bit
/// immediate.
#[derive(Clone, Copy, Debug, Default, PartialEq, Eq, Structural)]
pub struct RawInsn {
    pub op: u8,
    pub dst: u8,
    pub src: u8,
    pub off: i16,
    pub imm: i32,
}

/// The two little-endian bytes of `x`.
pub open spec fn le16(x: u16) -> Seq<u8> {
    seq![x as u8, (x >> 8u16) as u8]
}

/// The four little-endian bytes of `x`.
pub open spec fn le32(x: u32) -> Seq<u8> {
    seq![x as u8, (x >> 8u32) as u8, (x >> 16u32) as u8, (x >> 24u32) as u8]
}

/// The byte that holds both register numbers: source in the high nibble,
/// destination in the low nibble.
pub open spec fn regs_byte(dst: u8, src: u8) -> u8 {
    (src << 4u8) | (dst & 0x0f)
}

/// The 8-byte encoding of an instruction.
pub open spec fn encode(i: RawInsn) -> Seq<u8> {
    seq![i.op, regs_byte(i.dst, i.src)] + le16(i.off as u16) + le32(i.imm as u32)
}

/// The value of two little-endian bytes.
pub open spec fn from_le16(a: u8, b: u8) -> u16 {
    (a as u16) | ((b as u16) << 8u16)
}

/// The value of four little-endian bytes.
pub open spec fn from_le32(a: u8, b: u8, c: u8, d: u8) -> u32 {
    (a as u32) | ((b as u32) << 8u32) | ((c as u32) << 16u32) | ((d as u32) << 24u32)
}

/// The instruction that the 8 bytes `c[k..k + 8]` encode.
pub open spec fn decode_at(c: Seq<u8>, k: int) -> RawInsn {
    RawInsn {
        op: c[k],
        dst: c[k + 1] & 0x0f,
        src: c[k + 1] >> 4u8,
        off: from_le16(c[k + 2], c[k + 3]) as i16,
        imm: from_le32(c[k + 4], c[k + 5], c[k + 6], c[k + 7]) as i32,
    }
}

/// The instruction that the first 8 bytes of `c` encode.
pub open spec fn decode(c: Seq<u8>) -> RawInsn {
    decode_at(c, 0)
}

/// Whether an instruction survives encoding: both register numbers fit in
/// the four bits the encoding gives them.
pub open spec fn encodable(i: RawInsn) -> bool {
    i.dst < 16 && i.src < 16
}

impl RawInsn {
    /// The instruction class: the low three bits of the opcode.
    pub open spec fn cls(self) -> u8 {
        self.op & 0x07
    }

    /// Whether this is the first slot of a two-slot `lddw`.
    pub open spec fn wide(self) -> bool {
        self.op == OP_LDDW
    }

    /// The 8-byte little-endian encoding.
    pub fn to_bytes(&self) -> (b: [u8; 8])
        ensures
            b@ == encode(*self),
    {
        let off = self.off as u16;
        let imm = self.imm as u32;
        let b: [u8; 8] = [
            self.op,
            (self.src << 4u8) | (self.dst & 0x0f),
            off as u8,
            (off >> 8u16) as u8,
            imm as u8,
            (imm >> 8u32) as u8,
            (imm >> 16u32) as u8,
            (imm >> 24u32) as u8,
        ];
        assert(b@ =~= encode(*self));
        b
    }

    /// The instruction class: the low three bits of the opcode.
    pub fn class(&self) -> (c: u8)
        ensures
            c == self.cls(),
    {
        self.op & 0x07
    }

    /// Whether this is the first slot of a two-slot `lddw`.
    pub fn is_wide(&self) -> (b: bool)
        ensures
            b == self.wide(),
    {
        self.op == OP_LDDW
    }

    /// Decodes the 8-byte slot at the start of `c`.
    pub fn from_slot(c: &[u8]) -> (i: RawInsn)
        requires
            c@.len() >= 8,
        ensures
            i == decode(c@),
    {
        decode_slot(c, 0)
    }
}

fn decode_slot(c: &[u8], k: usize) -> (i: RawInsn)
    requires
        k + 8 <= c@.len(),
    ensures
        i == decode_at(c@, k as int),
{
    RawInsn {
        op: c[k],
        dst: c[k + 1] & 0x0f,
        src: c[k + 1] >> 4u8,
        off: ((c[k + 2] as u16) | ((c[k + 3] as u16) << 8u16)) as i16,
        imm: ((c[k + 4] as u32) | ((c[k + 5] as u32) << 8u32) | ((c[k + 6] as u32) << 16u32) | ((
        c[k + 7] as u32) << 24u32)) as i32,
    }
}

/// Decoding an encoded instruction gives it back exactly when its register
/// numbers fit in four bits.
pub proof fn lemma_decode_encode(i: RawInsn)
    ensures
        decode(encode(i)) == i <==> encodable(i),
{
    let e = encode(i);
    let (op, dst, src, off, imm) = (i.op, i.dst, i.src, i.off, i.imm);
    assert(e[1] == regs_byte(dst, src));
    assert(((src << 4u8) | (dst & 0x0f)) & 0x0f == dst & 0x0f) by (bit_vector);
    assert(((src << 4u8) | (dst & 0x0f)) >> 4u8 == src & 0x0f) by (bit_vector);
    assert(dst & 0x0f == dst <==> dst < 16) by (bit_vector);
    assert(src & 0x0f == src <==> src < 16) by (bit_vector);
    assert(from_le16((off as u16) as u8, ((off as u16) >> 8u16) as u8) as i16 == off) by (
    bit_vector);
    assert(from_le32(
        (imm as u32) as u8,
        ((imm as u32) >> 8u32) as u8,
        ((imm as u32) >> 16u32) as u8,
        ((imm as u32) >> 24u32) as u8,
    ) as i32 == imm) by (bit_vector);
}

/// Encoding the instruction that 8 bytes decode to gives the bytes back.
pub proof fn lemma_encode_decode(c: Seq<u8>)
    requires
        c.len() == 8,
    ensures
        encode(decode(c)) == c,
{
    let (b0, b1, b2, b3, b4, b5, b6, b7) = (c[0], c[1], c[2], c[3], c[4], c[5], c[6], c[7]);
    assert(((b1 >> 4u8) << 4u8) | ((b1 & 0x0f) & 0x0f) == b1) by (bit_vector);
    let h = from_le16(b2, b3);
    assert((h as i16) as u16 == h) by (bit_vector);
    assert(h as u8 == b2 && (h >> 8u16) as u8 == b3) by (bit_vector)
        requires
            h == from_le16(b2, b3),
    ;
    let w = from_le32(b4, b5, b6, b7);
    assert((w as i32) as u32 == w) by (bit_vector);
    assert(w as u8 == b4 && (w >> 8u32) as u8 == b5 && (w >> 16u32) as u8 == b6 && (w >> 24u32)
        as u8 == b7) by (bit_vector)
        requires
            w == from_le32(b4, b5, b6, b7),
    ;
    assert(encode(decode(c)) =~= c);
}


/// What decoding a byte string gives: an error for an empty input or one
/// whose length is not a multiple of 8, else one instruction per 8 bytes.
pub open spec fn insns_from_bytes_spec(b: Seq<u8>) -> Result<Seq<RawInsn>, Seq<char>> {
    if b.len() == 0 {
        Err("no bytes provided"@)
    } else if b.len() % 8 != 0 {
        Err("byte length "@ + dec(b.len()) + " is not a multiple of 8"@)
    } else {
        Ok(Seq::new(b.len() / 8, |k: int| decode_at(b, 8 * k)))
    }
}

/// Decodes raw eBPF bytecode (8-byte little-endian slots) into
/// instructions: the inverse of assembly.
pub fn insns_from_bytes(bytes: &[u8]) -> (r: Result<Vec<RawInsn>, String>)
    ensures
        match r {
            Ok(v) => insns_from_bytes_spec(bytes@) == Ok::<Seq<RawInsn>, Seq<char>>(v@),
            Err(e) => insns_from_bytes_spec(bytes@) == Err::<Seq<RawInsn>, Seq<char>>(e@),
        },
{
    let len = bytes.len();
    if len == 0 {
        return Err(string_of("no bytes provided"));
    }
    if len % 8 != 0 {
        let mut e = string_of("byte length ");
        push_dec(&mut e, len as u64);
        push_str(&mut e, " is not a multiple of 8");
        return Err(e);
    }
    let n = len / 8;
    let mut v: Vec<RawInsn> = Vec::new();
    let mut k: usize = 0;
    while k < n
        invariant
            n == bytes@.len() / 8,
            len == bytes@.len(),
            k <= n,
            v@.len() == k,
            forall|j: int| 0 <= j < k ==> v@[j] == decode_at(bytes@, 8 * j),
        decreases n - k,
    {
        assert(8 * k + 8 <= bytes@.len()) by (nonlinear_arith)
            requires
                k < n,
                n == bytes@.len() / 8,
        ;
        v.push(decode_slot(bytes, 8 * k));
        k = k + 1;
    }
    assert(v@ =~= Seq::new(bytes@.len() / 8, |k: int| decode_at(bytes@, 8 * k)));
    Ok(v)
}

/// The access size in bytes that the size bits of a load or store select.
pub open spec fn mem_size_spec(op: u8) -> u8 {
    let s = op & 0x18;
    if s == SZ_W {
        4
    } else if s == SZ_H {
        2
    } else if s == SZ_B {
        1
    } else {
        8
    }
}

/// The mnemonic suffix that the size bits of a load or store select.
pub open spec fn size_suffix_spec(op: u8) -> Seq<char> {
    let s = op & 0x18;
    if s == SZ_W {
        "w"@
    } else if s == SZ_H {
        "h"@
    } else if s == SZ_B {
        "b"@
    } else {
        "dw"@
    }
}

fn size_suffix(op: u8) -> (r: &'static str)
    ensures
        r@ == size_suffix_spec(op),
{
    let s = op & 0x18;
    if s == SZ_W {
        "w"
    } else if s == SZ_H {
        "h"
    } else if s == SZ_B {
        "b"
    } else {
        "dw"
    }
}

fn size_bytes(op: u8) -> (r: u8)
    ensures
        r == mem_size_spec(op),
{
    let s = op & 0x18;
    if s == SZ_W {
        4
    } else if s == SZ_H {
        2
    } else if s == SZ_B {
        1
    } else {
        8
    }
}

/// The access size in bytes of a load or store opcode (1, 2, 4 or 8).
pub fn mem_size(op: u8) -> (r: u8)
    ensures
        r == mem_size_spec(op),
        r == 1 || r == 2 || r == 4 || r == 8,
{
    size_bytes(op)
}

/// The mnemonic of an ALU operation code (the high nibble of the opcode).
pub open spec fn alu_name(code: u8) -> Option<Seq<char>> {
    if code == 0x0 {
        Some("add"@)
    } else if code == 0x1 {
        Some("sub"@)
    } else if code == 0x2 {
        Some("mul"@)
    } else if code == 0x3 {
        Some("div"@)
    } else if code == 0x4 {
        Some("or"@)
    } else if code == 0x5 {
        Some("and"@)
    } else if code == 0x6 {
        Some("lsh"@)
    } else if code == 0x7 {
        Some("rsh"@)
    } else if code == 0x8 {
        Some("neg"@)
    } else if code == 0x9 {
        Some("mod"@)
    } else if code == 0xa {
        Some("xor"@)
    } else if code == 0xb {
        Some("mov"@)
    } else if code == 0xc {
        Some("arsh"@)
    } else {
        None
    }
}

/// The mnemonic of a conditional or unconditional jump code.
pub open spec fn jmp_name(code: u8) -> Option<Seq<char>> {
    if code == 0x1 {
        Some("jeq"@)
    } else if code == 0x2 {
        Some("jgt"@)
    } else if code == 0x3 {
        Some("jge"@)
    } else if code == 0x4 {
        Some("jset"@)
    } else if code == 0x5 {
        Some("jne"@)
    } else if code == 0x6 {
        Some("jsgt"@)
    } else if code == 0x7 {
        Some("jsge"@)
    } else if code == 0xa {
        Some("jlt"@)
    } else if code == 0xb {
        Some("jle"@)
    } else if code == 0xc {
        Some("jslt"@)
    } else if code == 0xd {
        Some("jsle"@)
    } else if code == 0x0 {
        Some("ja"@)
    } else {
        None
    }
}

/// The mnemonic of an ALU operation code.
pub fn alu_op_name(code: u8) -> (r: Option<&'static str>)
    ensures
        match r {
            Some(n) => alu_name(code) == Some(n@),
            None => alu_name(code) is None,
        },
{
    if code == 0x0 {
        Some("add")
    } else if code == 0x1 {
        Some("sub")
    } else if code == 0x2 {
        Some("mul")
    } else if code == 0x3 {
        Some("div")
    } else if code == 0x4 {
        Some("or")
    } else if code == 0x5 {
        Some("and")
    } else if code == 0x6 {
        Some("lsh")
    } else if code == 0x7 {
        Some("rsh")
    } else if code == 0x8 {
        Some("neg")
    } else if code == 0x9 {
        Some("mod")
    } else if code == 0xa {
        Some("xor")
    } else if code == 0xb {
        Some("mov")
    } else if code == 0xc {
        Some("arsh")
    } else {
        None
    }
}

/// The mnemonic of a jump code.
pub fn jmp_op_name(code: u8) -> (r: Option<&'static str>)
    ensures
        match r {
            Some(n) => jmp_name(code) == Some(n@),
            None => jmp_name(code) is None,
        },
{
    if code == 0x1 {
        Some("jeq")
    } else if code == 0x2 {
        Some("jgt")
    } else if code == 0x3 {
        Some("jge")
    } else if code == 0x4 {
        Some("jset")
    } else if code == 0x5 {
        Some("jne")
    } else if code == 0x6 {
        Some("jsgt")
    } else if code == 0x7 {
        Some("jsge")
    } else if code == 0xa {
        Some("jlt")
    } else if code == 0xb {
        Some("jle")
    } else if code == 0xc {
        Some("jslt")
    } else if code == 0xd {
        Some("jsle")
    } else if code == 0x0 {
        Some("ja")
    } else {
        None
    }
}

/// A register as written in assembly: `r` and its number.
pub open spec fn reg_text(r: u8) -> Seq<char> {
    seq!['r'] + dec(r as nat)
}

/// A signed offset with an explicit sign: `+4`, `-8`, `+0`.
pub open spec fn off_text(off: i16) -> Seq<char> {
    if off >= 0 {
        seq!['+'] + dec(off as nat)
    } else {
        int_dec(off as int)
    }
}

/// The 64-bit immediate of an `lddw` from its two 32-bit halves.
pub open spec fn wide_value(lo: i32, hi: i32) -> u64 {
    ((lo as u32) as u64) | (((hi as u32) as u64) << 32u64)
}

/// Whether slot `pc` is the second half of an `lddw`.
pub open spec fn upper_half(insns: Seq<RawInsn>, pc: int) -> bool {
    pc > 0 && insns[pc - 1].wide()
}

/// The assembly text of the instruction at `pc`.
pub open spec fn disasm_spec(insns: Seq<RawInsn>, pc: int) -> Seq<char> {
    let i = insns[pc];
    let cls = i.cls();
    let code = i.op >> 4u8;
    if upper_half(insns, pc) {
        "(lddw upper half)"@
    } else if cls == CLS_ALU64 || cls == CLS_ALU32 {
        let suffix = if cls == CLS_ALU32 {
            "32"@
        } else {
            Seq::<char>::empty()
        };
        let name = match alu_name(code) {
            Some(n) => n,
            None => "alu?"@,
        };
        if code == 8 {
            "neg"@ + suffix + seq![' '] + reg_text(i.dst)
        } else if i.op & SRC_X != 0 {
            name + suffix + seq![' '] + reg_text(i.dst) + ", "@ + reg_text(i.src)
        } else {
            name + suffix + seq![' '] + reg_text(i.dst) + ", "@ + int_dec(i.imm as int)
        }
    } else if cls == CLS_JMP {
        if i.op == OP_CALL {
            "call "@ + int_dec(i.imm as int)
        } else if i.op == OP_EXIT {
            "exit"@
        } else if code == 0 {
            "ja "@ + off_text(i.off)
        } else {
            let name = match jmp_name(code) {
                Some(n) => n,
                None => "jmp?"@,
            };
            if i.op & SRC_X != 0 {
                name + seq![' '] + reg_text(i.dst) + ", "@ + reg_text(i.src) + ", "@ + off_text(
                    i.off,
                )
            } else {
                name + seq![' '] + reg_text(i.dst) + ", "@ + int_dec(i.imm as int) + ", "@
                    + off_text(i.off)
            }
        }
    } else if cls == CLS_LD && i.wide() {
        let hi = if pc + 1 < insns.len() {
            insns[pc + 1].imm
        } else {
            0
        };
        "lddw "@ + reg_text(i.dst) + ", 0x"@ + hex(wide_value(i.imm, hi) as nat)
    } else if cls == CLS_LDX {
        "ldx"@ + size_suffix_spec(i.op) + seq![' '] + reg_text(i.dst) + ", ["@ + reg_text(i.src)
            + off_text(i.off) + seq![']']
    } else if cls == CLS_ST {
        "st"@ + size_suffix_spec(i.op) + " ["@ + reg_text(i.dst) + off_text(i.off) + "], "@
            + int_dec(i.imm as int)
    } else if cls == CLS_STX {
        "stx"@ + size_suffix_spec(i.op) + " ["@ + reg_text(i.dst) + off_text(i.off) + "], "@
            + reg_text(i.src)
    } else {
        "(unknown op 0x"@ + hex2(i.op) + seq![')']
    }
}

fn push_reg(s: &mut String, r: u8)
    ensures
        final(s)@ == old(s)@ + reg_text(r),
{
    push_char(s, 'r');
    push_dec(s, r as u64);
    assert(final(s)@ =~= old(s)@ + reg_text(r));
}

fn push_off(s: &mut String, off: i16)
    ensures
        final(s)@ == old(s)@ + off_text(off),
{
    if off >= 0 {
        push_char(s, '+');
        push_dec(s, off as u64);
        assert(final(s)@ =~= old(s)@ + off_text(off));
    } else {
        push_int(s, off as i128);
    }
}

/// The assembly text of `offset` with an explicit sign (`+4`, `-8`).
pub fn off_str(off: i16) -> (r: String)
    ensures
        r@ == off_text(off),
{
    let mut s = String::new();
    push_off(&mut s, off);
    assert(s@ =~= off_text(off));
    s
}

/// Whether slot `pc` is the second half of an `lddw`.
pub fn is_upper_half(insns: &[RawInsn], pc: usize) -> (b: bool)
    requires
        pc < insns@.len(),
    ensures
        b == upper_half(insns@, pc as int),
{
    pc > 0 && insns[pc - 1].is_wide()
}

/// Disassembles the instruction at `pc`. The second slot of an `lddw`
/// renders as a continuation marker.
pub fn disasm(insns: &[RawInsn], pc: usize) -> (r: String)
    requires
        pc < insns@.len(),
    ensures
        r@ == disasm_spec(insns@, pc as int),
{
    let insn = insns[pc];
    if is_upper_half(insns, pc) {
        return string_of("(lddw upper half)");
    }
    let cls = insn.class();
    let code = insn.op >> 4u8;
    let mut s = String::new();
    if cls == CLS_ALU64 || cls == CLS_ALU32 {
        if code == 8 {
            push_str(&mut s, "neg");
        } else {
            match alu_op_name(code) {
                Some(n) => push_str(&mut s, n),
                None => push_str(&mut s, "alu?"),
            }
        }
        if cls == CLS_ALU32 {
            push_str(&mut s, "32");
        }
        push_char(&mut s, ' ');
        push_reg(&mut s, insn.dst);
        if code != 8 {
            push_str(&mut s, ", ");
            if insn.op & SRC_X != 0 {
                push_reg(&mut s, insn.src);
            } else {
                push_int(&mut s, insn.imm as i128);
            }
        }
    } else if cls == CLS_JMP {
        if insn.op == OP_CALL {
            push_str(&mut s, "call ");
            push_int(&mut s, insn.imm as i128);
        } else if insn.op == OP_EXIT {
            push_str(&mut s, "exit");
        } else if code == 0 {
            push_str(&mut s, "ja ");
            push_off(&mut s, insn.off);
        } else {
            match jmp_op_name(code) {
                Some(n) => push_str(&mut s, n),
                None => push_str(&mut s, "jmp?"),
            }
            push_char(&mut s, ' ');
            push_reg(&mut s, insn.dst);
            push_str(&mut s, ", ");
            if insn.op & SRC_X != 0 {
                push_reg(&mut s, insn.src);
            } else {
                push_int(&mut s, insn.imm as i128);
            }
            push_str(&mut s, ", ");
            push_off(&mut s, insn.off);
        }
    } else if cls == CLS_LD && insn.is_wide() {
        let hi: i32 = if pc + 1 < insns.len() {
            insns[pc + 1].imm
        } else {
            0
        };
        let val: u64 = ((insn.imm as u32) as u64) | (((hi as u32) as u64) << 32u64);
        push_str(&mut s, "lddw ");
        push_reg(&mut s, insn.dst);
        push_str(&mut s, ", 0x");
        push_hex(&mut s, val);
    } else if cls == CLS_LDX {
        push_str(&mut s, "ldx");
        push_str(&mut s, size_suffix(insn.op));
        push_char(&mut s, ' ');
        push_reg(&mut s, insn.dst);
        push_str(&mut s, ", [");
        push_reg(&mut s, insn.src);
        push_off(&mut s, insn.off);
        push_char(&mut s, ']');
    } else if cls == CLS_ST || cls == CLS_STX {
        if cls == CLS_ST {
            push_str(&mut s, "st");
        } else {
            push_str(&mut s, "stx");
        }
        push_str(&mut s, size_suffix(insn.op));
        push_str(&mut s, " [");
        push_reg(&mut s, insn.dst);
        push_off(&mut s, insn.off);
        push_str(&mut s, "], ");
        if cls == CLS_ST {
            push_int(&mut s, insn.imm as i128);
        } else {
            push_reg(&mut s, insn.src);
        }
    } else {
        push_str(&mut s, "(unknown op 0x");
        push_hex2(&mut s, insn.op);
        push_char(&mut s, ')');
    }
    assert(s@ =~= disasm_spec(insns@, pc as int));
    s
}


/// The bytes of a program: each instruction's 8 bytes, in order.
pub open spec fn encode_all(s: Seq<RawInsn>) -> Seq<u8>
    decreases s.len(),
{
    if s.len() == 0 {
        Seq::empty()
    } else {
        encode_all(s.drop_last()) + encode(s.last())
    }
}

proof fn lemma_encode_all_index(s: Seq<RawInsn>)
    ensures
        encode_all(s).len() == 8 * s.len(),
        forall|k: int, j: int|
            0 <= k < s.len() && 0 <= j < 8 ==> #[trigger] encode_all(s)[8 * k + j] == encode(
                s[k],
            )[j],
    decreases s.len(),
{
    if s.len() > 0 {
        lemma_encode_all_index(s.drop_last());
        assert forall|k: int, j: int|
            0 <= k < s.len() && 0 <= j < 8 implies #[trigger] encode_all(s)[8 * k + j] == encode(
            s[k],
        )[j] by {
            if k < s.len() - 1 {
                assert(encode_all(s.drop_last())[8 * k + j] == encode(s.drop_last()[k])[j]);
            }
        }
    }
}

/// Decoding the bytes of a program gives the program back, when it is not
/// empty and every register number fits in four bits.
pub proof fn lemma_bytes_roundtrip(s: Seq<RawInsn>)
    requires
        s.len() > 0,
        forall|k: int| 0 <= k < s.len() ==> encodable(#[trigger] s[k]),
    ensures
        insns_from_bytes_spec(encode_all(s)) == Ok::<Seq<RawInsn>, Seq<char>>(s),
{
    lemma_encode_all_index(s);
    let b = encode_all(s);
    assert((8 * s.len()) % 8 == 0) by (nonlinear_arith);
    assert((8 * s.len()) / 8 == s.len()) by (nonlinear_arith);
    assert forall|k: int| 0 <= k < s.len() implies decode_at(b, 8 * k) == s[k] by {
        let e = encode(s[k]);
        assert(b[8 * k + 0] == e[0]);
        assert(b[8 * k + 1] == e[1]);
        assert(b[8 * k + 2] == e[2]);
        assert(b[8 * k + 3] == e[3]);
        assert(b[8 * k + 4] == e[4]);
        assert(b[8 * k + 5] == e[5]);
        assert(b[8 * k + 6] == e[6]);
        assert(b[8 * k + 7] == e[7]);
        assert(decode_at(b, 8 * k) == decode(e));
        lemma_decode_encode(s[k]);
    }
    assert(Seq::new(b.len() / 8, |k: int| decode_at(b, 8 * k)) =~= s);
}

/// Encoding the program that bytes decode to gives the bytes back.
pub proof fn lemma_bytes_reencode(b: Seq<u8>)
    requires
        insns_from_bytes_spec(b) is Ok,
    ensures
        encode_all(insns_from_bytes_spec(b)->Ok_0) == b,
{
    let s = insns_from_bytes_spec(b)->Ok_0;
    lemma_encode_all_index(s);
    let e = encode_all(s);
    assert(b.len() == 8 * (b.len() / 8)) by (nonlinear_arith)
        requires
            b.len() % 8 == 0,
    ;
    assert forall|i: int| 0 <= i < b.len() implies e[i] == b[i] by {
        let k = i / 8;
        let j = i % 8;
        assert(i == 8 * k + j && 0 <= j < 8 && 0 <= k < s.len()) by (nonlinear_arith)
            requires
                0 <= i < b.len(),
                b.len() == 8 * s.len(),
                k == i / 8,
                j == i % 8,
        ;
        let c = b.subrange(8 * k, 8 * k + 8);
        assert(decode_at(b, 8 * k) == decode(c));
        lemma_encode_decode(c);
        assert(e[8 * k + j] == encode(s[k])[j]);
    }
    assert(e =~= b);
}

}
