//! Disassembled text assembles back to the instruction it came from: the
//! numbers, registers, offsets and memory operands that the disassembler
//! prints are read back by the assembler's parsers.
use vstd::prelude::*;
use vstd::string::*;
use crate::text::{
    all_digits, ascii_lower, dec, digit_char, digit_value, hex, int_dec, is_digit, is_ws,
    lemma_index_of, lemma_index_of_ws, lines, lower, parse_hex_spec, parse_i64_spec,
    parse_u8_spec, radix_chars, radix_value, skip_plus, trim, trim_end, trim_start,
};
use crate::isa::{
    RawInsn, alu_name, disasm_spec, jmp_name, off_text, reg_text, size_suffix_spec, upper_half,
    wide_value, CLS_ALU32, CLS_ALU64, CLS_JMP, CLS_LDX, CLS_ST, CLS_STX, OP_CALL, OP_EXIT,
    OP_LDDW, SRC_X,
};
use crate::assembler::{
    AsmErrorView, LineView, alu_code, alu_split, assemble_spec, comment_at, comment_from,
    emit_alu, emit_jump, emit_mem, emit_spec, filler, hex_prefixed, jmp_code, jump_off_spec,
    keep_nonempty, lemma_index_of_sign, mem_opcode, mk, no_spaces, parse_imm_spec,
    parse_mem_spec, parse_reg_spec, pass1, pass1_line, pass2, scan_labels, split_operands,
    split_stmt, strip_comment_spec, strip_pluses,
};

verus! {

/// The characters that the disassembler writes inside a word: lower-case
/// letters, digits, brackets and signs.
pub open spec fn word_char(c: char) -> bool {
    ('0' <= c && c <= '9') || ('a' <= c && c <= 'z') || c == '[' || c == ']' || c == '+' || c
        == '-'
}

/// A non-empty run of word characters.
pub open spec fn word(s: Seq<char>) -> bool {
    s.len() > 0 && forall|i: int| 0 <= i < s.len() ==> word_char(#[trigger] s[i])
}

/// Whether every character of `s` is a decimal digit.
pub open spec fn decimal(s: Seq<char>) -> bool {
    forall|i: int| 0 <= i < s.len() ==> '0' <= #[trigger] s[i] && s[i] <= '9'
}

proof fn lemma_digit_char(d: nat, base: nat)
    requires
        base == 10 || base == 16,
        d < base,
    ensures
        digit_value(digit_char(d)) == d,
        is_digit(digit_char(d), base),
        word_char(digit_char(d)),
        base == 10 ==> '0' <= digit_char(d) && digit_char(d) <= '9',
{
}

/// The digits of `n` read back as `n`.
pub proof fn lemma_radix_chars(n: nat, base: nat)
    requires
        base == 10 || base == 16,
    ensures
        radix_chars(n, base).len() > 0,
        all_digits(radix_chars(n, base), base),
        radix_value(radix_chars(n, base), base) == n,
        word(radix_chars(n, base)),
        base == 10 ==> decimal(radix_chars(n, base)),
    decreases n,
{
    let s = radix_chars(n, base);
    if n < base {
        lemma_digit_char(n, base);
        assert(n % 16 == n);
        assert(s.drop_last() =~= Seq::<char>::empty());
        assert(radix_value(s.drop_last(), base) == 0);
        assert(radix_value(s, base) == 0 * base + digit_value(s.last()));
    } else {
        assert(n / base < n) by (nonlinear_arith)
            requires
                base >= 2,
                n >= base,
        ;
        lemma_radix_chars(n / base, base);
        lemma_digit_char(n % base, base);
        let p = radix_chars(n / base, base);
        assert(s == p.push(digit_char(n % base)));
        assert(s.drop_last() =~= p);
        assert(n == (n / base) * base + n % base) by (nonlinear_arith)
            requires
                base >= 2,
        ;
        assert(s.last() == digit_char(n % base));
        assert(radix_value(s, base) == radix_value(p, base) * base + digit_value(s.last()));
    }
}

/// A decimal number read back by the integer parsers.
pub proof fn lemma_parse_dec(n: nat)
    requires
        n <= i64::MAX,
    ensures
        dec(n).len() > 0,
        word(dec(n)),
        decimal(dec(n)),
        parse_i64_spec(dec(n)) == Some(n as i64),
        parse_i64_spec(seq!['+'] + dec(n)) == Some(n as i64),
        n <= 255 ==> parse_u8_spec(dec(n)) == Some(n as u8),
{
    lemma_radix_chars(n, 10);
    let d = dec(n);
    assert('0' <= d[0] && d[0] <= '9');
    assert(skip_plus(d) == d);
    assert(skip_plus(seq!['+'] + d) =~= d);
    assert((seq!['+'] + d)[0] == '+');
}

/// A hexadecimal number read back by the hexadecimal parser.
pub proof fn lemma_parse_hex(v: u64)
    ensures
        hex(v as nat).len() > 0,
        word(hex(v as nat)),
        parse_hex_spec(hex(v as nat)) == Some(v),
{
    lemma_radix_chars(v as nat, 16);
    let d = hex(v as nat);
    assert(d[0] != '+');
    assert(skip_plus(d) == d);
}

/// A signed decimal number is a word that does not start with `r` and reads
/// back as itself.
pub proof fn lemma_int_dec(x: int)
    requires
        -i64::MAX <= x <= i64::MAX,
    ensures
        word(int_dec(x)),
        int_dec(x)[0] != 'r',
        int_dec(x)[0] == '-' || ('0' <= int_dec(x)[0] && int_dec(x)[0] <= '9'),
        parse_i64_spec(int_dec(x)) == Some(x as i64),
{
    if x < 0 {
        lemma_parse_dec((-x) as nat);
        let d = dec((-x) as nat);
        let s = seq!['-'] + d;
        assert(s.drop_first() =~= d);
        assert(s[0] == '-');
        assert forall|i: int| 0 <= i < s.len() implies word_char(#[trigger] s[i]) by {
            if i > 0 {
                assert(s[i] == d[i - 1]);
            }
        }
    } else {
        lemma_parse_dec(x as nat);
    }
}

/// Word characters are not whitespace.
pub proof fn lemma_word_not_ws(s: Seq<char>)
    requires
        word(s),
    ensures
        forall|i: int| 0 <= i < s.len() ==> !is_ws(#[trigger] s[i]) && s[i] != ' ' && s[i]
            != ',',
{
}

/// A word is its own trim, also after one leading space, and has no
/// spaces to remove.
pub proof fn lemma_trim_word(s: Seq<char>)
    requires
        word(s),
    ensures
        trim(s) == s,
        trim(seq![' '] + s) == s,
        no_spaces(s) == s,
{
    lemma_word_not_ws(s);
    assert(trim_start(s) == s);
    assert(trim_end(s) == s);
    let t = seq![' '] + s;
    assert(is_ws(t[0]));
    assert(t.drop_first() =~= s);
    assert(trim_start(t) == trim_start(s));
    lemma_no_spaces(s);
}

proof fn lemma_no_spaces(s: Seq<char>)
    requires
        forall|i: int| 0 <= i < s.len() ==> s[i] != ' ',
    ensures
        no_spaces(s) == s,
    decreases s.len(),
{
    if s.len() > 0 {
        lemma_no_spaces(s.drop_last());
        assert(s.drop_last().push(s.last()) =~= s);
    }
}

/// A signed decimal number is read back by the immediate parser.
pub proof fn lemma_imm_int(x: int)
    requires
        -i64::MAX <= x <= i64::MAX,
    ensures
        parse_imm_spec(int_dec(x)) == Some(x as i64),
{
    lemma_int_dec(x);
    if x < 0 {
        let d = dec((-x) as nat);
        lemma_parse_dec((-x) as nat);
        assert(int_dec(x).drop_first() =~= d);
        assert(!hex_prefixed(d));
        assert(0i64.wrapping_sub((-x) as i64) == x as i64);
    } else {
        lemma_parse_dec(x as nat);
        assert(!hex_prefixed(dec(x as nat)));
    }
}

/// `0x` and hexadecimal digits are read back by the immediate parser as the
/// same 64 bits.
pub proof fn lemma_imm_hex(v: u64)
    ensures
        parse_imm_spec(seq!['0', 'x'] + hex(v as nat)) == Some(v as i64),
        word(seq!['0', 'x'] + hex(v as nat)),
{
    lemma_parse_hex(v);
    let t = seq!['0', 'x'] + hex(v as nat);
    assert(t[0] == '0');
    assert(hex_prefixed(t));
    assert(t.skip(2) =~= hex(v as nat));
    assert forall|i: int| 0 <= i < t.len() implies word_char(#[trigger] t[i]) by {
        if i >= 2 {
            assert(t[i] == hex(v as nat)[i - 2]);
        }
    }
}

/// A register name is read back as the register.
pub proof fn lemma_reg_text(r: u8)
    requires
        r <= 10,
    ensures
        parse_reg_spec(reg_text(r)) == Some(r),
        word(reg_text(r)),
        forall|i: int| 0 <= i < reg_text(r).len() ==> #[trigger] reg_text(r)[i] != '+'
            && reg_text(r)[i] != '-',
{
    lemma_parse_dec(r as nat);
    let t = reg_text(r);
    assert(t.drop_first() =~= dec(r as nat));
    assert forall|i: int| 0 <= i < t.len() implies word_char(#[trigger] t[i]) && t[i] != '+'
        && t[i] != '-' by {
        if i >= 1 {
            assert(t[i] == dec(r as nat)[i - 1]);
        }
    }
}

/// A signed offset is a word that starts with its sign, and both the
/// immediate parser and the jump-offset parser read it back.
pub proof fn lemma_off_text(off: i16, pc: int, labels: Seq<(Seq<char>, usize)>)
    ensures
        word(off_text(off)),
        off_text(off)[0] == '+' || off_text(off)[0] == '-',
        parse_imm_spec(off_text(off)) == Some(off as i64),
        jump_off_spec(off_text(off), pc, labels) == Ok::<i16, Seq<char>>(off),
{
    let t = off_text(off);
    if off >= 0 {
        let d = dec(off as nat);
        lemma_parse_dec(off as nat);
        assert(t == seq!['+'] + d);
        assert(t[0] == '+');
        assert forall|i: int| 0 <= i < t.len() implies word_char(#[trigger] t[i]) by {
            if i >= 1 {
                assert(t[i] == d[i - 1]);
            }
        }
        assert(!hex_prefixed(t));
        assert(t.drop_first() =~= d);
        assert(strip_pluses(d) == d);
        assert(strip_pluses(t) == d);
        lemma_imm_int(off as int);
    } else {
        lemma_int_dec(off as int);
        lemma_imm_int(off as int);
        assert(strip_pluses(t) == t);
    }
}

/// A memory operand `[rN+off]` is read back as its register and offset.
pub proof fn lemma_mem_text(r: u8, off: i16)
    requires
        r <= 10,
    ensures
        word(seq!['['] + reg_text(r) + off_text(off) + seq![']']),
        parse_mem_spec(seq!['['] + reg_text(r) + off_text(off) + seq![']']) == Some((r, off)),
{
    let a = reg_text(r);
    let b = off_text(off);
    let t = seq!['['] + a + b + seq![']'];
    lemma_reg_text(r);
    lemma_off_text(off, 0, Seq::empty());
    let inner = t.subrange(1, t.len() - 1);
    assert(inner =~= a + b);
    lemma_index_of_sign(inner, a.len() as int);
    assert(inner.take(a.len() as int) =~= a);
    assert(inner.skip(a.len() as int) =~= b);
    lemma_trim_word(a);
    lemma_trim_word(b);
    assert forall|i: int| 0 <= i < t.len() implies word_char(#[trigger] t[i]) by {
        if 1 <= i < 1 + a.len() {
            assert(t[i] == a[i - 1]);
        } else if 1 + a.len() <= i < t.len() - 1 {
            assert(t[i] == b[i - 1 - a.len()]);
        }
    }
}

/// The characters of one statement line as the disassembler writes it.
pub open spec fn line_char(c: char) -> bool {
    word_char(c) || c == ' ' || c == ','
}

/// Splitting operands at a comma.
proof fn lemma_split_comma(x: Seq<char>, rest: Seq<char>)
    requires
        forall|i: int| 0 <= i < x.len() ==> #[trigger] x[i] != ',',
    ensures
        split_operands(x + seq![','] + rest) == keep_nonempty(trim(x)) + split_operands(rest),
{
    let s = x + seq![','] + rest;
    lemma_index_of(s, ',', x.len() as int);
    assert(s.take(x.len() as int) =~= x);
    assert(s.skip(x.len() as int + 1) =~= rest);
}

/// The last operand.
proof fn lemma_split_end(x: Seq<char>)
    requires
        forall|i: int| 0 <= i < x.len() ==> #[trigger] x[i] != ',',
    ensures
        split_operands(x) == keep_nonempty(trim(x)),
{
    lemma_index_of(x, ',', x.len() as int);
}

/// One, two or three operands separated by `, `.
pub proof fn lemma_split_words(a: Seq<char>, b: Seq<char>, c: Seq<char>)
    requires
        word(a),
        word(b),
        word(c),
    ensures
        split_operands(a) == seq![a],
        split_operands(a + seq![',', ' '] + b) == seq![a, b],
        split_operands(a + seq![',', ' '] + b + seq![',', ' '] + c) == seq![a, b, c],
{
    lemma_word_not_ws(a);
    lemma_word_not_ws(b);
    lemma_word_not_ws(c);
    lemma_trim_word(a);
    lemma_trim_word(b);
    lemma_trim_word(c);
    lemma_split_end(a);
    let sb = seq![' '] + b;
    let sc = seq![' '] + c;
    assert forall|i: int| 0 <= i < sb.len() implies #[trigger] sb[i] != ',' by {
        if i > 0 {
            assert(sb[i] == b[i - 1]);
        }
    }
    assert forall|i: int| 0 <= i < sc.len() implies #[trigger] sc[i] != ',' by {
        if i > 0 {
            assert(sc[i] == c[i - 1]);
        }
    }
    lemma_split_end(sb);
    lemma_split_end(sc);
    lemma_split_comma(a, sb);
    assert(a + seq![',', ' '] + b =~= a + seq![','] + sb);
    lemma_split_comma(sb, sc);
    assert(sb + seq![','] + sc =~= seq![' '] + b + seq![',', ' '] + c);
    lemma_split_comma(a, seq![' '] + b + seq![',', ' '] + c);
    assert(a + seq![',', ' '] + b + seq![',', ' '] + c =~= a + seq![','] + (seq![' '] + b
        + seq![',', ' '] + c));
    assert(seq![a] + seq![b] =~= seq![a, b]);
    assert(seq![a] + (seq![b] + seq![c]) =~= seq![a, b, c]);
}

proof fn lemma_comment_free(s: Seq<char>, i: int)
    requires
        0 <= i <= s.len(),
        forall|j: int| 0 <= j < s.len() ==> line_char(#[trigger] s[j]),
    ensures
        comment_from(s, i) == s.len(),
    decreases s.len() - i,
{
    if i < s.len() {
        assert(!comment_at(s, i));
        lemma_comment_free(s, i + 1);
    }
}

/// What assembling one statement line gives.
pub open spec fn line_result(l: LineView) -> (Seq<RawInsn>, Seq<AsmErrorView>) {
    match emit_spec(l, 0, Seq::empty()) {
        Ok(v) => (v, Seq::empty()),
        Err(e) => (filler(l.mnemonic), seq![AsmErrorView { line: 1, msg: e }]),
    }
}

/// A one-line source `m` or `m r`, with a word `m` as the mnemonic and
/// operand text `r` made of words, spaces and commas, assembles as the
/// single statement it holds.
pub proof fn lemma_assemble_line(t: Seq<char>, m: Seq<char>, r: Seq<char>)
    requires
        word(m),
        forall|j: int| 0 <= j < r.len() ==> line_char(#[trigger] r[j]),
        (r.len() == 0 && t == m) || (r.len() > 0 && word_char(r.last()) && t == m + seq![' ']
            + r),
    ensures
        assemble_spec(t) == line_result(
            LineView { number: 1, mnemonic: m, operands: split_operands(r) },
        ),
{
    lemma_word_not_ws(m);
    assert forall|j: int| 0 <= j < t.len() implies line_char(#[trigger] t[j]) by {
        if j >= m.len() + 1 {
            assert(t[j] == r[j - m.len() - 1]);
        }
    }
    assert(t.last() == m.last() || t.last() == r.last());
    lemma_index_of(t, '\n', t.len() as int);
    assert(lines(t) == seq![t]);
    lemma_comment_free(t, 0);
    assert(strip_comment_spec(t) =~= t);
    assert(trim_start(t) == t);
    assert(trim_end(t) == t);
    lemma_index_of(t, ':', t.len() as int);
    assert(scan_labels(t, 1, 0, Seq::empty(), Seq::empty()) == (
    t,
    Seq::<(Seq<char>, usize)>::empty(),
    Seq::<AsmErrorView>::empty(),
    ));
    if r.len() == 0 {
        lemma_index_of_ws(t, t.len() as int);
        assert(split_stmt(t) == (m, Seq::<char>::empty()));
    } else {
        lemma_index_of_ws(t, m.len() as int);
        assert(t.take(m.len() as int) =~= m);
        assert(t.skip(m.len() as int + 1) =~= r);
        assert(split_stmt(t) == (m, r));
    }
    let src = seq![t];
    let p1 = pass1(src, 1);
    assert(p1 == pass1_line(pass1(src, 0), t, 1));
    assert(p1.lines =~= seq![LineView { number: 1, mnemonic: m, operands: split_operands(r) }]);
    assert(p1.labels =~= Seq::<(Seq<char>, usize)>::empty());
    assert(p1.errors =~= Seq::<AsmErrorView>::empty());
    let p2 = pass2(p1.lines, p1.labels, p1.errors, 1);
    assert(pass2(p1.lines, p1.labels, p1.errors, 0).insns.len() == 0);
    assert(Seq::<RawInsn>::empty() + filler(m) =~= filler(m));
    assert(Seq::<AsmErrorView>::empty().push(AsmErrorView { line: 1, msg: Seq::empty() })
        =~= seq![AsmErrorView { line: 1, msg: Seq::empty() }]);
    match emit_spec(p1.lines[0], 0, Seq::empty()) {
        Ok(v) => {
            assert(Seq::<RawInsn>::empty() + v =~= v);
        },
        Err(e) => {
            assert(Seq::<AsmErrorView>::empty().push(AsmErrorView { line: 1, msg: e }) =~= seq![
                AsmErrorView { line: 1, msg: e },
            ]);
        },
    }
}

/// A word is already in lower case.
pub proof fn lemma_lower_word(s: Seq<char>)
    requires
        word(s),
    ensures
        lower(s) == s,
{
    assert forall|i: int| 0 <= i < s.len() implies ascii_lower(#[trigger] s[i]) == s[i] by {}
    assert(lower(s) =~= s);
}

/// The mnemonic of an ALU operation, with `32` for the 32-bit form, is a
/// word that the assembler reads back as the same operation and class.
pub proof fn lemma_alu_mnemonic(code: u8, is32: bool)
    requires
        code <= 12,
    ensures
        alu_name(code) is Some,
        ({
            let n = alu_name(code)->Some_0;
            let m = if is32 {
                n + "32"@
            } else {
                n
            };
            &&& word(m)
            &&& lower(m) == m
            &&& alu_split(m) == Some((
                code,
                if is32 {
                    CLS_ALU32
                } else {
                    CLS_ALU64
                },
            ))
        }),
{
    reveal_strlit("add");
    reveal_strlit("sub");
    reveal_strlit("mul");
    reveal_strlit("div");
    reveal_strlit("or");
    reveal_strlit("and");
    reveal_strlit("lsh");
    reveal_strlit("rsh");
    reveal_strlit("neg");
    reveal_strlit("mod");
    reveal_strlit("xor");
    reveal_strlit("mov");
    reveal_strlit("arsh");
    reveal_strlit("32");
    let n = alu_name(code)->Some_0;
    let c0 = n[0];
    let c1 = n[1];
    let c2 = n[2];
    assert(alu_code(n) == Some(code));
    assert(word(n));
    let m = n + "32"@;
    assert forall|i: int| 0 <= i < m.len() implies word_char(#[trigger] m[i]) by {
        if i >= n.len() {
            assert(m[i] == "32"@[i - n.len()]);
        }
    }
    assert(m.skip(m.len() - 2) =~= seq!['3', '2']);
    assert(m.take(m.len() - 2) =~= n);
    assert(n.skip(n.len() - 2)[1] == n.last());
    lemma_lower_word(n);
    lemma_lower_word(m);
}

/// The mnemonic of a conditional jump is a word that the assembler reads
/// as that jump and as nothing before it.
pub proof fn lemma_jmp_mnemonic(code: u8)
    requires
        jmp_name(code) is Some,
        code != 0,
    ensures
        ({
            let n = jmp_name(code)->Some_0;
            &&& word(n)
            &&& lower(n) == n
            &&& alu_split(n) is None
            &&& n != "lddw"@
            &&& mem_opcode(n) is None
            &&& n != "ja"@
            &&& n != "call"@
            &&& n != "exit"@
            &&& jmp_code(n) == Some(code)
        }),
{
    reveal_strlit("add");
    reveal_strlit("sub");
    reveal_strlit("mul");
    reveal_strlit("div");
    reveal_strlit("or");
    reveal_strlit("and");
    reveal_strlit("lsh");
    reveal_strlit("rsh");
    reveal_strlit("neg");
    reveal_strlit("mod");
    reveal_strlit("xor");
    reveal_strlit("mov");
    reveal_strlit("arsh");
    reveal_strlit("jeq");
    reveal_strlit("jgt");
    reveal_strlit("jge");
    reveal_strlit("jset");
    reveal_strlit("jne");
    reveal_strlit("jsgt");
    reveal_strlit("jsge");
    reveal_strlit("jlt");
    reveal_strlit("jle");
    reveal_strlit("jslt");
    reveal_strlit("jsle");
    reveal_strlit("ja");
    reveal_strlit("ldxdw");
    reveal_strlit("ldxw");
    reveal_strlit("ldxh");
    reveal_strlit("ldxb");
    reveal_strlit("stxdw");
    reveal_strlit("stxw");
    reveal_strlit("stxh");
    reveal_strlit("stxb");
    reveal_strlit("stdw");
    reveal_strlit("stw");
    reveal_strlit("sth");
    reveal_strlit("stb");
    reveal_strlit("lddw");
    reveal_strlit("call");
    reveal_strlit("exit");
    reveal_strlit("32");
    let n = jmp_name(code)->Some_0;
    let c0 = n[0];
    let c1 = n[1];
    let c2 = n[2];
    let c3 = n[3];
    assert(n.skip(n.len() - 2)[1] == n.last());
    assert(alu_code(n) is None);
    assert(jmp_code(n) == Some(code));
    lemma_lower_word(n);
}

/// The mnemonics `lddw`, `ja`, `call` and `exit` are words that the
/// assembler reads as themselves, and as nothing before them.
pub proof fn lemma_fixed_mnemonics()
    ensures
        word("lddw"@) && lower("lddw"@) == "lddw"@ && alu_split("lddw"@) is None,
        word("ja"@) && lower("ja"@) == "ja"@ && alu_split("ja"@) is None && "ja"@ != "lddw"@
            && mem_opcode("ja"@) is None,
        word("call"@) && lower("call"@) == "call"@ && alu_split("call"@) is None && "call"@
            != "lddw"@ && mem_opcode("call"@) is None && "call"@ != "ja"@,
        word("exit"@) && lower("exit"@) == "exit"@ && alu_split("exit"@) is None && "exit"@
            != "lddw"@ && mem_opcode("exit"@) is None && "exit"@ != "ja"@ && "exit"@
            != "call"@,
{
    reveal_strlit("add");
    reveal_strlit("sub");
    reveal_strlit("mul");
    reveal_strlit("div");
    reveal_strlit("or");
    reveal_strlit("and");
    reveal_strlit("lsh");
    reveal_strlit("rsh");
    reveal_strlit("neg");
    reveal_strlit("mod");
    reveal_strlit("xor");
    reveal_strlit("mov");
    reveal_strlit("arsh");
    reveal_strlit("ldxdw");
    reveal_strlit("ldxw");
    reveal_strlit("ldxh");
    reveal_strlit("ldxb");
    reveal_strlit("stxdw");
    reveal_strlit("stxw");
    reveal_strlit("stxh");
    reveal_strlit("stxb");
    reveal_strlit("stdw");
    reveal_strlit("stw");
    reveal_strlit("sth");
    reveal_strlit("stb");
    reveal_strlit("lddw");
    reveal_strlit("ja");
    reveal_strlit("call");
    reveal_strlit("exit");
    reveal_strlit("32");
    let a = "lddw"@;
    let b = "ja"@;
    let c = "call"@;
    let d = "exit"@;
    assert(a.skip(2)[1] == 'w');
    assert(b.skip(0)[1] == 'a');
    assert(c.skip(2)[1] == 'l');
    assert(d.skip(2)[1] == 't');
    assert(alu_code(a) is None);
    assert(alu_code(b) is None);
    assert(alu_code(c) is None);
    assert(alu_code(d) is None);
    lemma_lower_word(a);
    lemma_lower_word(b);
    lemma_lower_word(c);
    lemma_lower_word(d);
}

/// The fields of the fixed opcodes: classes, size bits and codes.
proof fn lemma_op_consts()
    ensures
        0x79u8 & 0x07u8 == 1u8,
        0x79u8 & 0x18u8 == 0x18u8,
        0x61u8 & 0x07u8 == 1u8,
        0x61u8 & 0x18u8 == 0x00u8,
        0x69u8 & 0x07u8 == 1u8,
        0x69u8 & 0x18u8 == 0x08u8,
        0x71u8 & 0x07u8 == 1u8,
        0x71u8 & 0x18u8 == 0x10u8,
        0x7bu8 & 0x07u8 == 3u8,
        0x7bu8 & 0x18u8 == 0x18u8,
        0x63u8 & 0x07u8 == 3u8,
        0x63u8 & 0x18u8 == 0x00u8,
        0x6bu8 & 0x07u8 == 3u8,
        0x6bu8 & 0x18u8 == 0x08u8,
        0x73u8 & 0x07u8 == 3u8,
        0x73u8 & 0x18u8 == 0x10u8,
        0x7au8 & 0x07u8 == 2u8,
        0x7au8 & 0x18u8 == 0x18u8,
        0x62u8 & 0x07u8 == 2u8,
        0x62u8 & 0x18u8 == 0x00u8,
        0x6au8 & 0x07u8 == 2u8,
        0x6au8 & 0x18u8 == 0x08u8,
        0x72u8 & 0x07u8 == 2u8,
        0x72u8 & 0x18u8 == 0x10u8,
        0x85u8 >> 4u8 == 8u8,
        0x95u8 >> 4u8 == 9u8,
        0x05u8 >> 4u8 == 0u8,
        0x85u8 & 0x07u8 == 5u8,
        0x95u8 & 0x07u8 == 5u8,
        0x05u8 & 0x07u8 == 5u8,
        0x18u8 & 0x07u8 == 0u8,
{
    assert(0x79u8 & 0x07u8 == 1u8 && 0x79u8 & 0x18u8 == 0x18u8 && 0x61u8 & 0x07u8 == 1u8 && 0x61u8 & 0x18u8 == 0x00u8 && 0x69u8 & 0x07u8 == 1u8 && 0x69u8 & 0x18u8 == 0x08u8 && 0x71u8 & 0x07u8 == 1u8 && 0x71u8 & 0x18u8 == 0x10u8 && 0x7bu8 & 0x07u8 == 3u8 && 0x7bu8 & 0x18u8 == 0x18u8 && 0x63u8 & 0x07u8 == 3u8 && 0x63u8 & 0x18u8 == 0x00u8 && 0x6bu8 & 0x07u8 == 3u8 && 0x6bu8 & 0x18u8 == 0x08u8 && 0x73u8 & 0x07u8 == 3u8 && 0x73u8 & 0x18u8 == 0x10u8 && 0x7au8 & 0x07u8 == 2u8 && 0x7au8 & 0x18u8 == 0x18u8 && 0x62u8 & 0x07u8 == 2u8 && 0x62u8 & 0x18u8 == 0x00u8 && 0x6au8 & 0x07u8 == 2u8 && 0x6au8 & 0x18u8 == 0x08u8 && 0x72u8 & 0x07u8 == 2u8 && 0x72u8 & 0x18u8 == 0x10u8 && 0x85u8 >> 4u8 == 8u8 && 0x95u8 >> 4u8 == 9u8 && 0x05u8 >> 4u8 == 0u8 && 0x85u8 & 0x07u8 == 5u8 && 0x95u8 & 0x07u8 == 5u8 && 0x05u8 & 0x07u8 == 5u8 && 0x18u8 & 0x07u8 == 0u8) by (bit_vector);
}

/// The opcodes of loads and stores that the assembler knows.
pub open spec fn mem_op(op: u8) -> bool {
    op == 0x79 || op == 0x61 || op == 0x69 || op == 0x71 || op == 0x7b || op == 0x63 || op
        == 0x6b || op == 0x73 || op == 0x7a || op == 0x62 || op == 0x6a || op == 0x72
}

/// The mnemonic that the disassembler writes for a load or store.
pub open spec fn mem_mnemonic(op: u8) -> Seq<char> {
    let cls = op & 0x07;
    if cls == CLS_LDX {
        "ldx"@ + size_suffix_spec(op)
    } else if cls == CLS_ST {
        "st"@ + size_suffix_spec(op)
    } else {
        "stx"@ + size_suffix_spec(op)
    }
}

/// The mnemonic of a load or store is a word that the assembler reads back
/// as the same opcode and class.
pub proof fn lemma_mem_mnemonic(op: u8)
    requires
        mem_op(op),
    ensures
        word(mem_mnemonic(op)),
        lower(mem_mnemonic(op)) == mem_mnemonic(op),
        alu_split(mem_mnemonic(op)) is None,
        mem_mnemonic(op) != "lddw"@,
        mem_opcode(mem_mnemonic(op)) == Some((op, op & 0x07)),
        (op & 0x07) == CLS_LDX || (op & 0x07) == CLS_ST || (op & 0x07) == CLS_STX,
{
    reveal_strlit("add");
    reveal_strlit("sub");
    reveal_strlit("mul");
    reveal_strlit("div");
    reveal_strlit("or");
    reveal_strlit("and");
    reveal_strlit("lsh");
    reveal_strlit("rsh");
    reveal_strlit("neg");
    reveal_strlit("mod");
    reveal_strlit("xor");
    reveal_strlit("mov");
    reveal_strlit("arsh");
    reveal_strlit("ldxdw");
    reveal_strlit("ldxw");
    reveal_strlit("ldxh");
    reveal_strlit("ldxb");
    reveal_strlit("stxdw");
    reveal_strlit("stxw");
    reveal_strlit("stxh");
    reveal_strlit("stxb");
    reveal_strlit("stdw");
    reveal_strlit("stw");
    reveal_strlit("sth");
    reveal_strlit("stb");
    reveal_strlit("lddw");
    reveal_strlit("ldx");
    reveal_strlit("st");
    reveal_strlit("stx");
    reveal_strlit("w");
    reveal_strlit("h");
    reveal_strlit("b");
    reveal_strlit("dw");
    reveal_strlit("32");
    let m = mem_mnemonic(op);
    lemma_op_consts();
    if op == 0x79 {
        assert(m =~= "ldxdw"@);
    } else if op == 0x61 {
        assert(m =~= "ldxw"@);
    } else if op == 0x69 {
        assert(m =~= "ldxh"@);
    } else if op == 0x71 {
        assert(m =~= "ldxb"@);
    } else if op == 0x7b {
        assert(m =~= "stxdw"@);
    } else if op == 0x63 {
        assert(m =~= "stxw"@);
    } else if op == 0x6b {
        assert(m =~= "stxh"@);
    } else if op == 0x73 {
        assert(m =~= "stxb"@);
    } else if op == 0x7a {
        assert(m =~= "stdw"@);
    } else if op == 0x62 {
        assert(m =~= "stw"@);
    } else if op == 0x6a {
        assert(m =~= "sth"@);
    } else {
        assert(m =~= "stb"@);
    }
    let c0 = m[0];
    let c1 = m[1];
    let c2 = m[2];
    assert(m.skip(m.len() - 2)[1] == m.last());
    assert(alu_code(m) is None);
    lemma_lower_word(m);
}

/// Two operand texts joined by `, `.
pub open spec fn joined(a: Seq<char>, b: Seq<char>) -> Seq<char> {
    a + seq![',', ' '] + b
}

/// Operands joined by `, ` are made of line characters and end in a word
/// character.
pub proof fn lemma_line_words(a: Seq<char>, b: Seq<char>, c: Seq<char>)
    requires
        word(a),
        word(b),
        word(c),
    ensures
        forall|j: int| 0 <= j < a.len() ==> line_char(#[trigger] a[j]),
        forall|j: int| 0 <= j < joined(a, b).len() ==> line_char(#[trigger] joined(a, b)[j]),
        forall|j: int|
            0 <= j < joined(joined(a, b), c).len() ==> line_char(
                #[trigger] joined(joined(a, b), c)[j],
            ),
        word_char(a.last()),
        word_char(joined(a, b).last()),
        word_char(joined(joined(a, b), c).last()),
{
    let t2 = joined(a, b);
    let t3 = joined(t2, c);
    assert forall|j: int| 0 <= j < t2.len() implies line_char(#[trigger] t2[j]) by {
        if j < a.len() {
            assert(t2[j] == a[j]);
        } else if j >= a.len() + 2 {
            assert(t2[j] == b[j - a.len() - 2]);
        }
    }
    assert forall|j: int| 0 <= j < t3.len() implies line_char(#[trigger] t3[j]) by {
        if j < t2.len() {
            assert(t3[j] == t2[j]);
        } else if j >= t2.len() + 2 {
            assert(t3[j] == c[j - t2.len() - 2]);
        }
    }
    assert(t2.last() == b.last());
    assert(t3.last() == c.last());
}

/// An opcode is its code, source bit and class put together.
proof fn lemma_op_parts(op: u8)
    ensures
        op == ((op >> 4u8) << 4u8) | (op & SRC_X) | (op & 0x07),
        (op >> 4u8) <= 15,
        (op & 0x07) <= 7,
        (op & SRC_X) == 0 || (op & SRC_X) == SRC_X,
        (op & SRC_X) == 0 ==> op == ((op >> 4u8) << 4u8) | (op & 0x07),
        (op & SRC_X) == SRC_X ==> op == ((op >> 4u8) << 4u8) | SRC_X | (op & 0x07),
{
    assert((op & 0x08u8) == 0 || (op & 0x08u8) == 0x08u8) by (bit_vector);
    assert((op & 0x08u8) == 0 ==> op == ((op >> 4u8) << 4u8) | (op & 0x07u8)) by (bit_vector);
    assert((op & 0x08u8) == 0x08u8 ==> op == ((op >> 4u8) << 4u8) | 0x08u8 | (op & 0x07u8))
        by (bit_vector);
    assert(op == ((op >> 4u8) << 4u8) | (op & 0x08u8) | (op & 0x07u8)) by (bit_vector);
    assert((op >> 4u8) <= 15) by (bit_vector);
    assert((op & 0x07u8) <= 7) by (bit_vector);
}

/// The ALU instructions that the assembler writes: a known operation, no
/// offset, and for `neg` neither source nor immediate; for a register
/// operand no immediate, for an immediate no source register.
pub open spec fn alu_form(i: RawInsn) -> bool {
    let code = i.op >> 4u8;
    let x = i.op & SRC_X != 0;
    &&& i.cls() == CLS_ALU64 || i.cls() == CLS_ALU32
    &&& code <= 12
    &&& i.off == 0
    &&& i.dst <= 10
    &&& if code == 8 {
        !x && i.src == 0 && i.imm == 0
    } else if x {
        i.imm == 0 && i.src <= 10
    } else {
        i.src == 0
    }
}

/// The mnemonic and operand words of an ALU instruction's text.
proof fn lemma_alu_text(insns: Seq<RawInsn>, pc: int) -> (m: Seq<char>)
    requires
        0 <= pc < insns.len(),
        !upper_half(insns, pc),
        alu_form(insns[pc]),
    ensures
        word(m),
        lower(m) == m,
        alu_split(m) == Some((insns[pc].op >> 4u8, insns[pc].cls())),
        insns[pc].op >> 4u8 == 8 ==> disasm_spec(insns, pc) == m + seq![' '] + reg_text(
            insns[pc].dst,
        ),
        insns[pc].op >> 4u8 != 8 && insns[pc].op & SRC_X != 0 ==> disasm_spec(insns, pc) == m
            + seq![' '] + joined(reg_text(insns[pc].dst), reg_text(insns[pc].src)),
        insns[pc].op >> 4u8 != 8 && insns[pc].op & SRC_X == 0 ==> disasm_spec(insns, pc) == m
            + seq![' '] + joined(reg_text(insns[pc].dst), int_dec(insns[pc].imm as int)),
{
    reveal_strlit(", ");
    reveal_strlit("32");
    let i = insns[pc];
    let cls = i.cls();
    let code = i.op >> 4u8;
    let is32 = cls == CLS_ALU32;
    lemma_alu_mnemonic(code, is32);
    let n = alu_name(code)->Some_0;
    let suffix = if is32 {
        "32"@
    } else {
        Seq::<char>::empty()
    };
    let m = n + suffix;
    assert(m =~= if is32 {
        n + "32"@
    } else {
        n
    });
    let t = disasm_spec(insns, pc);
    let d = reg_text(i.dst);
    assert(", "@ =~= seq![',', ' ']);
    if code == 8 {
        assert(t =~= m + seq![' '] + d);
    } else if i.op & SRC_X != 0 {
        assert(t =~= m + seq![' '] + joined(d, reg_text(i.src)));
    } else {
        assert(t =~= m + seq![' '] + joined(d, int_dec(i.imm as int)));
    }
    m
}

/// The statement of an ALU instruction's text emits that instruction.
#[verifier::spinoff_prover]
#[verifier::rlimit(40)]
proof fn lemma_emit_alu_line(i: RawInsn, m: Seq<char>, ops: Seq<Seq<char>>)
    requires
        alu_form(i),
        lower(m) == m,
        alu_split(m) == Some((i.op >> 4u8, i.cls())),
        i.op >> 4u8 == 8 ==> ops == seq![reg_text(i.dst)],
        i.op >> 4u8 != 8 && i.op & SRC_X != 0 ==> ops == seq![reg_text(i.dst), reg_text(i.src)],
        i.op >> 4u8 != 8 && i.op & SRC_X == 0 ==> ops == seq![
            reg_text(i.dst),
            int_dec(i.imm as int),
        ],
    ensures
        emit_spec(LineView { number: 1, mnemonic: m, operands: ops }, 0, Seq::empty()) == Ok::<
            Seq<RawInsn>,
            Seq<char>,
        >(seq![i]),
{
    let cls = i.cls();
    let code = i.op >> 4u8;
    lemma_op_parts(i.op);
    lemma_reg_text(i.dst);
    assert(emit_spec(LineView { number: 1, mnemonic: m, operands: ops }, 0, Seq::empty())
        == emit_alu(m, ops, code, cls));
    if code == 8 {
        assert(i.op & SRC_X == 0);
        assert(mk((code << 4u8) | cls, i.dst, 0, 0, 0) == i);
    } else if i.op & SRC_X != 0 {
        lemma_reg_text(i.src);
        assert(mk((code << 4u8) | SRC_X | cls, i.dst, i.src, 0, 0) == i);
    } else {
        lemma_int_dec(i.imm as int);
        lemma_imm_int(i.imm as int);
        assert(mk((code << 4u8) | cls, i.dst, 0, 0, i.imm as i64 as i32) == i);
    }
}

/// An ALU instruction's text assembles back to it.
#[verifier::spinoff_prover]
#[verifier::rlimit(40)]
proof fn lemma_reasm_alu(insns: Seq<RawInsn>, pc: int)
    requires
        0 <= pc < insns.len(),
        !upper_half(insns, pc),
        alu_form(insns[pc]),
    ensures
        assemble_spec(disasm_spec(insns, pc)) == (seq![insns[pc]], Seq::<AsmErrorView>::empty()),
{
    let i = insns[pc];
    let code = i.op >> 4u8;
    let m = lemma_alu_text(insns, pc);
    let d = reg_text(i.dst);
    lemma_reg_text(i.dst);
    let r = if code == 8 {
        d
    } else if i.op & SRC_X != 0 {
        joined(d, reg_text(i.src))
    } else {
        joined(d, int_dec(i.imm as int))
    };
    let e = if code == 8 {
        d
    } else if i.op & SRC_X != 0 {
        reg_text(i.src)
    } else {
        int_dec(i.imm as int)
    };
    if code != 8 && i.op & SRC_X != 0 {
        lemma_reg_text(i.src);
    } else if code != 8 {
        lemma_int_dec(i.imm as int);
    }
    lemma_line_words(d, e, e);
    lemma_split_words(d, e, e);
    lemma_assemble_line(disasm_spec(insns, pc), m, r);
    lemma_emit_alu_line(i, m, split_operands(r));
}

/// The jump instructions that the assembler writes: `call` with a helper
/// number, `exit`, `ja` with an offset, and conditional jumps comparing a
/// register with a register (no immediate) or an immediate (no source).
pub open spec fn jmp_form(i: RawInsn) -> bool {
    let code = i.op >> 4u8;
    let x = i.op & SRC_X != 0;
    &&& i.cls() == CLS_JMP
    &&& {
        ||| i.op == OP_CALL && i.dst == 0 && i.src == 0 && i.off == 0
        ||| i.op == OP_EXIT && i.dst == 0 && i.src == 0 && i.off == 0 && i.imm == 0
        ||| i.op == 0x05 && i.dst == 0 && i.src == 0 && i.imm == 0
        ||| code != 0 && jmp_name(code) is Some && i.dst <= 10 && if x {
            i.imm == 0 && i.src <= 10
        } else {
            i.src == 0
        }
    }
}

proof fn lemma_jmp_consts()
    ensures
        OP_CALL >> 4u8 == 8,
        OP_EXIT >> 4u8 == 9,
        0x05u8 >> 4u8 == 0,
        OP_CALL & 0x07 == CLS_JMP,
        OP_EXIT & 0x07 == CLS_JMP,
        0x05u8 & 0x07 == CLS_JMP,
{
    lemma_op_consts();
}

/// A `call` assembles back from its text.
#[verifier::spinoff_prover]
#[verifier::rlimit(40)]
proof fn lemma_reasm_call(insns: Seq<RawInsn>, pc: int)
    requires
        0 <= pc < insns.len(),
        !upper_half(insns, pc),
        jmp_form(insns[pc]),
        insns[pc].op == OP_CALL,
    ensures
        assemble_spec(disasm_spec(insns, pc)) == (seq![insns[pc]], Seq::<AsmErrorView>::empty()),
{
    reveal_strlit("call ");
    reveal_strlit("call");
    let i = insns[pc];
    let t = disasm_spec(insns, pc);
    let v = int_dec(i.imm as int);
    lemma_int_dec(i.imm as int);
    assert(t =~= "call"@ + seq![' '] + v);
    lemma_line_words(v, v, v);
    lemma_split_words(v, v, v);
    lemma_assemble_line(t, "call"@, v);
    lemma_emit_call(i);
}

#[verifier::spinoff_prover]
#[verifier::rlimit(40)]
proof fn lemma_emit_call(i: RawInsn)
    requires
        jmp_form(i),
        i.op == OP_CALL,
    ensures
        emit_spec(
            LineView { number: 1, mnemonic: "call"@, operands: seq![int_dec(i.imm as int)] },
            0,
            Seq::empty(),
        ) == Ok::<Seq<RawInsn>, Seq<char>>(seq![i]),
{
    lemma_fixed_mnemonics();
    lemma_jmp_consts();
    lemma_imm_int(i.imm as int);
    assert(mk(OP_CALL, 0, 0, 0, i.imm as i64 as i32) == i);
}

/// An `exit` assembles back from its text.
#[verifier::spinoff_prover]
#[verifier::rlimit(40)]
proof fn lemma_reasm_exit(insns: Seq<RawInsn>, pc: int)
    requires
        0 <= pc < insns.len(),
        !upper_half(insns, pc),
        jmp_form(insns[pc]),
        insns[pc].op == OP_EXIT,
    ensures
        assemble_spec(disasm_spec(insns, pc)) == (seq![insns[pc]], Seq::<AsmErrorView>::empty()),
{
    reveal_strlit("exit");
    let i = insns[pc];
    let t = disasm_spec(insns, pc);
    lemma_fixed_mnemonics();
    lemma_jmp_consts();
    assert(t == "exit"@);
    lemma_split_end(Seq::<char>::empty());
    assert(trim(Seq::<char>::empty()) == Seq::<char>::empty());
    assert(split_operands(Seq::<char>::empty()) =~= Seq::<Seq<char>>::empty());
    lemma_assemble_line(t, "exit"@, Seq::empty());
    let l = LineView { number: 1, mnemonic: "exit"@, operands: Seq::empty() };
    assert(emit_spec(l, 0, Seq::empty()) == Ok::<Seq<RawInsn>, Seq<char>>(seq![i]));
}

/// A `ja` assembles back from its text.
#[verifier::spinoff_prover]
#[verifier::rlimit(40)]
proof fn lemma_reasm_ja(insns: Seq<RawInsn>, pc: int)
    requires
        0 <= pc < insns.len(),
        !upper_half(insns, pc),
        jmp_form(insns[pc]),
        insns[pc].op == 0x05,
    ensures
        assemble_spec(disasm_spec(insns, pc)) == (seq![insns[pc]], Seq::<AsmErrorView>::empty()),
{
    reveal_strlit("ja ");
    reveal_strlit("ja");
    let i = insns[pc];
    let t = disasm_spec(insns, pc);
    lemma_op_consts();
    let o = off_text(i.off);
    lemma_off_text(i.off, 0, Seq::empty());
    assert(t =~= "ja"@ + seq![' '] + o);
    lemma_line_words(o, o, o);
    lemma_split_words(o, o, o);
    lemma_assemble_line(t, "ja"@, o);
    lemma_emit_ja(i);
}

#[verifier::spinoff_prover]
#[verifier::rlimit(40)]
proof fn lemma_emit_ja(i: RawInsn)
    requires
        jmp_form(i),
        i.op == 0x05,
    ensures
        emit_spec(
            LineView { number: 1, mnemonic: "ja"@, operands: seq![off_text(i.off)] },
            0,
            Seq::empty(),
        ) == Ok::<Seq<RawInsn>, Seq<char>>(seq![i]),
{
    lemma_fixed_mnemonics();
    lemma_jmp_consts();
    lemma_off_text(i.off, 0, Seq::empty());
}

/// The statement of a conditional jump's text emits that jump.
#[verifier::spinoff_prover]
#[verifier::rlimit(40)]
proof fn lemma_emit_jmp_line(i: RawInsn, ops: Seq<Seq<char>>)
    requires
        jmp_form(i),
        i.op != OP_CALL && i.op != OP_EXIT && i.op != 0x05,
        i.op & SRC_X != 0 ==> ops == seq![reg_text(i.dst), reg_text(i.src), off_text(i.off)],
        i.op & SRC_X == 0 ==> ops == seq![
            reg_text(i.dst),
            int_dec(i.imm as int),
            off_text(i.off),
        ],
    ensures
        emit_spec(
            LineView { number: 1, mnemonic: jmp_name(i.op >> 4u8)->Some_0, operands: ops },
            0,
            Seq::empty(),
        ) == Ok::<Seq<RawInsn>, Seq<char>>(seq![i]),
{
    let code = i.op >> 4u8;
    let m = jmp_name(code)->Some_0;
    lemma_op_consts();
    assert(jmp_name(code) is Some);
    lemma_jmp_mnemonic(code);
    lemma_op_parts(i.op);
    lemma_reg_text(i.dst);
    lemma_off_text(i.off, 0, Seq::empty());
    assert(emit_spec(LineView { number: 1, mnemonic: m, operands: ops }, 0, Seq::empty())
        == emit_jump(m, ops, code, 0, Seq::empty()));
    if i.op & SRC_X != 0 {
        lemma_reg_text(i.src);
        assert(mk((code << 4u8) | SRC_X | CLS_JMP, i.dst, i.src, i.off, 0) == i);
    } else {
        lemma_int_dec(i.imm as int);
        lemma_imm_int(i.imm as int);
        assert(mk((code << 4u8) | CLS_JMP, i.dst, 0, i.off, i.imm as i64 as i32) == i);
    }
}

/// A conditional jump assembles back from its text.
#[verifier::spinoff_prover]
#[verifier::rlimit(40)]
proof fn lemma_reasm_cond_jmp(insns: Seq<RawInsn>, pc: int)
    requires
        0 <= pc < insns.len(),
        !upper_half(insns, pc),
        jmp_form(insns[pc]),
        insns[pc].op != OP_CALL && insns[pc].op != OP_EXIT && insns[pc].op != 0x05,
    ensures
        assemble_spec(disasm_spec(insns, pc)) == (seq![insns[pc]], Seq::<AsmErrorView>::empty()),
{
    reveal_strlit(", ");
    let i = insns[pc];
    let code = i.op >> 4u8;
    lemma_op_consts();
    lemma_op_parts(i.op);
    assert(code != 0) by {
        if code == 0 {
            assert(jmp_name(code) is Some);
        }
    }
    let m = jmp_name(code)->Some_0;
    lemma_jmp_mnemonic(code);
    let d = reg_text(i.dst);
    let o = off_text(i.off);
    lemma_reg_text(i.dst);
    lemma_off_text(i.off, 0, Seq::empty());
    let e = if i.op & SRC_X != 0 {
        reg_text(i.src)
    } else {
        int_dec(i.imm as int)
    };
    if i.op & SRC_X != 0 {
        lemma_reg_text(i.src);
    } else {
        lemma_int_dec(i.imm as int);
    }
    let t = disasm_spec(insns, pc);
    assert(", "@ =~= seq![',', ' ']);
    assert(t =~= m + seq![' '] + joined(joined(d, e), o));
    lemma_line_words(d, e, o);
    lemma_split_words(d, e, o);
    lemma_assemble_line(t, m, joined(joined(d, e), o));
    lemma_emit_jmp_line(i, split_operands(joined(joined(d, e), o)));
}

/// The bracketed memory operand `[rN+off]`.
pub open spec fn mem_text(r: u8, off: i16) -> Seq<char> {
    seq!['['] + reg_text(r) + off_text(off) + seq![']']
}

/// An `lddw` as the assembler writes it: a register, no source or offset,
/// and a second slot that holds only the upper half of the value.
pub open spec fn lddw_form(insns: Seq<RawInsn>, pc: int) -> bool {
    let i = insns[pc];
    &&& i.op == OP_LDDW
    &&& i.dst <= 10
    &&& i.src == 0
    &&& i.off == 0
    &&& pc + 1 < insns.len()
    &&& insns[pc + 1] == mk(0, 0, 0, 0, insns[pc + 1].imm)
}

/// The two halves of an `lddw` value are the halves it was made of.
proof fn lemma_wide_halves(lo: i32, hi: i32)
    ensures
        ((wide_value(lo, hi) as i64 as u64) as u32) as i32 == lo,
        (((wide_value(lo, hi) as i64 as u64) >> 32u64) as u32) as i32 == hi,
{
    assert(((((((lo as u32) as u64) | (((hi as u32) as u64) << 32u64)) as i64 as u64) as u32)
        as i32) == lo) by (bit_vector);
    assert(((((((lo as u32) as u64) | (((hi as u32) as u64) << 32u64)) as i64 as u64) >> 32u64)
        as u32) as i32 == hi) by (bit_vector);
}

/// The text of an `lddw`: the mnemonic, its register and the 64-bit value
/// in hexadecimal.
proof fn lemma_lddw_disasm(insns: Seq<RawInsn>, pc: int)
    requires
        0 <= pc < insns.len(),
        !upper_half(insns, pc),
        lddw_form(insns, pc),
    ensures
        disasm_spec(insns, pc) == "lddw"@ + seq![' '] + joined(
            reg_text(insns[pc].dst),
            seq!['0', 'x'] + hex(wide_value(insns[pc].imm, insns[pc + 1].imm) as nat),
        ),
{
    reveal_strlit("lddw ");
    reveal_strlit("lddw");
    reveal_strlit(", 0x");
    lemma_op_consts();
    let i = insns[pc];
    let v = wide_value(i.imm, insns[pc + 1].imm);
    assert(disasm_spec(insns, pc) =~= "lddw"@ + seq![' '] + joined(
        reg_text(i.dst),
        seq!['0', 'x'] + hex(v as nat),
    ));
}

/// An `lddw` assembles back from its text to both of its slots.
#[verifier::spinoff_prover]
#[verifier::rlimit(40)]
proof fn lemma_reasm_lddw(insns: Seq<RawInsn>, pc: int)
    requires
        0 <= pc < insns.len(),
        !upper_half(insns, pc),
        lddw_form(insns, pc),
    ensures
        assemble_spec(disasm_spec(insns, pc)) == (
            seq![insns[pc], insns[pc + 1]],
            Seq::<AsmErrorView>::empty(),
        ),
{
    let i = insns[pc];
    let v = wide_value(i.imm, insns[pc + 1].imm);
    let d = reg_text(i.dst);
    let h = seq!['0', 'x'] + hex(v as nat);
    lemma_reg_text(i.dst);
    lemma_imm_hex(v);
    lemma_fixed_mnemonics();
    lemma_lddw_disasm(insns, pc);
    lemma_line_words(d, h, h);
    lemma_split_words(d, h, h);
    assert(split_operands(joined(d, h)) == seq![d, h]);
    lemma_assemble_line(disasm_spec(insns, pc), "lddw"@, joined(d, h));
    lemma_emit_lddw(i, insns[pc + 1], v);
    assert(LineView { number: 1, mnemonic: "lddw"@, operands: split_operands(joined(d, h)) }
        == LineView { number: 1, mnemonic: "lddw"@, operands: seq![d, h] });
}

#[verifier::spinoff_prover]
#[verifier::rlimit(40)]
proof fn lemma_emit_lddw(i: RawInsn, j: RawInsn, v: u64)
    requires
        i.op == OP_LDDW,
        i.dst <= 10,
        i.src == 0,
        i.off == 0,
        j == mk(0, 0, 0, 0, j.imm),
        v == wide_value(i.imm, j.imm),
    ensures
        emit_spec(
            LineView {
                number: 1,
                mnemonic: "lddw"@,
                operands: seq![reg_text(i.dst), seq!['0', 'x'] + hex(v as nat)],
            },
            0,
            Seq::empty(),
        ) == Ok::<Seq<RawInsn>, Seq<char>>(seq![i, j]),
{
    lemma_fixed_mnemonics();
    lemma_reg_text(i.dst);
    lemma_imm_hex(v);
    lemma_wide_halves(i.imm, j.imm);
}

/// Loads and stores as the assembler writes them: a known opcode, and no
/// immediate for register forms, no source register for immediate stores.
pub open spec fn mem_form(i: RawInsn) -> bool {
    &&& mem_op(i.op)
    &&& i.dst <= 10
    &&& i.src <= 10
    &&& i.cls() == CLS_LDX ==> i.imm == 0
    &&& i.cls() == CLS_ST ==> i.src == 0
    &&& i.cls() == CLS_STX ==> i.imm == 0
}

/// The operands that the disassembler writes for a load or store.
pub open spec fn mem_operands(i: RawInsn) -> (Seq<char>, Seq<char>) {
    if i.cls() == CLS_LDX {
        (reg_text(i.dst), mem_text(i.src, i.off))
    } else if i.cls() == CLS_ST {
        (mem_text(i.dst, i.off), int_dec(i.imm as int))
    } else {
        (mem_text(i.dst, i.off), reg_text(i.src))
    }
}

#[verifier::spinoff_prover]
#[verifier::rlimit(40)]
proof fn lemma_emit_mem_line(i: RawInsn)
    requires
        mem_form(i),
    ensures
        emit_spec(
            LineView {
                number: 1,
                mnemonic: mem_mnemonic(i.op),
                operands: seq![mem_operands(i).0, mem_operands(i).1],
            },
            0,
            Seq::empty(),
        ) == Ok::<Seq<RawInsn>, Seq<char>>(seq![i]),
{
    let m = mem_mnemonic(i.op);
    let ops = seq![mem_operands(i).0, mem_operands(i).1];
    lemma_mem_mnemonic(i.op);
    assert(emit_spec(LineView { number: 1, mnemonic: m, operands: ops }, 0, Seq::empty())
        == emit_mem(m, ops, i.op, i.op & 0x07));
    lemma_reg_text(i.dst);
    lemma_reg_text(i.src);
    lemma_mem_text(i.dst, i.off);
    lemma_mem_text(i.src, i.off);
    lemma_int_dec(i.imm as int);
    lemma_imm_int(i.imm as int);
    if i.cls() == CLS_ST {
        assert(mk(i.op, i.dst, 0, i.off, i.imm as i64 as i32) == i);
    }
}

/// The text of a load or store: its mnemonic, a space and its two operands.
proof fn lemma_mem_disasm(insns: Seq<RawInsn>, pc: int)
    requires
        0 <= pc < insns.len(),
        !upper_half(insns, pc),
        mem_form(insns[pc]),
    ensures
        disasm_spec(insns, pc) == mem_mnemonic(insns[pc].op) + seq![' '] + joined(
            mem_operands(insns[pc]).0,
            mem_operands(insns[pc]).1,
        ),
{
    reveal_strlit(", [");
    reveal_strlit(" [");
    reveal_strlit("], ");
    reveal_strlit("ldx");
    reveal_strlit("st");
    reveal_strlit("stx");
    let i = insns[pc];
    lemma_mem_mnemonic(i.op);
    lemma_op_consts();
    let t = disasm_spec(insns, pc);
    let sfx = size_suffix_spec(i.op);
    if i.cls() == CLS_LDX {
        assert(t =~= "ldx"@ + sfx + seq![' '] + joined(reg_text(i.dst), mem_text(i.src, i.off)));
    } else if i.cls() == CLS_ST {
        assert(t =~= "st"@ + sfx + seq![' '] + joined(
            mem_text(i.dst, i.off),
            int_dec(i.imm as int),
        ));
    } else {
        assert(t =~= "stx"@ + sfx + seq![' '] + joined(mem_text(i.dst, i.off), reg_text(i.src)));
    }
}

proof fn lemma_mem_operand_words(i: RawInsn)
    requires
        mem_form(i),
    ensures
        word(mem_operands(i).0),
        word(mem_operands(i).1),
{
    lemma_reg_text(i.dst);
    lemma_reg_text(i.src);
    lemma_mem_text(i.dst, i.off);
    lemma_mem_text(i.src, i.off);
    lemma_int_dec(i.imm as int);
}

/// A load or store assembles back from its text.
#[verifier::spinoff_prover]
#[verifier::rlimit(40)]
proof fn lemma_reasm_mem(insns: Seq<RawInsn>, pc: int)
    requires
        0 <= pc < insns.len(),
        !upper_half(insns, pc),
        mem_form(insns[pc]),
    ensures
        assemble_spec(disasm_spec(insns, pc)) == (seq![insns[pc]], Seq::<AsmErrorView>::empty()),
{
    let i = insns[pc];
    lemma_mem_mnemonic(i.op);
    let m = mem_mnemonic(i.op);
    let a = mem_operands(i).0;
    let b = mem_operands(i).1;
    lemma_mem_operand_words(i);
    lemma_mem_disasm(insns, pc);
    lemma_line_words(a, b, b);
    lemma_split_words(a, b, b);
    assert(split_operands(joined(a, b)) == seq![a, b]);
    lemma_assemble_line(disasm_spec(insns, pc), m, joined(a, b));
    lemma_emit_mem_line(i);
    assert(LineView { number: 1, mnemonic: m, operands: split_operands(joined(a, b)) }
        == LineView { number: 1, mnemonic: m, operands: seq![a, b] });
}

/// Whether the instruction at `pc` is one that the assembler writes: an
/// ALU operation, a jump, call or exit, an `lddw` with its second slot, or
/// a load or store, each with the fields that its text shows and no others.
pub open spec fn assembler_form(insns: Seq<RawInsn>, pc: int) -> bool {
    ||| alu_form(insns[pc])
    ||| jmp_form(insns[pc])
    ||| lddw_form(insns, pc)
    ||| mem_form(insns[pc])
}

/// The number of slots that the instruction at `pc` takes.
pub open spec fn slot_width(insns: Seq<RawInsn>, pc: int) -> int {
    if insns[pc].wide() {
        2
    } else {
        1
    }
}

/// Disassembled text assembles back: the text that the disassembler writes
/// for an instruction of the assembler's forms (not the second slot of an
/// `lddw`) assembles, without errors, to the same slot or slots.
pub proof fn lemma_disasm_reassembles(insns: Seq<RawInsn>, pc: int)
    requires
        0 <= pc < insns.len(),
        !upper_half(insns, pc),
        assembler_form(insns, pc),
    ensures
        pc + slot_width(insns, pc) <= insns.len(),
        assemble_spec(disasm_spec(insns, pc)) == (
            insns.subrange(pc, pc + slot_width(insns, pc)),
            Seq::<AsmErrorView>::empty(),
        ),
{
    let i = insns[pc];
    lemma_op_consts();
    if alu_form(i) {
        lemma_reasm_alu(insns, pc);
    } else if jmp_form(i) {
        if i.op == OP_CALL {
            lemma_reasm_call(insns, pc);
        } else if i.op == OP_EXIT {
            lemma_reasm_exit(insns, pc);
        } else if i.op == 0x05 {
            lemma_reasm_ja(insns, pc);
        } else {
            lemma_reasm_cond_jmp(insns, pc);
        }
    } else if lddw_form(insns, pc) {
        lemma_reasm_lddw(insns, pc);
        assert(insns.subrange(pc, pc + 2) =~= seq![insns[pc], insns[pc + 1]]);
    } else {
        lemma_reasm_mem(insns, pc);
    }
    if !i.wide() {
        assert(insns.subrange(pc, pc + 1) =~= seq![insns[pc]]);
    }
}

/// An opcode put together from a code, a source bit and a class gives
/// them back.
proof fn lemma_op_build(code: u8, x: u8, cls: u8)
    requires
        code <= 15,
        x == 0 || x == SRC_X,
        cls <= 7,
    ensures
        ((code << 4u8) | x | cls) >> 4u8 == code,
        ((code << 4u8) | x | cls) & SRC_X == x,
        ((code << 4u8) | x | cls) & 0x07 == cls,
        (code << 4u8) | cls == (code << 4u8) | 0u8 | cls,
{
    assert(code <= 15 && (x == 0 || x == 8) && cls <= 7 ==> ((code << 4u8) | x | cls) >> 4u8
        == code && ((code << 4u8) | x | cls) & 8u8 == x && ((code << 4u8) | x | cls) & 7u8 == cls
        && (code << 4u8) | cls == (code << 4u8) | 0u8 | cls) by (bit_vector);
}

/// The instructions that one statement emits: one slot of the assembler's
/// forms, or the two slots of an `lddw`.
pub open spec fn emitted_form(v: Seq<RawInsn>) -> bool {
    ||| v.len() == 1 && (alu_form(v[0]) || jmp_form(v[0]) || mem_form(v[0])) && !v[0].wide()
    ||| v.len() == 2 && v[0].op == OP_LDDW && v[0].dst <= 10 && v[0].src == 0 && v[0].off == 0
        && v[1] == mk(0, 0, 0, 0, v[1].imm)
}

proof fn lemma_emit_alu_form(m: Seq<char>, ops: Seq<Seq<char>>, code: u8, cls: u8)
    requires
        code <= 12,
        cls == CLS_ALU32 || cls == CLS_ALU64,
    ensures
        emit_alu(m, ops, code, cls) is Ok ==> emitted_form(emit_alu(m, ops, code, cls)->Ok_0),
{
    lemma_op_build(code, 0, cls);
    lemma_op_build(code, SRC_X, cls);
    lemma_op_consts();
}

proof fn lemma_mem_opcode_form(m: Seq<char>)
    requires
        mem_opcode(m) is Some,
    ensures
        mem_op(mem_opcode(m)->Some_0.0),
        mem_opcode(m)->Some_0.0 & 0x07 == mem_opcode(m)->Some_0.1,
        mem_opcode(m)->Some_0.1 == CLS_LDX || mem_opcode(m)->Some_0.1 == CLS_ST
            || mem_opcode(m)->Some_0.1 == CLS_STX,
        mem_opcode(m)->Some_0.0 != OP_LDDW,
{
    lemma_op_consts();
}

proof fn lemma_emit_mem_form(m: Seq<char>, ops: Seq<Seq<char>>)
    requires
        mem_opcode(m) is Some,
    ensures
        ({
            let (op, cls) = mem_opcode(m)->Some_0;
            emit_mem(m, ops, op, cls) is Ok ==> emitted_form(emit_mem(m, ops, op, cls)->Ok_0)
        }),
{
    lemma_mem_opcode_form(m);
}

proof fn lemma_emit_jump_form(
    m: Seq<char>,
    ops: Seq<Seq<char>>,
    code: u8,
    pc: int,
    labels: Seq<(Seq<char>, usize)>,
)
    requires
        jmp_code(m) == Some(code),
        m != "ja"@,
    ensures
        emit_jump(m, ops, code, pc, labels) is Ok ==> emitted_form(
            emit_jump(m, ops, code, pc, labels)->Ok_0,
        ),
{
    reveal_strlit("ja");
    assert(code != 0 && code <= 13 && jmp_name(code) is Some);
    lemma_op_build(code, 0, CLS_JMP);
    lemma_op_build(code, SRC_X, CLS_JMP);
    lemma_op_consts();
    lemma_jmp_consts();
    let op0 = (code << 4u8) | CLS_JMP;
    let op1 = (code << 4u8) | SRC_X | CLS_JMP;
    assert(op0 != OP_CALL && op0 != OP_EXIT && op0 != 0x05);
    assert(op1 != OP_CALL && op1 != OP_EXIT && op1 != 0x05);
}

/// Whatever one statement emits is of the assembler's forms.
pub proof fn lemma_emit_form(line: LineView, pc: int, labels: Seq<(Seq<char>, usize)>)
    ensures
        emit_spec(line, pc, labels) is Ok ==> emitted_form(emit_spec(line, pc, labels)->Ok_0),
{
    reveal_strlit("add");
    reveal_strlit("sub");
    reveal_strlit("mul");
    reveal_strlit("div");
    reveal_strlit("or");
    reveal_strlit("and");
    reveal_strlit("lsh");
    reveal_strlit("rsh");
    reveal_strlit("neg");
    reveal_strlit("mod");
    reveal_strlit("xor");
    reveal_strlit("mov");
    reveal_strlit("arsh");
    let m = lower(line.mnemonic);
    let ops = line.operands;
    lemma_jmp_consts();
    lemma_op_consts();
    match alu_split(m) {
        Some((code, cls)) => {
            let base = if m.len() >= 2 && m.skip(m.len() - 2) == seq!['3', '2'] && alu_code(
                m.take(m.len() - 2),
            ) is Some {
                m.take(m.len() - 2)
            } else {
                m
            };
            assert(alu_code(base) == Some(code));
            lemma_emit_alu_form(m, ops, code, cls);
        },
        None => {
            if m == "lddw"@ {
            } else if mem_opcode(m) is Some {
                lemma_emit_mem_form(m, ops);
            } else if m == "ja"@ {
            } else if m == "call"@ {
            } else if m == "exit"@ {
            } else {
                match jmp_code(m) {
                    Some(code) => {
                        lemma_emit_jump_form(m, ops, code, pc, labels);
                    },
                    None => {},
                }
            }
        },
    }
}

/// Every slot that does not hold the second half of an `lddw` is of the
/// assembler's forms, and the last slot does not start an `lddw`.
pub open spec fn slotted(s: Seq<RawInsn>) -> bool {
    &&& forall|pc: int| 0 <= pc < s.len() && !upper_half(s, pc) ==> #[trigger] assembler_form(s, pc)
    &&& s.len() > 0 ==> !s.last().wide()
}

proof fn lemma_slotted_append(s: Seq<RawInsn>, v: Seq<RawInsn>)
    requires
        slotted(s),
        emitted_form(v),
    ensures
        slotted(s + v),
{
    let t = s + v;
    lemma_op_consts();
    assert forall|pc: int| 0 <= pc < t.len() && !upper_half(t, pc) implies #[trigger] assembler_form(
        t,
        pc,
    ) by {
        if pc < s.len() {
            assert(t[pc] == s[pc]);
            if pc > 0 {
                assert(t[pc - 1] == s[pc - 1]);
            }
            assert(!upper_half(s, pc));
            assert(assembler_form(s, pc));
            if pc + 1 < s.len() {
                assert(t[pc + 1] == s[pc + 1]);
            }
            if lddw_form(s, pc) {
                assert(lddw_form(t, pc));
            }
        } else {
            let j = pc - s.len();
            assert(t[pc] == v[j]);
            if j == 0 {
                if v.len() == 2 {
                    assert(t[pc + 1] == v[1]);
                    assert(lddw_form(t, pc));
                }
            } else {
                assert(t[pc - 1] == v[0]);
            }
        }
    }
    assert(t.last() == v.last());
}

/// The second pass, while it finds no error, lays out slots of the
/// assembler's forms.
proof fn lemma_pass2_slotted(
    stmts: Seq<LineView>,
    labels: Seq<(Seq<char>, usize)>,
    e0: Seq<AsmErrorView>,
    k: nat,
)
    ensures
        pass2(stmts, labels, e0, k).errors.len() >= e0.len(),
        pass2(stmts, labels, e0, k).errors.len() == e0.len() ==> slotted(
            pass2(stmts, labels, e0, k).insns,
        ),
    decreases k,
{
    if k > 0 {
        lemma_pass2_slotted(stmts, labels, e0, (k - 1) as nat);
        let p = pass2(stmts, labels, e0, (k - 1) as nat);
        let line = stmts[k - 1];
        lemma_emit_form(line, p.insns.len() as int, labels);
        match emit_spec(line, p.insns.len() as int, labels) {
            Ok(v) => {
                if p.errors.len() == e0.len() {
                    lemma_slotted_append(p.insns, v);
                }
            },
            Err(_) => {},
        }
    } else {
        assert(pass2(stmts, labels, e0, 0).insns.len() == 0);
    }
}

/// Disassembled text assembles back: for a program that assembled without
/// errors, the text that the disassembler writes for any slot (but the
/// second slot of an `lddw`) assembles, without errors, to the same slot
/// or slots.
pub proof fn lemma_assembled_reassembles(source: Seq<char>, pc: int)
    requires
        assemble_spec(source).1.len() == 0,
        0 <= pc < assemble_spec(source).0.len(),
        !upper_half(assemble_spec(source).0, pc),
    ensures
        ({
            let insns = assemble_spec(source).0;
            &&& pc + slot_width(insns, pc) <= insns.len()
            &&& assemble_spec(disasm_spec(insns, pc)) == (
                insns.subrange(pc, pc + slot_width(insns, pc)),
                Seq::<AsmErrorView>::empty(),
            )
        }),
{
    let src = lines(source);
    let p1 = pass1(src, src.len());
    lemma_pass2_slotted(p1.lines, p1.labels, p1.errors, p1.lines.len());
    let insns = assemble_spec(source).0;
    assert(slotted(insns));
    assert(assembler_form(insns, pc));
    lemma_disasm_reassembles(insns, pc);
}

} // verus!