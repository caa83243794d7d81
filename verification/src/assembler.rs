//! Two-pass assembler for a friendly eBPF assembly dialect:
//!
//! ```text
//! ; sum the packet bytes (r1 = packet ptr, r2 = length)
//!         mov r0, 0
//!         add r2, r1          ; r2 = end pointer
//! loop:   jge r1, r2, done
//!         ldxb r3, [r1+0]
//!         add r0, r3
//!         add r1, 1
//!         ja loop
//! done:   exit
//! ```
//!
//! Labels may sit on their own line or prefix an instruction. Comments start
//! with `;`, `#`, or `//`. Jump targets are labels or explicit `+N`/`-N`
//! slot offsets.
use vstd::prelude::*;
use vstd::string::*;
use crate::text::{
    parse_hex, parse_hex_spec, parse_i64, parse_i64_spec, parse_u8, parse_u8_spec, push_chars,
    push_dec, push_str, string_of, dec, find_char, find_char_from, find_ws, has_ws, index_of, index_of_ws,
    lemma_has_ws, lemma_index_of_found, lemma_index_of_ws_found, lemma_trim_len, lines,
    lines_view, lower, quoted, same_chars, split_lines, str_chars, subvec, to_lower, trim,
    trim_chars, chars_eq,
};
use crate::isa::{RawInsn, CLS_ALU32, CLS_ALU64, CLS_JMP, OP_CALL, OP_EXIT, OP_LDDW, SRC_X};

verus! {

/// An assembly error: the 1-based source line and the message.
#[derive(Debug, Clone)]
pub struct AsmError {
    pub line: u32,
    pub msg: String,
}

/// An `AsmError` as a mathematical value.
pub struct AsmErrorView {
    pub line: u32,
    pub msg: Seq<char>,
}

impl View for AsmError {
    type V = AsmErrorView;

    open spec fn view(&self) -> AsmErrorView {
        AsmErrorView { line: self.line, msg: self.msg@ }
    }
}

/// Errors as mathematical values.
pub open spec fn errors_view(e: Seq<AsmError>) -> Seq<AsmErrorView> {
    e.map_values(|x: AsmError| x@)
}

/// A statement of the source: its line, mnemonic and operands.
pub struct LineView {
    pub number: u32,
    pub mnemonic: Seq<char>,
    pub operands: Seq<Seq<char>>,
}

/// The label table: names and slots, in the order they were defined.
pub open spec fn labels_view(l: Seq<(Vec<char>, usize)>) -> Seq<(Seq<char>, usize)> {
    l.map_values(|e: (Vec<char>, usize)| (e.0@, e.1))
}

/// The slot of a label: that of its last definition.
pub open spec fn lookup(labels: Seq<(Seq<char>, usize)>, name: Seq<char>) -> Option<usize>
    decreases labels.len(),
{
    if labels.len() == 0 {
        None
    } else if labels.last().0 == name {
        Some(labels.last().1)
    } else {
        lookup(labels.drop_last(), name)
    }
}

// ---------------------------------------------------------------------------
// Lexing
// ---------------------------------------------------------------------------

/// Whether a comment (`;`, `#` or `//`) starts at `i`.
pub open spec fn comment_at(s: Seq<char>, i: int) -> bool {
    s[i] == ';' || s[i] == '#' || (s[i] == '/' && i + 1 < s.len() && s[i + 1] == '/')
}

/// The first position from `i` on where a comment starts, or the length.
pub open spec fn comment_from(s: Seq<char>, i: int) -> int
    decreases s.len() - i,
{
    if i < 0 || i >= s.len() {
        s.len() as int
    } else if comment_at(s, i) {
        i
    } else {
        comment_from(s, i + 1)
    }
}

/// A line without its comment.
pub open spec fn strip_comment_spec(s: Seq<char>) -> Seq<char> {
    s.take(comment_from(s, 0))
}

/// The first whitespace-separated word, and what follows the whitespace
/// character after it.
pub open spec fn split_stmt(text: Seq<char>) -> (Seq<char>, Seq<char>) {
    match index_of_ws(text) {
        None => (text, Seq::empty()),
        Some(i) => (text.take(i), text.skip(i + 1)),
    }
}

/// `t` as a one-element list unless it is empty.
pub open spec fn keep_nonempty(t: Seq<char>) -> Seq<Seq<char>> {
    if t.len() > 0 {
        seq![t]
    } else {
        Seq::empty()
    }
}

/// The comma-separated operands, trimmed, empty ones dropped.
pub open spec fn split_operands(s: Seq<char>) -> Seq<Seq<char>>
    decreases s.len(),
{
    match index_of(s, ',') {
        None => keep_nonempty(trim(s)),
        Some(i) => {
            proof {
                lemma_index_of_found(s, ',');
            }
            keep_nonempty(trim(s.take(i))) + split_operands(s.skip(i + 1))
        },
    }
}

/// Whether a mnemonic is `lddw` in any case.
pub open spec fn is_lddw(m: Seq<char>) -> bool {
    lower(m) == "lddw"@
}

/// The slots a statement takes: two for `lddw`, one otherwise.
pub open spec fn slot_size(m: Seq<char>) -> nat {
    if is_lddw(m) {
        2
    } else {
        1
    }
}

/// Reads the labels in front of a statement: each `name:` is defined at
/// `slot` (an empty name or one with whitespace is an error; a name seen
/// before is redefined, and reported).
pub open spec fn scan_labels(
    text: Seq<char>,
    number: u32,
    slot: usize,
    labels: Seq<(Seq<char>, usize)>,
    errors: Seq<AsmErrorView>,
) -> (Seq<char>, Seq<(Seq<char>, usize)>, Seq<AsmErrorView>)
    decreases text.len(),
{
    match index_of(text, ':') {
        None => (text, labels, errors),
        Some(c) => {
            proof {
                lemma_index_of_found(text, ':');
                lemma_trim_len(text.skip(c + 1));
            }
            let label = trim(text.take(c));
            let rest = trim(text.skip(c + 1));
            if label.len() == 0 || has_ws(label) {
                scan_labels(
                    rest,
                    number,
                    slot,
                    labels,
                    errors.push(
                        AsmErrorView { line: number, msg: "invalid label `"@ + label + "`"@ },
                    ),
                )
            } else {
                let errors2 = if lookup(labels, label) is Some {
                    errors.push(
                        AsmErrorView { line: number, msg: "duplicate label `"@ + label + "`"@ },
                    )
                } else {
                    errors
                };
                scan_labels(rest, number, slot, labels.push((label, slot)), errors2)
            }
        },
    }
}

/// What the first pass has gathered: labels, errors, the next free slot
/// and the statements.
pub struct Pass1 {
    pub labels: Seq<(Seq<char>, usize)>,
    pub errors: Seq<AsmErrorView>,
    pub slot: nat,
    pub lines: Seq<LineView>,
}

/// The first pass over one source line.
pub open spec fn pass1_line(p: Pass1, raw: Seq<char>, number: u32) -> Pass1 {
    let text0 = trim(strip_comment_spec(raw));
    let (text, labels, errors) = scan_labels(text0, number, p.slot as usize, p.labels, p.errors);
    if text.len() == 0 {
        Pass1 { labels, errors, ..p }
    } else {
        let (m, rest) = split_stmt(text);
        Pass1 {
            labels,
            errors,
            slot: p.slot + slot_size(m),
            lines: p.lines.push(LineView { number, mnemonic: m, operands: split_operands(rest) }),
        }
    }
}

/// The first pass over the first `k` source lines.
pub open spec fn pass1(src: Seq<Seq<char>>, k: nat) -> Pass1
    decreases k,
{
    if k == 0 {
        Pass1 { labels: Seq::empty(), errors: Seq::empty(), slot: 0, lines: Seq::empty() }
    } else {
        pass1_line(pass1(src, (k - 1) as nat), src[k - 1], k as u32)
    }
}

// ---------------------------------------------------------------------------
// Lexing, executable
// ---------------------------------------------------------------------------

struct Line {
    number: u32,
    mnemonic: Vec<char>,
    operands: Vec<Vec<char>>,
}

impl View for Line {
    type V = LineView;

    closed spec fn view(&self) -> LineView {
        LineView {
            number: self.number,
            mnemonic: self.mnemonic@,
            operands: lines_view(self.operands@),
        }
    }
}

spec fn stmts_view(v: Seq<Line>) -> Seq<LineView> {
    v.map_values(|l: Line| l@)
}

fn strip_comment(s: &Vec<char>) -> (r: Vec<char>)
    ensures
        r@ == strip_comment_spec(s@),
{
    let mut i: usize = 0;
    while i < s.len()
        invariant
            i <= s@.len(),
            comment_from(s@, 0) == comment_from(s@, i as int),
        decreases s@.len() - i,
    {
        let c = s[i];
        if c == ';' || c == '#' || (c == '/' && i + 1 < s.len() && s[i + 1] == '/') {
            return subvec(s, 0, i);
        }
        i = i + 1;
    }
    subvec(s, 0, i)
}

fn lookup_label(labels: &Vec<(Vec<char>, usize)>, name: &Vec<char>) -> (r: Option<usize>)
    ensures
        r == lookup(labels_view(labels@), name@),
{
    let mut k: usize = labels.len();
    assert(labels@.take(k as int) =~= labels@);
    while k > 0
        invariant
            k <= labels@.len(),
            lookup(labels_view(labels@), name@) == lookup(labels_view(labels@.take(k as int)), name@),
        decreases k,
    {
        let ghost t = labels_view(labels@.take(k as int));
        assert(labels_view(labels@.take(k as int)).drop_last() =~= labels_view(labels@.take(k - 1)));
        if same_chars(&labels[k - 1].0, name) {
            return Some(labels[k - 1].1);
        }
        k = k - 1;
    }
    None
}

fn split_operands_exec(s: &Vec<char>) -> (r: Vec<Vec<char>>)
    ensures
        lines_view(r@) == split_operands(s@),
{
    let mut out: Vec<Vec<char>> = Vec::new();
    let mut start: usize = 0;
    let n = s.len();
    assert(s@.skip(0) =~= s@);
    loop
        invariant
            n == s@.len(),
            start <= s@.len(),
            split_operands(s@) == lines_view(out@) + split_operands(s@.skip(start as int)),
        decreases s@.len() - start,
    {
        let ghost rest = s@.skip(start as int);
        match find_char_from(s, ',', start) {
            Some(j) => {
                let piece = subvec(s, start, j);
                let t = trim_chars(&piece);
                let ghost before = lines_view(out@);
                assert(piece@ =~= rest.take(j - start));
                if t.len() > 0 {
                    out.push(t);
                }
                assert(lines_view(out@) =~= before + keep_nonempty(trim(rest.take(j - start))));
                assert(rest.skip(j - start + 1) =~= s@.skip(j + 1));
                assert(lines_view(out@) + split_operands(s@.skip(j + 1)) =~= before
                    + split_operands(rest));
                start = j + 1;
            },
            None => {
                let piece = subvec(s, start, s.len());
                let t = trim_chars(&piece);
                let ghost before = lines_view(out@);
                assert(piece@ =~= rest);
                if t.len() > 0 {
                    out.push(t);
                }
                assert(lines_view(out@) =~= before + keep_nonempty(trim(rest)));
                return out;
            },
        }
    }
}

fn is_lddw_exec(m: &Vec<char>) -> (b: bool)
    ensures
        b == is_lddw(m@),
{
    let l = to_lower(m);
    chars_eq(&l, "lddw")
}

/// Reads the labels in front of a statement (see `scan_labels`).
fn scan_labels_exec(
    stmt: Vec<char>,
    number: u32,
    slot: usize,
    labels: &mut Vec<(Vec<char>, usize)>,
    errors: &mut Vec<AsmError>,
) -> (r: Vec<char>)
    ensures
        scan_labels(stmt@, number, slot, labels_view(old(labels)@), errors_view(old(errors)@)) == (
            r@,
            labels_view(final(labels)@),
            errors_view(final(errors)@),
        ),
{
    let ghost goal = scan_labels(stmt@, number, slot, labels_view(labels@), errors_view(errors@));
    let ghost t0 = stmt@;
    let mut text = stmt;
    loop
        invariant
            t0 == stmt@,
            goal == scan_labels(t0, number, slot, labels_view(old(labels)@), errors_view(old(errors)@)),
            goal == scan_labels(text@, number, slot, labels_view(labels@), errors_view(errors@)),
        decreases text@.len(),
    {
        match find_char(&text, ':') {
            None => {
                assert(goal == (text@, labels_view(labels@), errors_view(errors@)));
                return text;
            },
            Some(c) => {
                let tl = text.len();
                proof {
                    lemma_index_of_found(text@, ':');
                    lemma_trim_len(text@.skip(c + 1));
                }
                let head = subvec(&text, 0, c);
                let label = trim_chars(&head);
                let tail = subvec(&text, c + 1, text.len());
                let rest = trim_chars(&tail);
                assert(head@ =~= text@.take(c as int));
                assert(tail@ =~= text@.skip(c + 1));
                proof {
                    lemma_has_ws(label@);
                }
                let ghost e0 = errors_view(errors@);
                let ghost l0 = labels_view(labels@);
                if label.len() == 0 || find_ws(&label).is_some() {
                    let msg = quoted("invalid label `", &label, "`");
                    errors.push(AsmError { line: number, msg });
                    assert(errors_view(errors@) =~= e0.push(
                        AsmErrorView { line: number, msg: "invalid label `"@ + label@ + "`"@ },
                    ));
                } else {
                    let dup = match lookup_label(labels, &label) {
                        Some(_) => Some(quoted("duplicate label `", &label, "`")),
                        None => None,
                    };
                    let ghost lab = label@;
                    labels.push((label, slot));
                    assert(labels_view(labels@) =~= l0.push((lab, slot)));
                    match dup {
                        Some(msg) => {
                            errors.push(AsmError { line: number, msg });
                            assert(errors_view(errors@) =~= e0.push(
                                AsmErrorView {
                                    line: number,
                                    msg: "duplicate label `"@ + lab + "`"@,
                                },
                            ));
                        },
                        None => {},
                    }
                }
                text = rest;
            },
        }
    }
}


/// The first pass, executable: labels, errors, next free slot, statements.
fn first_pass(src: &Vec<Vec<char>>) -> (r: (Vec<(Vec<char>, usize)>, Vec<AsmError>, usize, Vec<Line>))
    requires
        src@.len() <= u32::MAX,
        2 * src@.len() <= usize::MAX,
    ensures
        pass1(lines_view(src@), src@.len()) == (Pass1 {
            labels: labels_view(r.0@),
            errors: errors_view(r.1@),
            slot: r.2 as nat,
            lines: stmts_view(r.3@),
        }),
{
    let mut labels: Vec<(Vec<char>, usize)> = Vec::new();
    let mut errors: Vec<AsmError> = Vec::new();
    let mut slot: usize = 0;
    let mut stmts: Vec<Line> = Vec::new();
    let n = src.len();
    let mut i: usize = 0;
    assert(labels_view(labels@) =~= Seq::<(Seq<char>, usize)>::empty());
    assert(errors_view(errors@) =~= Seq::<AsmErrorView>::empty());
    assert(stmts_view(stmts@) =~= Seq::<LineView>::empty());
    while i < n
        invariant
            n == src@.len(),
            n <= u32::MAX,
            2 * n <= usize::MAX,
            i <= n,
            slot <= 2 * i,
            pass1(lines_view(src@), i as nat) == (Pass1 {
                labels: labels_view(labels@),
                errors: errors_view(errors@),
                slot: slot as nat,
                lines: stmts_view(stmts@),
            }),
        decreases n - i,
    {
        let number = (i + 1) as u32;
        let stripped = strip_comment(&src[i]);
        let text0 = trim_chars(&stripped);
        assert(src@[i as int]@ == lines_view(src@)[i as int]);
        let text = scan_labels_exec(text0, number, slot, &mut labels, &mut errors);
        if text.len() > 0 {
            let (m, rest) = match find_ws(&text) {
                Some(j) => {
                    proof {
                        lemma_index_of_ws_found(text@);
                    }
                    (subvec(&text, 0, j), subvec(&text, j + 1, text.len()))
                },
                None => (text, Vec::new()),
            };
            let operands = split_operands_exec(&rest);
            let size: usize = if is_lddw_exec(&m) {
                2
            } else {
                1
            };
            slot = slot + size;
            let ghost before = stmts_view(stmts@);
            let line = Line { number, mnemonic: m, operands };
            let ghost lv = line@;
            stmts.push(line);
            assert(stmts_view(stmts@) =~= before.push(lv));
        }
        i = i + 1;
    }
    (labels, errors, slot, stmts)
}


// ---------------------------------------------------------------------------
// Operands
// ---------------------------------------------------------------------------

/// A register operand: `r` and a number from 0 to 10 (as `str::parse`
/// reads it, so `r+5` and `r05` are r5).
pub open spec fn parse_reg_spec(tok: Seq<char>) -> Option<u8> {
    if tok.len() > 0 && tok[0] == 'r' {
        match parse_u8_spec(tok.drop_first()) {
            Some(n) => if n <= 10 {
                Some(n)
            } else {
                None
            },
            None => None,
        }
    } else {
        None
    }
}

/// Whether `b` starts with `0x` or `0X`.
pub open spec fn hex_prefixed(b: Seq<char>) -> bool {
    b.len() >= 2 && b[0] == '0' && (b[1] == 'x' || b[1] == 'X')
}

/// An immediate: an optional `-`, then either `0x`/`0X` and hexadecimal
/// digits (read as 64 bits, reinterpreted as signed) or a decimal `i64`.
/// The negation wraps.
pub open spec fn parse_imm_spec(tok: Seq<char>) -> Option<i64> {
    let neg = tok.len() > 0 && tok[0] == '-';
    let body = if neg {
        tok.drop_first()
    } else {
        tok
    };
    let value = if hex_prefixed(body) {
        match parse_hex_spec(body.skip(2)) {
            Some(v) => Some(v as i64),
            None => None,
        }
    } else {
        parse_i64_spec(body)
    };
    match value {
        Some(v) => Some(
            if neg {
                0i64.wrapping_sub(v)
            } else {
                v
            },
        ),
        None => None,
    }
}

/// The first index of `+` or `-`.
pub open spec fn index_of_sign(s: Seq<char>) -> Option<int>
    decreases s.len(),
{
    if s.len() == 0 {
        None
    } else if s[0] == '+' || s[0] == '-' {
        Some(0)
    } else {
        match index_of_sign(s.drop_first()) {
            Some(i) => Some(i + 1),
            None => None,
        }
    }
}

/// `s` without its spaces.
pub open spec fn no_spaces(s: Seq<char>) -> Seq<char>
    decreases s.len(),
{
    if s.len() == 0 {
        s
    } else if s.last() == ' ' {
        no_spaces(s.drop_last())
    } else {
        no_spaces(s.drop_last()).push(s.last())
    }
}

/// Whether `v` fits in 16 signed bits.
pub open spec fn fits16(v: int) -> bool {
    -0x8000 <= v <= 0x7fff
}

/// Whether `v` fits in 32 signed bits.
pub open spec fn fits32(v: int) -> bool {
    -0x8000_0000 <= v <= 0x7fff_ffff
}

/// A memory operand: `[rN]`, `[rN+off]` or `[rN-off]`.
pub open spec fn parse_mem_spec(tok: Seq<char>) -> Option<(u8, i16)> {
    if tok.len() >= 2 && tok[0] == '[' && tok.last() == ']' {
        let inner = tok.subrange(1, tok.len() - 1);
        match index_of_sign(inner) {
            None => match parse_reg_spec(trim(inner)) {
                Some(r) => Some((r, 0i16)),
                None => None,
            },
            Some(i) => match parse_reg_spec(trim(inner.take(i))) {
                None => None,
                Some(r) => match parse_imm_spec(no_spaces(trim(inner.skip(i)))) {
                    None => None,
                    Some(off) => if fits16(off as int) {
                        Some((r, off as i16))
                    } else {
                        None
                    },
                },
            },
        }
    } else {
        None
    }
}

/// `s` without its leading `+` signs.
pub open spec fn strip_pluses(s: Seq<char>) -> Seq<char>
    decreases s.len(),
{
    if s.len() > 0 && s[0] == '+' {
        strip_pluses(s.drop_first())
    } else {
        s
    }
}

/// Whether `c` is an ASCII decimal digit.
pub open spec fn is_ascii_digit(c: char) -> bool {
    '0' <= c && c <= '9'
}

/// A jump target: an explicit slot offset (starting with `+`, `-` or a
/// digit), or a label, relative to the slot after `pc`.
pub open spec fn jump_off_spec(tok: Seq<char>, pc: int, labels: Seq<(Seq<char>, usize)>) -> Result<
    i16,
    Seq<char>,
> {
    if tok.len() > 0 && (tok[0] == '+' || tok[0] == '-' || is_ascii_digit(tok[0])) {
        match parse_imm_spec(strip_pluses(tok)) {
            None => Err("bad jump offset `"@ + tok + "`"@),
            Some(off) => if fits16(off as int) {
                Ok(off as i16)
            } else {
                Err("jump offset `"@ + tok + "` out of range"@)
            },
        }
    } else {
        match lookup(labels, tok) {
            None => Err("unknown label `"@ + tok + "`"@),
            Some(target) => {
                let rel = target - pc - 1;
                if fits16(rel) {
                    Ok(rel as i16)
                } else {
                    Err("jump to `"@ + tok + "` out of range"@)
                }
            },
        }
    }
}

/// Reads a register operand.
fn parse_reg(tok: &Vec<char>) -> (r: Option<u8>)
    ensures
        r == parse_reg_spec(tok@),
{
    if tok.len() > 0 && tok[0] == 'r' {
        let body = subvec(tok, 1, tok.len());
        assert(body@ =~= tok@.drop_first());
        match parse_u8(&body) {
            Some(n) => if n <= 10 {
                Some(n)
            } else {
                None
            },
            None => None,
        }
    } else {
        None
    }
}

/// Reads an immediate operand.
fn parse_imm(tok: &Vec<char>) -> (r: Option<i64>)
    ensures
        r == parse_imm_spec(tok@),
{
    let neg = tok.len() > 0 && tok[0] == '-';
    let body = if neg {
        subvec(tok, 1, tok.len())
    } else {
        subvec(tok, 0, tok.len())
    };
    assert(neg ==> body@ =~= tok@.drop_first());
    assert(!neg ==> body@ =~= tok@);
    let value = if body.len() >= 2 && body[0] == '0' && (body[1] == 'x' || body[1] == 'X') {
        let digits = subvec(&body, 2, body.len());
        assert(digits@ =~= body@.skip(2));
        match parse_hex(&digits) {
            Some(v) => Some(v as i64),
            None => None,
        }
    } else {
        parse_i64(&body)
    };
    match value {
        Some(v) => Some(
            if neg {
                0i64.wrapping_sub(v)
            } else {
                v
            },
        ),
        None => None,
    }
}

/// `index_of_sign` is the first position holding a sign.
pub proof fn lemma_index_of_sign(s: Seq<char>, i: int)
    requires
        0 <= i <= s.len(),
        forall|j: int| 0 <= j < i ==> s[j] != '+' && s[j] != '-',
    ensures
        i < s.len() && (s[i] == '+' || s[i] == '-') ==> index_of_sign(s) == Some(i),
        i == s.len() ==> index_of_sign(s) is None,
    decreases i,
{
    if i > 0 {
        lemma_index_of_sign(s.drop_first(), i - 1);
    }
}

fn find_sign(s: &Vec<char>) -> (r: Option<usize>)
    ensures
        match r {
            Some(i) => i < s@.len() && index_of_sign(s@) == Some(i as int),
            None => index_of_sign(s@) is None,
        },
{
    let mut i: usize = 0;
    while i < s.len()
        invariant
            i <= s@.len(),
            forall|j: int| 0 <= j < i ==> s@[j] != '+' && s@[j] != '-',
        decreases s@.len() - i,
    {
        if s[i] == '+' || s[i] == '-' {
            proof {
                lemma_index_of_sign(s@, i as int);
            }
            return Some(i);
        }
        i = i + 1;
    }
    proof {
        lemma_index_of_sign(s@, i as int);
    }
    None
}

fn remove_spaces(s: &Vec<char>) -> (r: Vec<char>)
    ensures
        r@ == no_spaces(s@),
{
    let mut r: Vec<char> = Vec::new();
    let mut i: usize = 0;
    while i < s.len()
        invariant
            i <= s@.len(),
            r@ == no_spaces(s@.take(i as int)),
        decreases s@.len() - i,
    {
        assert(s@.take(i + 1).drop_last() =~= s@.take(i as int));
        if s[i] != ' ' {
            r.push(s[i]);
        }
        i = i + 1;
    }
    assert(s@.take(i as int) =~= s@);
    r
}

/// Reads a memory operand.
fn parse_mem(tok: &Vec<char>) -> (r: Option<(u8, i16)>)
    ensures
        r == parse_mem_spec(tok@),
{
    let n = tok.len();
    if !(n >= 2 && tok[0] == '[' && tok[n - 1] == ']') {
        return None;
    }
    let inner = subvec(tok, 1, n - 1);
    match find_sign(&inner) {
        None => {
            let t = trim_chars(&inner);
            match parse_reg(&t) {
                Some(r) => Some((r, 0i16)),
                None => None,
            }
        },
        Some(i) => {
            let head = subvec(&inner, 0, i);
            let t = trim_chars(&head);
            assert(head@ =~= inner@.take(i as int));
            let r = match parse_reg(&t) {
                Some(r) => r,
                None => {
                    return None;
                },
            };
            let tail = subvec(&inner, i, inner.len());
            assert(tail@ =~= inner@.skip(i as int));
            let t2 = trim_chars(&tail);
            let t3 = remove_spaces(&t2);
            match parse_imm(&t3) {
                None => None,
                Some(off) => if -0x8000 <= off && off <= 0x7fff {
                    Some((r, off as i16))
                } else {
                    None
                },
            }
        },
    }
}

fn strip_pluses_exec(s: &Vec<char>) -> (r: Vec<char>)
    ensures
        r@ == strip_pluses(s@),
{
    let mut i: usize = 0;
    assert(s@.skip(0) =~= s@);
    while i < s.len() && s[i] == '+'
        invariant
            i <= s@.len(),
            strip_pluses(s@) == strip_pluses(s@.skip(i as int)),
        decreases s@.len() - i,
    {
        assert(s@.skip(i as int).drop_first() =~= s@.skip(i + 1));
        i = i + 1;
    }
    let r = subvec(s, i, s.len());
    assert(r@ =~= s@.skip(i as int));
    r
}

/// Reads a jump target, relative to the slot after `pc`.
fn jump_off(tok: &Vec<char>, pc: usize, labels: &Vec<(Vec<char>, usize)>) -> (r: Result<i16, String>)
    ensures
        match r {
            Ok(o) => jump_off_spec(tok@, pc as int, labels_view(labels@)) == Ok::<i16, Seq<char>>(o),
            Err(e) => jump_off_spec(tok@, pc as int, labels_view(labels@)) == Err::<i16, Seq<char>>(
                e@,
            ),
        },
{
    if tok.len() > 0 && (tok[0] == '+' || tok[0] == '-' || ('0' <= tok[0] && tok[0] <= '9')) {
        let t = strip_pluses_exec(tok);
        match parse_imm(&t) {
            None => Err(quoted("bad jump offset `", tok, "`")),
            Some(off) => if -0x8000 <= off && off <= 0x7fff {
                Ok(off as i16)
            } else {
                Err(quoted("jump offset `", tok, "` out of range"))
            },
        }
    } else {
        match lookup_label(labels, tok) {
            None => Err(quoted("unknown label `", tok, "`")),
            Some(target) => {
                let rel: i128 = target as i128 - pc as i128 - 1;
                if -0x8000 <= rel && rel <= 0x7fff {
                    Ok(rel as i16)
                } else {
                    Err(quoted("jump to `", tok, "` out of range"))
                }
            },
        }
    }
}


// ---------------------------------------------------------------------------
// Emitting instructions
// ---------------------------------------------------------------------------

/// The operation code of an ALU mnemonic.
pub open spec fn alu_code(name: Seq<char>) -> Option<u8> {
    if name == "add"@ {
        Some(0x0u8)
    } else if name == "sub"@ {
        Some(0x1u8)
    } else if name == "mul"@ {
        Some(0x2u8)
    } else if name == "div"@ {
        Some(0x3u8)
    } else if name == "or"@ {
        Some(0x4u8)
    } else if name == "and"@ {
        Some(0x5u8)
    } else if name == "lsh"@ {
        Some(0x6u8)
    } else if name == "rsh"@ {
        Some(0x7u8)
    } else if name == "neg"@ {
        Some(0x8u8)
    } else if name == "mod"@ {
        Some(0x9u8)
    } else if name == "xor"@ {
        Some(0xau8)
    } else if name == "mov"@ {
        Some(0xbu8)
    } else if name == "arsh"@ {
        Some(0xcu8)
    } else {
        None
    }
}

/// The code of a jump mnemonic.
pub open spec fn jmp_code(name: Seq<char>) -> Option<u8> {
    if name == "jeq"@ {
        Some(0x1u8)
    } else if name == "jgt"@ {
        Some(0x2u8)
    } else if name == "jge"@ {
        Some(0x3u8)
    } else if name == "jset"@ {
        Some(0x4u8)
    } else if name == "jne"@ {
        Some(0x5u8)
    } else if name == "jsgt"@ {
        Some(0x6u8)
    } else if name == "jsge"@ {
        Some(0x7u8)
    } else if name == "jlt"@ {
        Some(0xau8)
    } else if name == "jle"@ {
        Some(0xbu8)
    } else if name == "jslt"@ {
        Some(0xcu8)
    } else if name == "jsle"@ {
        Some(0xdu8)
    } else if name == "ja"@ {
        Some(0x0u8)
    } else {
        None
    }
}

/// An ALU mnemonic's code and class: a name with the suffix `32` is the
/// 32-bit form.
pub open spec fn alu_split(m: Seq<char>) -> Option<(u8, u8)> {
    if m.len() >= 2 && m.skip(m.len() - 2) == seq!['3', '2'] && alu_code(m.take(m.len() - 2)) is Some {
        Some((alu_code(m.take(m.len() - 2))->Some_0, CLS_ALU32))
    } else {
        match alu_code(m) {
            Some(c) => Some((c, CLS_ALU64)),
            None => None,
        }
    }
}

/// An instruction from its fields.
pub open spec fn mk(op: u8, dst: u8, src: u8, off: i16, imm: i32) -> RawInsn {
    RawInsn { op, dst, src, off, imm }
}

/// The message for a wrong operand count.
pub open spec fn expect_msg(m: Seq<char>, n: nat, got: nat) -> Seq<char> {
    "`"@ + m + "` expects "@ + dec(n) + " operand(s), got "@ + dec(got)
}

/// The message for a bad register operand.
pub open spec fn bad_reg(t: Seq<char>) -> Seq<char> {
    "bad register `"@ + t + "`"@
}

/// The message for a bad memory operand.
pub open spec fn bad_mem(t: Seq<char>) -> Seq<char> {
    "bad memory operand `"@ + t + "`"@
}

/// The message for a bad immediate operand.
pub open spec fn bad_imm(t: Seq<char>) -> Seq<char> {
    "bad immediate `"@ + t + "`"@
}

/// The message for an operand that is neither a register nor an immediate.
pub open spec fn bad_operand(t: Seq<char>) -> Seq<char> {
    "bad operand `"@ + t + "`"@
}

/// The instructions of an ALU statement.
pub open spec fn emit_alu(m: Seq<char>, ops: Seq<Seq<char>>, code: u8, cls: u8) -> Result<
    Seq<RawInsn>,
    Seq<char>,
> {
    if code == 8 {
        if ops.len() != 1 {
            Err(expect_msg(m, 1, ops.len()))
        } else {
            match parse_reg_spec(ops[0]) {
                None => Err("expected register"@),
                Some(dst) => Ok(seq![mk((code << 4u8) | cls, dst, 0, 0, 0)]),
            }
        }
    } else if ops.len() != 2 {
        Err(expect_msg(m, 2, ops.len()))
    } else {
        match parse_reg_spec(ops[0]) {
            None => Err(bad_reg(ops[0])),
            Some(dst) => match parse_reg_spec(ops[1]) {
                Some(src) => Ok(seq![mk((code << 4u8) | SRC_X | cls, dst, src, 0, 0)]),
                None => match parse_imm_spec(ops[1]) {
                    None => Err(bad_operand(ops[1])),
                    Some(imm) => if fits32(imm as int) {
                        Ok(seq![mk((code << 4u8) | cls, dst, 0, 0, imm as i32)])
                    } else {
                        Err("immediate `"@ + ops[1] + "` needs 64 bits \u{2014} use lddw"@)
                    },
                },
            },
        }
    }
}

/// The opcode and class of a load or store mnemonic.
pub open spec fn mem_opcode(m: Seq<char>) -> Option<(u8, u8)> {
    if m == "ldxdw"@ {
        Some((0x79u8, 1u8))
    } else if m == "ldxw"@ {
        Some((0x61u8, 1u8))
    } else if m == "ldxh"@ {
        Some((0x69u8, 1u8))
    } else if m == "ldxb"@ {
        Some((0x71u8, 1u8))
    } else if m == "stxdw"@ {
        Some((0x7bu8, 3u8))
    } else if m == "stxw"@ {
        Some((0x63u8, 3u8))
    } else if m == "stxh"@ {
        Some((0x6bu8, 3u8))
    } else if m == "stxb"@ {
        Some((0x73u8, 3u8))
    } else if m == "stdw"@ {
        Some((0x7au8, 2u8))
    } else if m == "stw"@ {
        Some((0x62u8, 2u8))
    } else if m == "sth"@ {
        Some((0x6au8, 2u8))
    } else if m == "stb"@ {
        Some((0x72u8, 2u8))
    } else {
        None
    }
}

/// The instructions of a load (class 1), store (class 2) or register store
/// (class 3) statement with opcode `op`.
pub open spec fn emit_mem(m: Seq<char>, ops: Seq<Seq<char>>, op: u8, cls: u8) -> Result<
    Seq<RawInsn>,
    Seq<char>,
> {
    if ops.len() != 2 {
        Err(expect_msg(m, 2, ops.len()))
    } else if cls == 1 {
        match parse_reg_spec(ops[0]) {
            None => Err(bad_reg(ops[0])),
            Some(dst) => match parse_mem_spec(ops[1]) {
                None => Err(bad_mem(ops[1])),
                Some((src, off)) => Ok(seq![mk(op, dst, src, off, 0)]),
            },
        }
    } else {
        match parse_mem_spec(ops[0]) {
            None => Err(bad_mem(ops[0])),
            Some((dst, off)) => if cls == 3 {
                match parse_reg_spec(ops[1]) {
                    None => Err(bad_reg(ops[1])),
                    Some(src) => Ok(seq![mk(op, dst, src, off, 0)]),
                }
            } else {
                match parse_imm_spec(ops[1]) {
                    None => Err(bad_imm(ops[1])),
                    Some(imm) => if fits32(imm as int) {
                        Ok(seq![mk(op, dst, 0, off, imm as i32)])
                    } else {
                        Err("store immediate must fit 32 bits"@)
                    },
                }
            },
        }
    }
}

/// The instructions of a conditional jump statement with code `code`.
pub open spec fn emit_jump(
    m: Seq<char>,
    ops: Seq<Seq<char>>,
    code: u8,
    pc: int,
    labels: Seq<(Seq<char>, usize)>,
) -> Result<Seq<RawInsn>, Seq<char>> {
    if ops.len() != 3 {
        Err(expect_msg(m, 3, ops.len()))
    } else {
        match parse_reg_spec(ops[0]) {
            None => Err(bad_reg(ops[0])),
            Some(dst) => match jump_off_spec(ops[2], pc, labels) {
                Err(e) => Err(e),
                Ok(off) => match parse_reg_spec(ops[1]) {
                    Some(src) => Ok(seq![mk((code << 4u8) | SRC_X | CLS_JMP, dst, src, off, 0)]),
                    None => match parse_imm_spec(ops[1]) {
                        None => Err(bad_operand(ops[1])),
                        Some(imm) => if fits32(imm as int) {
                            Ok(seq![mk((code << 4u8) | CLS_JMP, dst, 0, off, imm as i32)])
                        } else {
                            Err("comparison immediate must fit 32 bits"@)
                        },
                    },
                },
            },
        }
    }
}

/// The instructions that a statement assembles to at slot `pc`, or the
/// error it gets.
pub open spec fn emit_spec(line: LineView, pc: int, labels: Seq<(Seq<char>, usize)>) -> Result<
    Seq<RawInsn>,
    Seq<char>,
> {
    let m = lower(line.mnemonic);
    let ops = line.operands;
    match alu_split(m) {
        Some((code, cls)) => emit_alu(m, ops, code, cls),
        None => if m == "lddw"@ {
            if ops.len() != 2 {
                Err(expect_msg(m, 2, ops.len()))
            } else {
                match parse_reg_spec(ops[0]) {
                    None => Err(bad_reg(ops[0])),
                    Some(dst) => match parse_imm_spec(ops[1]) {
                        None => Err(bad_imm(ops[1])),
                        Some(imm) => {
                            let u = imm as u64;
                            Ok(
                                seq![
                                    mk(OP_LDDW, dst, 0, 0, (u as u32) as i32),
                                    mk(0, 0, 0, 0, ((u >> 32u64) as u32) as i32),
                                ],
                            )
                        },
                    },
                }
            }
        } else if mem_opcode(m) is Some {
            emit_mem(m, ops, mem_opcode(m)->Some_0.0, mem_opcode(m)->Some_0.1)
        } else if m == "ja"@ {
            if ops.len() != 1 {
                Err(expect_msg(m, 1, ops.len()))
            } else {
                match jump_off_spec(ops[0], pc, labels) {
                    Err(e) => Err(e),
                    Ok(off) => Ok(seq![mk(0x05, 0, 0, off, 0)]),
                }
            }
        } else if m == "call"@ {
            if ops.len() != 1 {
                Err(expect_msg(m, 1, ops.len()))
            } else {
                match parse_imm_spec(ops[0]) {
                    None => Err("bad helper id `"@ + ops[0] + "`"@),
                    Some(imm) => Ok(seq![mk(OP_CALL, 0, 0, 0, imm as i32)]),
                }
            }
        } else if m == "exit"@ {
            if ops.len() != 0 {
                Err(expect_msg(m, 0, ops.len()))
            } else {
                Ok(seq![mk(OP_EXIT, 0, 0, 0, 0)])
            }
        } else {
            match jmp_code(m) {
                Some(code) => emit_jump(m, ops, code, pc, labels),
                None => Err("unknown mnemonic `"@ + line.mnemonic + "`"@),
            }
        },
    }
}

/// The mnemonics that the assembler knows, in lower case.
pub open spec fn known_mnemonic(m: Seq<char>) -> bool {
    ||| alu_split(m) is Some
    ||| m == "lddw"@
    ||| mem_opcode(m) is Some
    ||| m == "ja"@
    ||| m == "call"@
    ||| m == "exit"@
    ||| jmp_code(m) is Some
}

/// Mnemonics are case-insensitive: two statements whose mnemonics differ
/// only in the case of ASCII letters, with the same operands, assemble to
/// the same instructions or the same error, when the mnemonic is known. (An
/// unknown mnemonic is quoted as written.)
pub proof fn lemma_emit_ignores_case(
    a: LineView,
    b: LineView,
    pc: int,
    labels: Seq<(Seq<char>, usize)>,
)
    requires
        lower(a.mnemonic) == lower(b.mnemonic),
        a.operands == b.operands,
        known_mnemonic(lower(a.mnemonic)),
    ensures
        emit_spec(a, pc, labels) == emit_spec(b, pc, labels),
{
}


fn alu_code_exec(name: &Vec<char>) -> (r: Option<u8>)
    ensures
        r == alu_code(name@),
{
    if chars_eq(name, "add") {
        Some(0x0)
    } else if chars_eq(name, "sub") {
        Some(0x1)
    } else if chars_eq(name, "mul") {
        Some(0x2)
    } else if chars_eq(name, "div") {
        Some(0x3)
    } else if chars_eq(name, "or") {
        Some(0x4)
    } else if chars_eq(name, "and") {
        Some(0x5)
    } else if chars_eq(name, "lsh") {
        Some(0x6)
    } else if chars_eq(name, "rsh") {
        Some(0x7)
    } else if chars_eq(name, "neg") {
        Some(0x8)
    } else if chars_eq(name, "mod") {
        Some(0x9)
    } else if chars_eq(name, "xor") {
        Some(0xa)
    } else if chars_eq(name, "mov") {
        Some(0xb)
    } else if chars_eq(name, "arsh") {
        Some(0xc)
    } else {
        None
    }
}

fn jmp_code_exec(name: &Vec<char>) -> (r: Option<u8>)
    ensures
        r == jmp_code(name@),
{
    if chars_eq(name, "jeq") {
        Some(0x1)
    } else if chars_eq(name, "jgt") {
        Some(0x2)
    } else if chars_eq(name, "jge") {
        Some(0x3)
    } else if chars_eq(name, "jset") {
        Some(0x4)
    } else if chars_eq(name, "jne") {
        Some(0x5)
    } else if chars_eq(name, "jsgt") {
        Some(0x6)
    } else if chars_eq(name, "jsge") {
        Some(0x7)
    } else if chars_eq(name, "jlt") {
        Some(0xa)
    } else if chars_eq(name, "jle") {
        Some(0xb)
    } else if chars_eq(name, "jslt") {
        Some(0xc)
    } else if chars_eq(name, "jsle") {
        Some(0xd)
    } else if chars_eq(name, "ja") {
        Some(0x0)
    } else {
        None
    }
}

fn mem_opcode_exec(m: &Vec<char>) -> (r: Option<(u8, u8)>)
    ensures
        r == mem_opcode(m@),
{
    if chars_eq(m, "ldxdw") {
        Some((0x79, 1))
    } else if chars_eq(m, "ldxw") {
        Some((0x61, 1))
    } else if chars_eq(m, "ldxh") {
        Some((0x69, 1))
    } else if chars_eq(m, "ldxb") {
        Some((0x71, 1))
    } else if chars_eq(m, "stxdw") {
        Some((0x7b, 3))
    } else if chars_eq(m, "stxw") {
        Some((0x63, 3))
    } else if chars_eq(m, "stxh") {
        Some((0x6b, 3))
    } else if chars_eq(m, "stxb") {
        Some((0x73, 3))
    } else if chars_eq(m, "stdw") {
        Some((0x7a, 2))
    } else if chars_eq(m, "stw") {
        Some((0x62, 2))
    } else if chars_eq(m, "sth") {
        Some((0x6a, 2))
    } else if chars_eq(m, "stb") {
        Some((0x72, 2))
    } else {
        None
    }
}

fn alu_split_exec(m: &Vec<char>) -> (r: Option<(u8, u8)>)
    ensures
        r == alu_split(m@),
{
    let n = m.len();
    if n >= 2 && m[n - 2] == '3' && m[n - 1] == '2' {
        assert(m@.skip(n - 2) =~= seq!['3', '2']);
        let base = subvec(m, 0, n - 2);
        assert(base@ =~= m@.take(n - 2));
        match alu_code_exec(&base) {
            Some(c) => {
                return Some((c, CLS_ALU32));
            },
            None => {},
        }
    } else {
        assert(!(n >= 2 && m@.skip(n - 2) == seq!['3', '2'])) by {
            if n >= 2 && m@.skip(n - 2) == seq!['3', '2'] {
                assert(m@.skip(n - 2)[0] == m@[n - 2]);
                assert(m@.skip(n - 2)[1] == m@[n - 1]);
            }
        }
    }
    match alu_code_exec(m) {
        Some(c) => Some((c, CLS_ALU64)),
        None => None,
    }
}

fn one(i: RawInsn) -> (v: Vec<RawInsn>)
    ensures
        v@ == seq![i],
{
    let mut v: Vec<RawInsn> = Vec::new();
    v.push(i);
    assert(v@ =~= seq![i]);
    v
}

/// Checks the operand count.
fn expect(n: usize, ops: &Vec<Vec<char>>, m: &Vec<char>) -> (r: Result<(), String>)
    ensures
        r is Ok <==> ops@.len() == n,
        r matches Err(e) ==> e@ == expect_msg(m@, n as nat, ops@.len()),
{
    if ops.len() == n {
        Ok(())
    } else {
        let mut e = string_of("`");
        push_chars(&mut e, m);
        push_str(&mut e, "` expects ");
        push_dec(&mut e, n as u64);
        push_str(&mut e, " operand(s), got ");
        push_dec(&mut e, ops.len() as u64);
        Err(e)
    }
}

proof fn lemma_ops_view(ops: &Vec<Vec<char>>, k: int)
    requires
        0 <= k < ops@.len(),
    ensures
        lines_view(ops@)[k] == ops@[k]@,
        lines_view(ops@).len() == ops@.len(),
{
}

fn emit_alu_exec(m: &Vec<char>, ops: &Vec<Vec<char>>, code: u8, cls: u8) -> (r: Result<
    Vec<RawInsn>,
    String,
>)
    ensures
        match r {
            Ok(v) => emit_alu(m@, lines_view(ops@), code, cls) == Ok::<Seq<RawInsn>, Seq<char>>(
                v@,
            ),
            Err(e) => emit_alu(m@, lines_view(ops@), code, cls) == Err::<Seq<RawInsn>, Seq<char>>(
                e@,
            ),
        },
{
    if code == 8 {
        match expect(1, ops, m) {
            Err(e) => {
                return Err(e);
            },
            Ok(()) => {},
        }
        proof {
            lemma_ops_view(ops, 0);
        }
        match parse_reg(&ops[0]) {
            None => Err(string_of("expected register")),
            Some(dst) => Ok(one(RawInsn { op: (code << 4u8) | cls, dst, src: 0, off: 0, imm: 0 })),
        }
    } else {
        match expect(2, ops, m) {
            Err(e) => {
                return Err(e);
            },
            Ok(()) => {},
        }
        proof {
            lemma_ops_view(ops, 0);
            lemma_ops_view(ops, 1);
        }
        let dst = match parse_reg(&ops[0]) {
            None => {
                return Err(quoted("bad register `", &ops[0], "`"));
            },
            Some(d) => d,
        };
        match parse_reg(&ops[1]) {
            Some(src) => {
                return Ok(
                    one(RawInsn { op: (code << 4u8) | SRC_X | cls, dst, src, off: 0, imm: 0 }),
                );
            },
            None => {},
        }
        match parse_imm(&ops[1]) {
            None => Err(quoted("bad operand `", &ops[1], "`")),
            Some(imm) => if -0x8000_0000 <= imm && imm <= 0x7fff_ffff {
                Ok(one(RawInsn { op: (code << 4u8) | cls, dst, src: 0, off: 0, imm: imm as i32 }))
            } else {
                Err(quoted("immediate `", &ops[1], "` needs 64 bits \u{2014} use lddw"))
            },
        }
    }
}

fn emit_mem_exec(m: &Vec<char>, ops: &Vec<Vec<char>>, op: u8, cls: u8) -> (r: Result<
    Vec<RawInsn>,
    String,
>)
    ensures
        match r {
            Ok(v) => emit_mem(m@, lines_view(ops@), op, cls) == Ok::<Seq<RawInsn>, Seq<char>>(
                v@,
            ),
            Err(e) => emit_mem(m@, lines_view(ops@), op, cls) == Err::<Seq<RawInsn>, Seq<char>>(
                e@,
            ),
        },
{
    match expect(2, ops, m) {
        Err(e) => {
            return Err(e);
        },
        Ok(()) => {},
    }
    proof {
        lemma_ops_view(ops, 0);
        lemma_ops_view(ops, 1);
    }
    if cls == 1 {
        let dst = match parse_reg(&ops[0]) {
            None => {
                return Err(quoted("bad register `", &ops[0], "`"));
            },
            Some(d) => d,
        };
        match parse_mem(&ops[1]) {
            None => Err(quoted("bad memory operand `", &ops[1], "`")),
            Some((src, off)) => Ok(one(RawInsn { op, dst, src, off, imm: 0 })),
        }
    } else {
        let (dst, off) = match parse_mem(&ops[0]) {
            None => {
                return Err(quoted("bad memory operand `", &ops[0], "`"));
            },
            Some(p) => p,
        };
        if cls == 3 {
            match parse_reg(&ops[1]) {
                None => Err(quoted("bad register `", &ops[1], "`")),
                Some(src) => Ok(one(RawInsn { op, dst, src, off, imm: 0 })),
            }
        } else {
            match parse_imm(&ops[1]) {
                None => Err(quoted("bad immediate `", &ops[1], "`")),
                Some(imm) => if -0x8000_0000 <= imm && imm <= 0x7fff_ffff {
                    Ok(one(RawInsn { op, dst, src: 0, off, imm: imm as i32 }))
                } else {
                    Err(string_of("store immediate must fit 32 bits"))
                },
            }
        }
    }
}

fn emit_jump_exec(
    m: &Vec<char>,
    ops: &Vec<Vec<char>>,
    code: u8,
    pc: usize,
    labels: &Vec<(Vec<char>, usize)>,
) -> (r: Result<Vec<RawInsn>, String>)
    ensures
        match r {
            Ok(v) => emit_jump(m@, lines_view(ops@), code, pc as int, labels_view(labels@))
                == Ok::<Seq<RawInsn>, Seq<char>>(v@),
            Err(e) => emit_jump(m@, lines_view(ops@), code, pc as int, labels_view(labels@))
                == Err::<Seq<RawInsn>, Seq<char>>(e@),
        },
{
    match expect(3, ops, m) {
        Err(e) => {
            return Err(e);
        },
        Ok(()) => {},
    }
    proof {
        lemma_ops_view(ops, 0);
        lemma_ops_view(ops, 1);
        lemma_ops_view(ops, 2);
    }
    let dst = match parse_reg(&ops[0]) {
        None => {
            return Err(quoted("bad register `", &ops[0], "`"));
        },
        Some(d) => d,
    };
    let off = match jump_off(&ops[2], pc, labels) {
        Err(e) => {
            return Err(e);
        },
        Ok(o) => o,
    };
    match parse_reg(&ops[1]) {
        Some(src) => {
            return Ok(one(RawInsn { op: (code << 4u8) | SRC_X | CLS_JMP, dst, src, off, imm: 0 }));
        },
        None => {},
    }
    match parse_imm(&ops[1]) {
        None => Err(quoted("bad operand `", &ops[1], "`")),
        Some(imm) => if -0x8000_0000 <= imm && imm <= 0x7fff_ffff {
            Ok(one(RawInsn { op: (code << 4u8) | CLS_JMP, dst, src: 0, off, imm: imm as i32 }))
        } else {
            Err(string_of("comparison immediate must fit 32 bits"))
        },
    }
}

/// Assembles one statement at slot `pc`.
fn emit(line: &Line, pc: usize, labels: &Vec<(Vec<char>, usize)>) -> (r: Result<
    Vec<RawInsn>,
    String,
>)
    ensures
        match r {
            Ok(v) => emit_spec(line@, pc as int, labels_view(labels@)) == Ok::<
                Seq<RawInsn>,
                Seq<char>,
            >(v@),
            Err(e) => emit_spec(line@, pc as int, labels_view(labels@)) == Err::<
                Seq<RawInsn>,
                Seq<char>,
            >(e@),
        },
{
    let m = to_lower(&line.mnemonic);
    let ops = &line.operands;
    match alu_split_exec(&m) {
        Some((code, cls)) => {
            return emit_alu_exec(&m, ops, code, cls);
        },
        None => {},
    }
    if chars_eq(&m, "lddw") {
        match expect(2, ops, &m) {
            Err(e) => {
                return Err(e);
            },
            Ok(()) => {},
        }
        proof {
            lemma_ops_view(ops, 0);
            lemma_ops_view(ops, 1);
        }
        let dst = match parse_reg(&ops[0]) {
            None => {
                return Err(quoted("bad register `", &ops[0], "`"));
            },
            Some(d) => d,
        };
        let imm = match parse_imm(&ops[1]) {
            None => {
                return Err(quoted("bad immediate `", &ops[1], "`"));
            },
            Some(i) => i,
        };
        let u = imm as u64;
        let mut v: Vec<RawInsn> = Vec::new();
        v.push(RawInsn { op: OP_LDDW, dst, src: 0, off: 0, imm: (u as u32) as i32 });
        v.push(RawInsn { op: 0, dst: 0, src: 0, off: 0, imm: ((u >> 32u64) as u32) as i32 });
        assert(v@ =~= seq![
            mk(OP_LDDW, dst, 0, 0, (u as u32) as i32),
            mk(0, 0, 0, 0, ((u >> 32u64) as u32) as i32),
        ]);
        return Ok(v);
    }
    match mem_opcode_exec(&m) {
        Some((op, cls)) => {
            return emit_mem_exec(&m, ops, op, cls);
        },
        None => {},
    }
    if chars_eq(&m, "ja") {
        match expect(1, ops, &m) {
            Err(e) => {
                return Err(e);
            },
            Ok(()) => {},
        }
        proof {
            lemma_ops_view(ops, 0);
        }
        return match jump_off(&ops[0], pc, labels) {
            Err(e) => Err(e),
            Ok(off) => Ok(one(RawInsn { op: 0x05, dst: 0, src: 0, off, imm: 0 })),
        };
    }
    if chars_eq(&m, "call") {
        match expect(1, ops, &m) {
            Err(e) => {
                return Err(e);
            },
            Ok(()) => {},
        }
        proof {
            lemma_ops_view(ops, 0);
        }
        return match parse_imm(&ops[0]) {
            None => Err(quoted("bad helper id `", &ops[0], "`")),
            Some(imm) => Ok(one(RawInsn { op: OP_CALL, dst: 0, src: 0, off: 0, imm: imm as i32 })),
        };
    }
    if chars_eq(&m, "exit") {
        match expect(0, ops, &m) {
            Err(e) => {
                return Err(e);
            },
            Ok(()) => {},
        }
        return Ok(one(RawInsn { op: OP_EXIT, dst: 0, src: 0, off: 0, imm: 0 }));
    }
    match jmp_code_exec(&m) {
        Some(code) => emit_jump_exec(&m, ops, code, pc, labels),
        None => Err(quoted("unknown mnemonic `", &line.mnemonic, "`")),
    }
}


// ---------------------------------------------------------------------------
// Second pass and the assembler
// ---------------------------------------------------------------------------

/// What the second pass has produced: instructions and errors.
pub struct Pass2 {
    pub insns: Seq<RawInsn>,
    pub errors: Seq<AsmErrorView>,
}

/// An all-zero instruction slot.
pub open spec fn zero_insn() -> RawInsn {
    mk(0, 0, 0, 0, 0)
}

/// What a statement that failed to assemble leaves: zero slots, as many as
/// it would have taken, so that later label offsets stay right.
pub open spec fn filler(m: Seq<char>) -> Seq<RawInsn> {
    if is_lddw(m) {
        seq![zero_insn(), zero_insn()]
    } else {
        seq![zero_insn()]
    }
}

/// The second pass over the first `k` statements.
pub open spec fn pass2(
    stmts: Seq<LineView>,
    labels: Seq<(Seq<char>, usize)>,
    errors: Seq<AsmErrorView>,
    k: nat,
) -> Pass2
    decreases k,
{
    if k == 0 {
        Pass2 { insns: Seq::empty(), errors }
    } else {
        let p = pass2(stmts, labels, errors, (k - 1) as nat);
        let line = stmts[k - 1];
        match emit_spec(line, p.insns.len() as int, labels) {
            Ok(e) => Pass2 { insns: p.insns + e, errors: p.errors },
            Err(msg) => Pass2 {
                insns: p.insns + filler(line.mnemonic),
                errors: p.errors.push(AsmErrorView { line: line.number, msg }),
            },
        }
    }
}

/// What assembling a source text gives: the instructions, and the errors
/// in order (the first pass's, then the second's).
pub open spec fn assemble_spec(source: Seq<char>) -> (Seq<RawInsn>, Seq<AsmErrorView>) {
    let src = lines(source);
    let p1 = pass1(src, src.len());
    let p2 = pass2(p1.lines, p1.labels, p1.errors, p1.lines.len());
    (p2.insns, p2.errors)
}

#[verifier::spinoff_prover]
fn second_pass(
    stmts: &Vec<Line>,
    labels: &Vec<(Vec<char>, usize)>,
    errors: Vec<AsmError>,
) -> (r: (Vec<RawInsn>, Vec<AsmError>))
    requires
        2 * stmts@.len() <= usize::MAX,
    ensures
        pass2(stmts_view(stmts@), labels_view(labels@), errors_view(errors@), stmts@.len())
            == (Pass2 { insns: r.0@, errors: errors_view(r.1@) }),
{
    let ghost e0 = errors_view(errors@);
    let mut errors = errors;
    let mut insns: Vec<RawInsn> = Vec::new();
    let n = stmts.len();
    let mut k: usize = 0;
    while k < n
        invariant
            n == stmts@.len(),
            2 * n <= usize::MAX,
            k <= n,
            insns@.len() <= 2 * k,
            pass2(stmts_view(stmts@), labels_view(labels@), e0, k as nat) == (Pass2 {
                insns: insns@,
                errors: errors_view(errors@),
            }),
        decreases n - k,
    {
        let line = &stmts[k];
        assert(stmts_view(stmts@)[k as int] == line@);
        let pc = insns.len();
        match emit(line, pc, labels) {
            Ok(v) => {
                let mut v = v;
                proof {
                    lemma_emit_len(line@, pc as int, labels_view(labels@));
                }
                insns.append(&mut v);
            },
            Err(msg) => {
                let ghost ev = errors_view(errors@);
                let ghost mv = msg@;
                errors.push(AsmError { line: line.number, msg });
                assert(errors_view(errors@) =~= ev.push(AsmErrorView { line: line@.number, msg: mv }));
                let zero = RawInsn { op: 0, dst: 0, src: 0, off: 0, imm: 0 };
                let ghost before = insns@;
                insns.push(zero);
                if is_lddw_exec(&line.mnemonic) {
                    insns.push(zero);
                }
                assert(insns@ =~= before + filler(line@.mnemonic));
            },
        }
        k = k + 1;
    }
    (insns, errors)
}

/// A statement that assembles takes `slot_size` slots.
pub proof fn lemma_emit_len(line: LineView, pc: int, labels: Seq<(Seq<char>, usize)>)
    ensures
        emit_spec(line, pc, labels) is Ok ==> emit_spec(line, pc, labels)->Ok_0.len()
            == slot_size(line.mnemonic),
{
    reveal_strlit("lddw");
    reveal_strlit("add");
    reveal_strlit("sub");
    reveal_strlit("mul");
    reveal_strlit("div");
    reveal_strlit("or");
    reveal_strlit("and");
    reveal_strlit("lsh");
    reveal_strlit("rsh");
    reveal_strlit("neg");
    reveal_strlit("mod");
    reveal_strlit("xor");
    reveal_strlit("mov");
    reveal_strlit("arsh");
    let m = lower(line.mnemonic);
    if m == "lddw"@ {
        assert(m.len() == 4);
        assert(m[2] == 'd');
        assert(m.skip(2)[0] == 'd');
        assert(m.skip(m.len() - 2) != seq!['3', '2']);
    }
}

/// Assembles a source text in two passes: the first collects labels and
/// statements (an `lddw` takes two slots), the second emits instructions.
/// A statement that fails still takes its slots, so later label offsets
/// stay right.
pub fn assemble(source: &str) -> (r: (Vec<RawInsn>, Vec<AsmError>))
    requires
        lines(source@).len() <= u32::MAX,
        2 * lines(source@).len() <= usize::MAX,
    ensures
        (r.0@, errors_view(r.1@)) == assemble_spec(source@),
{
    let chars = str_chars(source);
    let src = split_lines(&chars);
    let (labels, errors, slot, stmts) = first_pass(&src);
    proof {
        lemma_pass1_lines_len(lines_view(src@), src@.len());
    }
    second_pass(&stmts, &labels, errors)
}

/// The first pass finds at most one statement per line.
pub proof fn lemma_pass1_lines_len(src: Seq<Seq<char>>, k: nat)
    ensures
        pass1(src, k).lines.len() <= k,
    decreases k,
{
    if k > 0 {
        lemma_pass1_lines_len(src, (k - 1) as nat);
    }
}


// ---------------------------------------------------------------------------
// Layout: labels and slots agree between the passes
// ---------------------------------------------------------------------------

/// The slots that the first `k` statements take.
pub open spec fn slots_of(stmts: Seq<LineView>, k: nat) -> nat
    decreases k,
{
    if k == 0 {
        0
    } else {
        slots_of(stmts, (k - 1) as nat) + slot_size(stmts[k - 1].mnemonic)
    }
}

proof fn lemma_slots_of_prefix(stmts: Seq<LineView>, l: LineView, k: nat)
    requires
        k <= stmts.len(),
    ensures
        slots_of(stmts.push(l), k) == slots_of(stmts, k),
    decreases k,
{
    if k > 0 {
        lemma_slots_of_prefix(stmts, l, (k - 1) as nat);
    }
}

proof fn lemma_slots_of_bound(stmts: Seq<LineView>, k: nat)
    ensures
        slots_of(stmts, k) <= 2 * k,
    decreases k,
{
    if k > 0 {
        lemma_slots_of_bound(stmts, (k - 1) as nat);
    }
}

/// The second pass emits each statement at the slot counted for it.
proof fn lemma_pass2_len(
    stmts: Seq<LineView>,
    labels: Seq<(Seq<char>, usize)>,
    errors: Seq<AsmErrorView>,
    k: nat,
)
    requires
        k <= stmts.len(),
    ensures
        pass2(stmts, labels, errors, k).insns.len() == slots_of(stmts, k),
    decreases k,
{
    if k > 0 {
        lemma_pass2_len(stmts, labels, errors, (k - 1) as nat);
        let p = pass2(stmts, labels, errors, (k - 1) as nat);
        lemma_emit_len(stmts[k - 1], p.insns.len() as int, labels);
    }
}

/// Label scanning keeps the labels it was given and defines new ones at
/// `slot`.
proof fn lemma_scan_labels(
    text: Seq<char>,
    number: u32,
    slot: usize,
    labels: Seq<(Seq<char>, usize)>,
    errors: Seq<AsmErrorView>,
)
    ensures
        ({
            let l2 = scan_labels(text, number, slot, labels, errors).1;
            &&& l2.len() >= labels.len()
            &&& forall|i: int| 0 <= i < labels.len() ==> l2[i] == labels[i]
            &&& forall|i: int| labels.len() <= i < l2.len() ==> l2[i].1 == slot
        }),
    decreases text.len(),
{
    match index_of(text, ':') {
        None => {},
        Some(c) => {
            lemma_index_of_found(text, ':');
            lemma_trim_len(text.skip(c + 1));
            let label = trim(text.take(c));
            let rest = trim(text.skip(c + 1));
            if label.len() == 0 || has_ws(label) {
                lemma_scan_labels(
                    rest,
                    number,
                    slot,
                    labels,
                    errors.push(
                        AsmErrorView { line: number, msg: "invalid label `"@ + label + "`"@ },
                    ),
                );
            } else {
                let errors2 = if lookup(labels, label) is Some {
                    errors.push(
                        AsmErrorView { line: number, msg: "duplicate label `"@ + label + "`"@ },
                    )
                } else {
                    errors
                };
                lemma_scan_labels(rest, number, slot, labels.push((label, slot)), errors2);
            }
        },
    }
}

/// The first pass counts each statement's slots, and defines every label
/// at the slot where a statement starts (or at the end).
proof fn lemma_pass1_layout(src: Seq<Seq<char>>, k: nat)
    requires
        2 * k <= usize::MAX,
    ensures
        ({
            let p = pass1(src, k);
            &&& p.lines.len() <= k
            &&& p.slot == slots_of(p.lines, p.lines.len())
            &&& forall|i: int|
                0 <= i < p.labels.len() ==> exists|j: nat|
                    j <= p.lines.len() && (#[trigger] p.labels[i]).1 == #[trigger] slots_of(p.lines, j)
        }),
    decreases k,
{
    if k > 0 {
        lemma_pass1_layout(src, (k - 1) as nat);
        let p = pass1(src, (k - 1) as nat);
        lemma_slots_of_bound(p.lines, p.lines.len());
        let text0 = trim(strip_comment_spec(src[k - 1]));
        lemma_scan_labels(text0, k as u32, p.slot as usize, p.labels, p.errors);
        let (text, labels, errors) = scan_labels(
            text0,
            k as u32,
            p.slot as usize,
            p.labels,
            p.errors,
        );
        assert forall|i: int| 0 <= i < labels.len() implies exists|j: nat|
            j <= p.lines.len() && (#[trigger] labels[i]).1 == #[trigger] slots_of(p.lines, j) by {
            if i >= p.labels.len() {
                assert(labels[i].1 == slots_of(p.lines, p.lines.len()));
            }
        }
        if text.len() > 0 {
            let (m, rest) = split_stmt(text);
            let l = LineView { number: k as u32, mnemonic: m, operands: split_operands(rest) };
            let q = pass1(src, k);
            assert(q.lines == p.lines.push(l));
            lemma_slots_of_prefix(p.lines, l, p.lines.len());
            assert forall|i: int| 0 <= i < q.labels.len() implies exists|j: nat|
                j <= q.lines.len() && (#[trigger] q.labels[i]).1 == #[trigger] slots_of(q.lines, j) by {
                let j = choose|j: nat| j <= p.lines.len() && (#[trigger] labels[i]).1 == #[trigger] slots_of(p.lines, j);
                lemma_slots_of_prefix(p.lines, l, j);
            }
        }
    }
}

/// The layout of an assembled program: the second pass emits each
/// statement at the slot that the first pass counted for it (a failing
/// statement included), so the program has exactly the counted slots, and
/// every label names the slot where a statement starts (or the end).
pub proof fn lemma_assembly_layout(source: Seq<char>)
    requires
        2 * lines(source).len() <= usize::MAX,
    ensures
        ({
            let src = lines(source);
            let p1 = pass1(src, src.len());
            &&& forall|k: nat|
                k <= p1.lines.len() ==> #[trigger] pass2(p1.lines, p1.labels, p1.errors, k).insns.len()
                    == slots_of(p1.lines, k)
            &&& assemble_spec(source).0.len() == p1.slot
            &&& forall|i: int|
                0 <= i < p1.labels.len() ==> exists|j: nat|
                    j <= p1.lines.len() && (#[trigger] p1.labels[i]).1 == #[trigger] slots_of(p1.lines, j)
        }),
{
    let src = lines(source);
    let p1 = pass1(src, src.len());
    lemma_pass1_layout(src, src.len());
    assert forall|k: nat| k <= p1.lines.len() implies #[trigger] pass2(
        p1.lines,
        p1.labels,
        p1.errors,
        k,
    ).insns.len() == slots_of(p1.lines, k) by {
        lemma_pass2_len(p1.lines, p1.labels, p1.errors, k);
    }
}

}
