//! What the playground shows for a program: its listing (slot, bytes,
//! disassembly), the assembly errors, the static verifier's findings and
//! whether the program may run; and reading a program from hex text.
use vstd::prelude::*;
use vstd::string::*;
use crate::text::{
    all_digits, chars_eq, digit_value, digit_value_exec, is_digit_exec, is_whitespace, is_ws,
    join_hex, lines, lines_view, push_char, push_hex2, quoted, str_chars, string_of, subvec, trim,
    trim_chars, hex2, digit_char, is_digit, trim_start, trim_end,
};
use crate::isa::{
    RawInsn, disasm, disasm_spec, encode, encodable, insns_from_bytes, insns_from_bytes_spec,
    lemma_bytes_roundtrip, encode_all,
};
use crate::assembler::{AsmError, AsmErrorView, assemble, assemble_spec, errors_view};
use crate::verify::{Diag, DiagView, diags_view, verify, verify_spec};

verus! {

// ---------------------------------------------------------------------------
// Programs as hex text
// ---------------------------------------------------------------------------

/// Whether `c` separates hex tokens: whitespace or a comma.
pub open spec fn is_sep(c: char) -> bool {
    is_ws(c) || c == ','
}

/// The first index of a separator.
pub open spec fn index_of_sep(s: Seq<char>) -> Option<int>
    decreases s.len(),
{
    if s.len() == 0 {
        None
    } else if is_sep(s[0]) {
        Some(0)
    } else {
        match index_of_sep(s.drop_first()) {
            Some(i) => Some(i + 1),
            None => None,
        }
    }
}

proof fn lemma_index_of_sep(s: Seq<char>, i: int)
    requires
        0 <= i <= s.len(),
        forall|j: int| 0 <= j < i ==> !is_sep(s[j]),
    ensures
        i < s.len() && is_sep(s[i]) ==> index_of_sep(s) == Some(i),
        i == s.len() ==> index_of_sep(s) is None,
    decreases i,
{
    if i > 0 {
        lemma_index_of_sep(s.drop_first(), i - 1);
    }
}

/// A separator that is found lies inside the text.
pub proof fn lemma_index_of_sep_found(s: Seq<char>)
    ensures
        index_of_sep(s) matches Some(i) ==> 0 <= i < s.len(),
    decreases s.len(),
{
    if s.len() > 0 {
        lemma_index_of_sep_found(s.drop_first());
    }
}

/// The pieces between separators (empty pieces included).
pub open spec fn split_seps(s: Seq<char>) -> Seq<Seq<char>>
    decreases s.len(),
{
    match index_of_sep(s) {
        None => seq![s],
        Some(i) => {
            proof {
                lemma_index_of_sep_found(s);
            }
            seq![s.take(i)] + split_seps(s.skip(i + 1))
        },
    }
}

/// A token without a leading `0x` or `0X`.
pub open spec fn strip_0x(t: Seq<char>) -> Seq<char> {
    if t.len() >= 2 && t[0] == '0' && (t[1] == 'x' || t[1] == 'X') {
        t.skip(2)
    } else {
        t
    }
}

/// The hex digits of the tokens, or the error for the first token that is
/// not a run of hex digits (after an optional `0x`); empty tokens are
/// skipped.
pub open spec fn hex_digits_of(toks: Seq<Seq<char>>) -> Result<Seq<char>, Seq<char>>
    decreases toks.len(),
{
    if toks.len() == 0 {
        Ok(Seq::empty())
    } else {
        match hex_digits_of(toks.drop_last()) {
            Err(e) => Err(e),
            Ok(h) => {
                let tok = toks.last();
                let t = trim(tok);
                if t.len() == 0 {
                    Ok(h)
                } else {
                    let b = strip_0x(t);
                    if b.len() == 0 || !all_digits(b, 16) {
                        Err("invalid hex token `"@ + tok + "`"@)
                    } else {
                        Ok(h + b)
                    }
                }
            },
        }
    }
}

/// The bytes that pairs of hex digits denote.
pub open spec fn hex_bytes(h: Seq<char>) -> Seq<u8> {
    Seq::new(h.len() / 2, |k: int| (digit_value(h[2 * k]) * 16 + digit_value(h[2 * k + 1])) as u8)
}

/// The program that a hex text denotes, or why it does not denote one.
pub open spec fn insns_from_hex_spec(input: Seq<char>) -> Result<Seq<RawInsn>, Seq<char>> {
    match hex_digits_of(split_seps(input)) {
        Err(e) => Err(e),
        Ok(h) => if h.len() == 0 {
            Err("no bytes provided"@)
        } else if h.len() % 2 != 0 {
            Err("odd number of hex digits"@)
        } else {
            insns_from_bytes_spec(hex_bytes(h))
        },
    }
}

fn split_seps_exec(s: &Vec<char>) -> (r: Vec<Vec<char>>)
    ensures
        lines_view(r@) == split_seps(s@),
{
    let mut out: Vec<Vec<char>> = Vec::new();
    let mut start: usize = 0;
    let n = s.len();
    assert(s@.skip(0) =~= s@);
    loop
        invariant
            n == s@.len(),
            start <= n,
            split_seps(s@) == lines_view(out@) + split_seps(s@.skip(start as int)),
        decreases n - start,
    {
        let ghost rest = s@.skip(start as int);
        let mut j: usize = start;
        while j < n && !(is_whitespace(s[j]) || s[j] == ',')
            invariant
                start <= j <= n,
                n == s@.len(),
                rest == s@.skip(start as int),
                forall|k: int| 0 <= k < j - start ==> !is_sep(rest[k]),
            decreases n - j,
        {
            j = j + 1;
        }
        let piece = subvec(s, start, j);
        let ghost before = lines_view(out@);
        out.push(piece);
        assert(piece@ =~= rest.take(j - start));
        if j == n {
            proof {
                lemma_index_of_sep(rest, j - start);
            }
            assert(rest.take(j - start) =~= rest);
            assert(lines_view(out@) =~= before + split_seps(rest));
            return out;
        }
        proof {
            lemma_index_of_sep(rest, j - start);
        }
        assert(rest.skip(j - start + 1) =~= s@.skip(j + 1));
        assert(lines_view(out@) + split_seps(s@.skip(j + 1)) =~= before + split_seps(rest));
        start = j + 1;
    }
}

/// Parses a whitespace- or comma-separated hex string (each token with an
/// optional `0x`) into raw bytes, then decodes them into instructions.
pub fn insns_from_hex(input: &str) -> (r: Result<Vec<RawInsn>, String>)
    ensures
        match r {
            Ok(v) => insns_from_hex_spec(input@) == Ok::<Seq<RawInsn>, Seq<char>>(v@),
            Err(e) => insns_from_hex_spec(input@) == Err::<Seq<RawInsn>, Seq<char>>(e@),
        },
{
    let chars = str_chars(input);
    let toks = split_seps_exec(&chars);
    assert(chars@ == input@);
    let ghost tv = lines_view(toks@);
    let mut hex: Vec<char> = Vec::new();
    let mut k: usize = 0;
    while k < toks.len()
        invariant
            k <= toks@.len(),
            tv == lines_view(toks@),
            tv == split_seps(input@),
            hex_digits_of(tv.take(k as int)) == Ok::<Seq<char>, Seq<char>>(hex@),
        decreases toks@.len() - k,
    {
        let tok = &toks[k];
        assert(tv[k as int] == tok@);
        assert(tv.take(k + 1).drop_last() =~= tv.take(k as int));
        let t = trim_chars(tok);
        if t.len() > 0 {
            let n = t.len();
            let lo: usize = if n >= 2 && t[0] == '0' && (t[1] == 'x' || t[1] == 'X') {
                2
            } else {
                0
            };
            let b = subvec(&t, lo, n);
            assert(b@ =~= strip_0x(t@));
            let mut all = b.len() > 0;
            let mut i: usize = 0;
            while i < b.len()
                invariant
                    i <= b@.len(),
                    all == (b@.len() > 0 && forall|j: int| 0 <= j < i ==> crate::text::is_digit(
                        b@[j],
                        16,
                    )),
                decreases b@.len() - i,
            {
                if !is_digit_exec(b[i], 16) {
                    all = false;
                }
                i = i + 1;
            }
            if !all {
                proof {
                    assert(tv.take(k + 1).last() == tok@);
                    assert(hex_digits_of(tv.take(k + 1)) == Err::<Seq<char>, Seq<char>>(
                        "invalid hex token `"@ + tok@ + "`"@,
                    ));
                    lemma_hex_digits_err(tv, (k + 1) as nat);
                }
                return Err(quoted("invalid hex token `", tok, "`"));
            }
            let ghost h0 = hex@;
            let mut i: usize = 0;
            while i < b.len()
                invariant
                    i <= b@.len(),
                    hex@ == h0 + b@.take(i as int),
                decreases b@.len() - i,
            {
                hex.push(b[i]);
                i = i + 1;
                assert(hex@ =~= h0 + b@.take(i as int));
            }
            assert(b@.take(i as int) =~= b@);
        }
        k = k + 1;
    }
    assert(tv.take(k as int) =~= tv);
    if hex.len() == 0 {
        return Err(string_of("no bytes provided"));
    }
    if hex.len() % 2 != 0 {
        return Err(string_of("odd number of hex digits"));
    }
    let hex_len = hex.len();
    let n = hex_len / 2;
    let mut bytes: Vec<u8> = Vec::new();
    let mut k: usize = 0;
    while k < n
        invariant
            hex_len == hex@.len(),
            n == hex@.len() / 2,
            hex@.len() % 2 == 0,
            k <= n,
            bytes@ == hex_bytes(hex@).take(k as int),
        decreases n - k,
    {
        assert(2 * k + 1 < hex@.len());
        let hi = digit_value_exec(hex[2 * k]);
        let lo = digit_value_exec(hex[2 * k + 1]);
        bytes.push((hi * 16 + lo) as u8);
        k = k + 1;
        assert(bytes@ =~= hex_bytes(hex@).take(k as int));
    }
    assert(bytes@ =~= hex_bytes(hex@));
    insns_from_bytes(bytes.as_slice())
}

/// An invalid token makes the whole text invalid.
proof fn lemma_hex_digits_err(toks: Seq<Seq<char>>, k: nat)
    requires
        k <= toks.len(),
        hex_digits_of(toks.take(k as int)) is Err,
    ensures
        hex_digits_of(toks) == hex_digits_of(toks.take(k as int)),
    decreases toks.len() - k,
{
    if k < toks.len() {
        assert(toks.take((k + 1) as int).drop_last() =~= toks.take(k as int));
        lemma_hex_digits_err(toks, k + 1);
    } else {
        assert(toks.take(k as int) =~= toks);
    }
}

// ---------------------------------------------------------------------------
// Listing and verdict
// ---------------------------------------------------------------------------

/// One row of the listing: slot, encoded bytes, disassembly.
#[derive(Debug, Clone)]
pub struct ListingRow {
    pub pc: usize,
    pub bytes: String,
    pub assembly: String,
}

/// A `ListingRow` as a mathematical value.
pub struct ListingRowView {
    pub pc: usize,
    pub bytes: Seq<char>,
    pub assembly: Seq<char>,
}

impl View for ListingRow {
    type V = ListingRowView;

    open spec fn view(&self) -> ListingRowView {
        ListingRowView { pc: self.pc, bytes: self.bytes@, assembly: self.assembly@ }
    }
}

/// What the playground shows for a program.
#[derive(Debug, Clone)]
pub struct AssembleResult {
    pub ok: bool,
    pub listing: Vec<ListingRow>,
    pub errors: Vec<AsmError>,
    pub diags: Vec<Diag>,
}

/// An `AssembleResult` as a mathematical value.
pub struct AssembleResultView {
    pub ok: bool,
    pub listing: Seq<ListingRowView>,
    pub errors: Seq<AsmErrorView>,
    pub diags: Seq<DiagView>,
}

impl View for AssembleResult {
    type V = AssembleResultView;

    open spec fn view(&self) -> AssembleResultView {
        AssembleResultView {
            ok: self.ok,
            listing: self.listing@.map_values(|r: ListingRow| r@),
            errors: errors_view(self.errors@),
            diags: diags_view(self.diags@),
        }
    }
}

/// The listing of a program: each slot with its bytes and disassembly.
pub open spec fn listing_spec(insns: Seq<RawInsn>) -> Seq<ListingRowView> {
    Seq::new(
        insns.len(),
        |pc: int|
            ListingRowView {
                pc: pc as usize,
                bytes: join_hex(encode(insns[pc])),
                assembly: disasm_spec(insns, pc),
            },
    )
}

/// Whether some finding is an error.
pub open spec fn has_error(d: Seq<DiagView>) -> bool {
    exists|i: int| 0 <= i < d.len() && (#[trigger] d[i]).level == "error"@
}

/// What the playground shows: the verifier runs only on a program that
/// assembled without errors; the program may run when there are neither
/// assembly errors nor error findings.
pub open spec fn result_spec(insns: Seq<RawInsn>, errors: Seq<AsmErrorView>) -> AssembleResultView {
    let diags = if errors.len() == 0 {
        verify_spec(insns)
    } else {
        Seq::empty()
    };
    AssembleResultView {
        ok: errors.len() == 0 && !has_error(diags),
        listing: listing_spec(insns),
        errors,
        diags,
    }
}

fn bytes_text(insn: &RawInsn) -> (s: String)
    ensures
        s@ == join_hex(encode(*insn)),
{
    let b = insn.to_bytes();
    let mut s = String::new();
    let mut i: usize = 0;
    assert(b@.take(0) =~= Seq::<u8>::empty());
    while i < 8
        invariant
            i <= 8,
            b@ == encode(*insn),
            b@.len() == 8,
            s@ == join_hex(b@.take(i as int)),
        decreases 8 - i,
    {
        if i > 0 {
            push_char(&mut s, ' ');
        }
        push_hex2(&mut s, b[i]);
        let ghost t = b@.take(i + 1);
        assert(t.drop_last() =~= b@.take(i as int));
        assert(s@ =~= join_hex(t));
        i = i + 1;
    }
    assert(b@.take(8) =~= b@);
    s
}

/// Builds what the playground shows for a program and its assembly errors.
pub fn result_from_insns(insns: &[RawInsn], errors: Vec<AsmError>) -> (r: AssembleResult)
    ensures
        r@ == result_spec(insns@, errors_view(errors@)),
{
    let diags = if errors.len() == 0 {
        verify(insns)
    } else {
        Vec::new()
    };
    assert(errors.len() != 0 ==> diags_view(diags@) =~= Seq::<DiagView>::empty());
    let mut listing: Vec<ListingRow> = Vec::new();
    let mut pc: usize = 0;
    while pc < insns.len()
        invariant
            pc <= insns@.len(),
            listing@.map_values(|r: ListingRow| r@) == listing_spec(insns@).take(pc as int),
        decreases insns@.len() - pc,
    {
        let row = ListingRow { pc, bytes: bytes_text(&insns[pc]), assembly: disasm(insns, pc) };
        let ghost before = listing@.map_values(|r: ListingRow| r@);
        let ghost rv = row@;
        assert(rv == listing_spec(insns@)[pc as int]);
        listing.push(row);
        assert(listing@.map_values(|r: ListingRow| r@) =~= before.push(rv));
        pc = pc + 1;
        assert(listing@.map_values(|r: ListingRow| r@) =~= listing_spec(insns@).take(pc as int));
    }
    assert(listing_spec(insns@).take(pc as int) =~= listing_spec(insns@));
    let mut has_err = false;
    let mut i: usize = 0;
    while i < diags.len()
        invariant
            i <= diags@.len(),
            has_err == exists|j: int| 0 <= j < i && (#[trigger] diags_view(diags@)[j]).level == "error"@,
        decreases diags@.len() - i,
    {
        let lv = str_chars(diags[i].level);
        if chars_eq(&lv, "error") {
            has_err = true;
        }
        assert(diags_view(diags@)[i as int].level == diags@[i as int].level@);
        i = i + 1;
    }
    let ok = errors.len() == 0 && !has_err;
    AssembleResult { ok, listing, errors, diags }
}

/// Assembles `source` and builds what the playground shows for it.
pub fn build_assemble_result(source: &str) -> (r: (Vec<RawInsn>, AssembleResult))
    requires
        lines(source@).len() <= u32::MAX,
        2 * lines(source@).len() <= usize::MAX,
    ensures
        r.0@ == assemble_spec(source@).0,
        r.1@ == result_spec(assemble_spec(source@).0, assemble_spec(source@).1),
{
    let (insns, errors) = assemble(source);
    let result = result_from_insns(insns.as_slice(), errors);
    (insns, result)
}


/// A program may run exactly when it assembled without errors and no
/// finding, at any position, is an error; the findings are the verifier's
/// only when the program assembled.
pub proof fn lemma_run_verdict(insns: Seq<RawInsn>, errors: Seq<AsmErrorView>)
    ensures
        result_spec(insns, errors).ok <==> (errors.len() == 0 && forall|i: int|
            0 <= i < result_spec(insns, errors).diags.len() ==> (#[trigger] result_spec(
                insns,
                errors,
            ).diags[i]).level != "error"@),
        errors.len() > 0 ==> !result_spec(insns, errors).ok,
        forall|i: int|
            0 <= i < result_spec(insns, errors).diags.len() && (#[trigger] result_spec(
                insns,
                errors,
            ).diags[i]).level == "error"@ ==> !result_spec(insns, errors).ok,
        errors.len() == 0 ==> result_spec(insns, errors).diags == verify_spec(insns),
        errors.len() > 0 ==> result_spec(insns, errors).diags.len() == 0,
{
    let d = result_spec(insns, errors).diags;
    if has_error(d) {
        let w = choose|i: int| 0 <= i < d.len() && (#[trigger] d[i]).level == "error"@;
        assert(d[w].level == "error"@);
    }
}


// ---------------------------------------------------------------------------
// Hex text of bytes reads back as the bytes
// ---------------------------------------------------------------------------

/// The hex digits of bytes, two per byte, without separators.
pub open spec fn hex_flat(bs: Seq<u8>) -> Seq<char>
    decreases bs.len(),
{
    if bs.len() == 0 {
        Seq::empty()
    } else {
        hex_flat(bs.drop_last()) + hex2(bs.last())
    }
}

proof fn lemma_hex_digit(d: nat)
    requires
        d < 16,
    ensures
        digit_value(digit_char(d)) == d,
        is_digit(digit_char(d), 16),
        !is_sep(digit_char(d)),
        digit_char(d) != 'x' && digit_char(d) != 'X',
{
}

proof fn lemma_hex2(b: u8)
    ensures
        hex2(b).len() == 2,
        all_digits(hex2(b), 16),
        forall|j: int| 0 <= j < 2 ==> !is_sep(#[trigger] hex2(b)[j]),
        trim(hex2(b)) == hex2(b),
        strip_0x(hex2(b)) == hex2(b),
        digit_value(hex2(b)[0]) * 16 + digit_value(hex2(b)[1]) == b,
{
    lemma_hex_digit(b as nat / 16);
    lemma_hex_digit(b as nat % 16);
    let h = hex2(b);
    assert(trim_start(h) == h);
    assert(trim_end(h) == h);
}

proof fn lemma_join_hex_front(bs: Seq<u8>)
    requires
        bs.len() >= 2,
    ensures
        join_hex(bs) == hex2(bs[0]) + seq![' '] + join_hex(bs.drop_first()),
    decreases bs.len(),
{
    let dl = bs.drop_last();
    let df = bs.drop_first();
    if bs.len() == 2 {
        assert(dl =~= seq![bs[0]]);
        assert(df =~= seq![bs[1]]);
        assert(join_hex(dl) == hex2(bs[0]));
        assert(join_hex(df) == hex2(bs[1]));
    } else {
        lemma_join_hex_front(dl);
        assert(dl.drop_first() =~= df.drop_last());
        assert(df.last() == bs.last());
        assert(dl[0] == bs[0]);
        assert(join_hex(df) == join_hex(df.drop_last()) + seq![' '] + hex2(df.last()));
        assert(join_hex(bs) =~= hex2(bs[0]) + seq![' '] + join_hex(df));
    }
}

proof fn lemma_split_join_hex(bs: Seq<u8>)
    requires
        bs.len() >= 1,
    ensures
        split_seps(join_hex(bs)) == Seq::new(bs.len(), |k: int| hex2(bs[k])),
    decreases bs.len(),
{
    lemma_hex2(bs[0]);
    let h = hex2(bs[0]);
    if bs.len() == 1 {
        lemma_index_of_sep(h, 2);
        assert(split_seps(h) == seq![h]);
        assert(Seq::new(bs.len(), |k: int| hex2(bs[k])) =~= seq![h]);
    } else {
        lemma_join_hex_front(bs);
        let rest = join_hex(bs.drop_first());
        let t = h + seq![' '] + rest;
        assert forall|j: int| 0 <= j < 2 implies !is_sep(#[trigger] t[j]) by {
            assert(t[j] == h[j]);
        }
        assert(is_sep(t[2]));
        lemma_index_of_sep(t, 2);
        assert(t.take(2) =~= h);
        assert(t.skip(3) =~= rest);
        lemma_split_join_hex(bs.drop_first());
        assert(Seq::new(bs.len(), |k: int| hex2(bs[k])) =~= seq![h] + Seq::new(
            bs.drop_first().len(),
            |k: int| hex2(bs.drop_first()[k]),
        ));
    }
}

proof fn lemma_hex_digits_of_bytes(bs: Seq<u8>)
    ensures
        hex_digits_of(Seq::new(bs.len(), |k: int| hex2(bs[k]))) == Ok::<Seq<char>, Seq<char>>(
            hex_flat(bs),
        ),
    decreases bs.len(),
{
    let toks = Seq::new(bs.len(), |k: int| hex2(bs[k]));
    if bs.len() > 0 {
        lemma_hex_digits_of_bytes(bs.drop_last());
        assert(toks.drop_last() =~= Seq::new(bs.drop_last().len(), |k: int| hex2(bs.drop_last()[k])));
        lemma_hex2(bs.last());
    }
}

proof fn lemma_hex_flat_index(bs: Seq<u8>)
    ensures
        hex_flat(bs).len() == 2 * bs.len(),
        forall|k: int|
            0 <= k < bs.len() ==> #[trigger] hex_flat(bs)[2 * k] == hex2(bs[k])[0] && hex_flat(
                bs,
            )[2 * k + 1] == hex2(bs[k])[1],
    decreases bs.len(),
{
    if bs.len() > 0 {
        lemma_hex_flat_index(bs.drop_last());
        lemma_hex2(bs.last());
        let p = hex_flat(bs.drop_last());
        assert forall|k: int| 0 <= k < bs.len() implies #[trigger] hex_flat(bs)[2 * k]
            == hex2(bs[k])[0] && hex_flat(bs)[2 * k + 1] == hex2(bs[k])[1] by {
            if k < bs.len() - 1 {
                assert(hex_flat(bs)[2 * k] == p[2 * k]);
                assert(hex_flat(bs)[2 * k + 1] == p[2 * k + 1]);
                assert(bs.drop_last()[k] == bs[k]);
            }
        }
    }
}

/// Hex text reads back as the bytes it shows: the bytes written as
/// two-digit hex numbers separated by spaces (as in the listing) denote
/// the same program as the bytes themselves.
pub proof fn lemma_hex_text_reads_back(bs: Seq<u8>)
    requires
        bs.len() > 0,
    ensures
        insns_from_hex_spec(join_hex(bs)) == insns_from_bytes_spec(bs),
{
    lemma_split_join_hex(bs);
    lemma_hex_digits_of_bytes(bs);
    lemma_hex_flat_index(bs);
    let h = hex_flat(bs);
    assert((2 * bs.len()) % 2 == 0 && (2 * bs.len()) / 2 == bs.len()) by (nonlinear_arith);
    assert forall|k: int| 0 <= k < bs.len() implies #[trigger] hex_bytes(h)[k] == bs[k] by {
        lemma_hex2(bs[k]);
        assert(h[2 * k] == hex2(bs[k])[0]);
    }
    assert(hex_bytes(h) =~= bs);
}

/// Each row of the listing shows its slot's bytes as hex text that reads
/// back, on its own, as the instruction in that slot.
pub proof fn lemma_listing_bytes_read_back(insns: Seq<RawInsn>, pc: int)
    requires
        0 <= pc < insns.len(),
        encodable(insns[pc]),
    ensures
        insns_from_hex_spec(listing_spec(insns)[pc].bytes) == Ok::<Seq<RawInsn>, Seq<char>>(
            seq![insns[pc]],
        ),
{
    let i = insns[pc];
    let one = seq![i];
    assert(encode_all(one.drop_last()) =~= Seq::<u8>::empty());
    assert(encode_all(one) =~= encode(i));
    lemma_bytes_roundtrip(one);
    lemma_hex_text_reads_back(encode(i));
}

}
