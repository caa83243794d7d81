//! Whitespace in source text: the ASCII whitespace characters (space, tab,
//! line feed, vertical tab, form feed, carriage return) are trimmed around
//! statements and separate a mnemonic from its operands, so indenting a
//! source, or separating with a tab rather than a space, changes nothing.
use vstd::prelude::*;
use crate::text::{
    index_of, is_ws, lemma_index_of_ws, lines, strip_cr, trim, trim_end, trim_start,
};
use crate::assembler::{
    assemble_spec, comment_at, comment_from, pass1, pass1_line, scan_labels, split_stmt,
    strip_comment_spec, Pass1,
};

verus! {

/// The ASCII characters that `char::is_whitespace` accepts: space, tab,
/// line feed, vertical tab, form feed and carriage return.
pub open spec fn ascii_ws(c: char) -> bool {
    c == ' ' || ('\t' <= c && c <= '\r')
}

/// Trimming from the start of a concatenation.
proof fn lemma_trim_start_concat(s: Seq<char>, t: Seq<char>)
    ensures
        trim_start(s + t) == if trim_start(s).len() > 0 {
            trim_start(s) + t
        } else {
            trim_start(t)
        },
    decreases s.len(),
{
    if s.len() == 0 {
        assert(s + t =~= t);
    } else if is_ws(s[0]) {
        assert((s + t).drop_first() =~= s.drop_first() + t);
        lemma_trim_start_concat(s.drop_first(), t);
    } else {
        assert((s + t)[0] == s[0]);
    }
}

/// Whitespace before or after a text is trimmed away: an ASCII whitespace
/// character added at either end leaves the trimmed text as it was.
pub proof fn lemma_trim_ascii_ws(c: char, s: Seq<char>)
    requires
        ascii_ws(c),
    ensures
        trim(seq![c] + s) == trim(s),
        trim(s + seq![c]) == trim(s),
{
    lemma_trim_ws(c, s);
}

/// The other characters with the Unicode `White_Space` property (next
/// line, no-break space, Ogham space mark, the spaces from en quad to hair
/// space, line and paragraph separators, narrow no-break space, medium
/// mathematical space, ideographic space) are trimmed as well.
pub proof fn lemma_trim_unicode_ws(c: char, s: Seq<char>)
    requires
        c == '\u{85}' || c == '\u{a0}' || c == '\u{1680}' || ('\u{2000}' <= c && c
            <= '\u{200a}') || c == '\u{2028}' || c == '\u{2029}' || c == '\u{202f}' || c
            == '\u{205f}' || c == '\u{3000}',
    ensures
        trim(seq![c] + s) == trim(s),
        trim(s + seq![c]) == trim(s),
{
    lemma_trim_ws(c, s);
}

proof fn lemma_trim_ws(c: char, s: Seq<char>)
    requires
        ascii_ws(c) || c == '\u{85}' || c == '\u{a0}' || c == '\u{1680}' || ('\u{2000}' <= c
            && c <= '\u{200a}') || c == '\u{2028}' || c == '\u{2029}' || c == '\u{202f}' || c
            == '\u{205f}' || c == '\u{3000}',
    ensures
        trim(seq![c] + s) == trim(s),
        trim(s + seq![c]) == trim(s),
{
    assert(is_ws(c));
    let t = seq![c] + s;
    assert(t.drop_first() =~= s);
    assert(trim_start(t) == trim_start(s));
    lemma_trim_start_concat(s, seq![c]);
    let u = seq![c];
    assert(u.drop_first() =~= Seq::<char>::empty());
    assert(trim_start(u) == trim_start(Seq::<char>::empty()));
    if trim_start(s).len() > 0 {
        let a = trim_start(s) + u;
        assert(a.drop_last() =~= trim_start(s));
        assert(trim_end(a) == trim_end(trim_start(s)));
    }
}

/// A mnemonic followed by an ASCII whitespace character and operands is
/// split there, whichever whitespace character it is.
pub proof fn lemma_split_stmt_ascii_ws(m: Seq<char>, c: char, r: Seq<char>)
    requires
        ascii_ws(c),
        forall|i: int| 0 <= i < m.len() ==> !is_ws(#[trigger] m[i]),
    ensures
        split_stmt(m + seq![c] + r) == (m, r),
{
    let t = m + seq![c] + r;
    assert forall|j: int| 0 <= j < m.len() implies !is_ws(#[trigger] t[j]) by {
        assert(t[j] == m[j]);
    }
    assert(t[m.len() as int] == c);
    lemma_index_of_ws(t, m.len() as int);
    assert(t.take(m.len() as int) =~= m);
    assert(t.skip(m.len() as int + 1) =~= r);
}

/// The statement text of a source line: without its comment, trimmed.
pub open spec fn stmt_text(raw: Seq<char>) -> Seq<char> {
    trim(strip_comment_spec(raw))
}

proof fn lemma_comment_from_shift(c: char, x: Seq<char>, i: int)
    requires
        0 <= i <= x.len(),
    ensures
        comment_from(seq![c] + x, i + 1) == comment_from(x, i) + 1,
    decreases x.len() - i,
{
    let t = seq![c] + x;
    if i < x.len() {
        assert(t[i + 1] == x[i]);
        if i + 1 < x.len() {
            assert(t[i + 2] == x[i + 1]);
        }
        assert(comment_at(t, i + 1) == comment_at(x, i));
        lemma_comment_from_shift(c, x, i + 1);
    }
}

/// A whitespace character in front of a line does not change its
/// statement text.
proof fn lemma_stmt_text_cons(c: char, x: Seq<char>)
    requires
        ascii_ws(c),
    ensures
        stmt_text(seq![c] + x) == stmt_text(x),
{
    let t = seq![c] + x;
    assert(!comment_at(t, 0));
    lemma_comment_from_shift(c, x, 0);
    lemma_comment_from_bound(x, 0);
    assert(comment_from(t, 0) == comment_from(t, 1));
    let k = comment_from(x, 0);
    assert(t.take(k + 1) =~= seq![c] + x.take(k));
    assert(strip_comment_spec(t) =~= seq![c] + strip_comment_spec(x));
    lemma_trim_ascii_ws(c, strip_comment_spec(x));
}

proof fn lemma_comment_from_bound(x: Seq<char>, i: int)
    requires
        0 <= i,
    ensures
        comment_from(x, i) <= x.len(),
        comment_from(x, i) >= 0,
    decreases x.len() - i,
{
    if i < x.len() && !comment_at(x, i) {
        lemma_comment_from_bound(x, i + 1);
    }
}

/// A line that is empty or only whitespace has no statement.
proof fn lemma_stmt_text_blank(c: char)
    requires
        ascii_ws(c),
    ensures
        stmt_text(seq![c]) == Seq::<char>::empty(),
        stmt_text(Seq::<char>::empty()) == Seq::<char>::empty(),
{
    lemma_stmt_text_cons(c, Seq::<char>::empty());
    assert(seq![c] + Seq::<char>::empty() =~= seq![c]);
    assert(comment_from(Seq::<char>::empty(), 0) == 0);
    assert(strip_comment_spec(Seq::<char>::empty()) =~= Seq::<char>::empty());
}

/// The first pass reads a line only through its statement text.
proof fn lemma_pass1_same_text(a: Seq<Seq<char>>, b: Seq<Seq<char>>, k: nat)
    requires
        k <= a.len(),
        k <= b.len(),
        forall|j: int| 0 <= j < k ==> stmt_text(#[trigger] a[j]) == stmt_text(b[j]),
    ensures
        pass1(a, k) == pass1(b, k),
    decreases k,
{
    if k > 0 {
        lemma_pass1_same_text(a, b, (k - 1) as nat);
        assert(stmt_text(a[k - 1]) == stmt_text(b[k - 1]));
    }
}

/// A blank first line adds nothing to the first pass.
proof fn lemma_pass1_blank_line(c: char)
    requires
        ascii_ws(c),
    ensures
        pass1(seq![seq![c]], 1) == pass1(Seq::<Seq<char>>::empty(), 0),
{
    lemma_stmt_text_blank(c);
    let p0 = pass1(Seq::<Seq<char>>::empty(), 0);
    assert(pass1(seq![seq![c]], 0) == p0);
    assert(scan_labels(Seq::<char>::empty(), 1, p0.slot as usize, p0.labels, p0.errors) == (
        Seq::<char>::empty(),
        p0.labels,
        p0.errors,
    ));
}

/// The lines of an indented text: a single blank line when the text was
/// empty, else as many lines as before, with the same statement texts.
proof fn lemma_lines_indent(c: char, s: Seq<char>)
    requires
        ascii_ws(c),
        c != '\n',
    ensures
        s.len() == 0 ==> lines(seq![c] + s) == seq![seq![c]] && lines(s) == Seq::<
            Seq<char>,
        >::empty(),
        s.len() > 0 ==> lines(seq![c] + s).len() == lines(s).len() && forall|j: int|
            0 <= j < lines(s).len() ==> stmt_text(#[trigger] lines(seq![c] + s)[j]) == stmt_text(
                lines(s)[j],
            ),
{
    let t = seq![c] + s;
    assert(t.drop_first() =~= s);
    assert(t[0] == c);
    if s.len() == 0 {
        assert(t =~= seq![c]);
        lemma_index_of_none_cons(c, s);
    } else {
        let la = lines(t);
        let lb = lines(s);
        match index_of(s, '\n') {
            None => {
                lemma_index_of_none_cons(c, s);
                assert(la == seq![t]);
                assert(lb == seq![s]);
                lemma_stmt_text_cons(c, s);
            },
            Some(i) => {
                crate::text::lemma_index_of_found(s, '\n');
                lemma_index_of_none_cons(c, s);
                assert(index_of(t, '\n') == Some(i + 1));
                assert(t.take(i + 1) =~= seq![c] + s.take(i));
                assert(t.skip(i + 2) =~= s.skip(i + 1));
                let x = s.take(i);
                if x.len() > 0 {
                    assert(strip_cr(seq![c] + x) == seq![c] + strip_cr(x)) by {
                        if x.last() == '\r' {
                            assert((seq![c] + x).drop_last() =~= seq![c] + x.drop_last());
                        }
                    }
                    lemma_stmt_text_cons(c, strip_cr(x));
                } else {
                    assert(seq![c] + x =~= seq![c]);
                    lemma_stmt_text_blank(c);
                    if c == '\r' {
                        assert(seq![c].drop_last() =~= Seq::<char>::empty());
                    }
                }
                assert(stmt_text(la[0]) == stmt_text(lb[0]));
                assert forall|j: int| 0 <= j < lb.len() implies stmt_text(#[trigger] la[j])
                    == stmt_text(lb[j]) by {
                    if j > 0 {
                        assert(la[j] == lb[j]);
                    }
                }
            },
        }
    }
}

/// A line with no statement leaves the first pass as it was.
proof fn lemma_pass1_line_blank(p: Pass1, raw: Seq<char>, number: u32)
    requires
        stmt_text(raw) == Seq::<char>::empty(),
    ensures
        pass1_line(p, raw, number) == p,
{
    assert(scan_labels(Seq::<char>::empty(), number, p.slot as usize, p.labels, p.errors) == (
        Seq::<char>::empty(),
        p.labels,
        p.errors,
    ));
}

/// The lines of a text with a line break in it: those up to the break,
/// then those after it.
proof fn lemma_lines_concat(a: Seq<char>, x: Seq<char>)
    ensures
        lines(a + seq!['\n'] + x) == lines(a + seq!['\n']) + lines(x),
    decreases a.len(),
{
    let t = a + seq!['\n'] + x;
    let u = a + seq!['\n'];
    crate::text::lemma_index_of_found(a, '\n');
    match index_of(a, '\n') {
        Some(i) => {
            crate::text::lemma_index_of(t, '\n', i);
            crate::text::lemma_index_of(u, '\n', i);
            assert(t.take(i) =~= a.take(i));
            assert(u.take(i) =~= a.take(i));
            let r = a.skip(i + 1);
            assert(t.skip(i + 1) =~= r + seq!['\n'] + x);
            assert(u.skip(i + 1) =~= r + seq!['\n']);
            lemma_lines_concat(r, x);
        },
        None => {
            crate::text::lemma_index_of(t, '\n', a.len() as int);
            crate::text::lemma_index_of(u, '\n', a.len() as int);
            assert(t.take(a.len() as int) =~= a);
            assert(u.take(a.len() as int) =~= a);
            assert(t.skip(a.len() as int + 1) =~= x);
            assert(u.skip(a.len() as int + 1) =~= Seq::<char>::empty());
            assert(lines(Seq::<char>::empty()) == Seq::<Seq<char>>::empty());
        },
    }
}

/// The first pass over `l + x` and over `l + y` agree when `x` and `y` have
/// the same statement texts, or when `x` is one blank line and `y` nothing.
proof fn lemma_pass1_tail(l: Seq<Seq<char>>, x: Seq<Seq<char>>, y: Seq<Seq<char>>)
    requires
        (x.len() == y.len() && forall|j: int|
            0 <= j < y.len() ==> stmt_text(#[trigger] x[j]) == stmt_text(y[j])) || (x.len() == 1
            && stmt_text(x[0]) == Seq::<char>::empty() && y.len() == 0),
    ensures
        pass1(l + x, (l + x).len()) == pass1(l + y, (l + y).len()),
{
    let a = l + x;
    let b = l + y;
    if x.len() == y.len() {
        assert forall|j: int| 0 <= j < a.len() implies stmt_text(#[trigger] a[j]) == stmt_text(
            b[j],
        ) by {
            if j >= l.len() {
                assert(a[j] == x[j - l.len()]);
                assert(b[j] == y[j - l.len()]);
            } else {
                assert(a[j] == l[j]);
                assert(b[j] == l[j]);
            }
        }
        lemma_pass1_same_text(a, b, a.len());
    } else {
        assert forall|j: int| 0 <= j < l.len() implies stmt_text(#[trigger] a[j]) == stmt_text(
            b[j],
        ) by {
            assert(a[j] == l[j]);
            assert(b[j] == l[j]);
        }
        lemma_pass1_same_text(a, b, l.len());
        assert(b.len() == l.len());
        assert(a[l.len() as int] == x[0]);
        lemma_pass1_line_blank(pass1(a, l.len()), x[0], (l.len() + 1) as u32);
    }
}

/// Indenting a source with whitespace other than a line break does not
/// change what it assembles to: the same instructions and the same errors
/// (with the same line numbers).
pub proof fn lemma_assemble_indent(c: char, s: Seq<char>)
    requires
        ascii_ws(c),
        c != '\n',
    ensures
        assemble_spec(seq![c] + s) == assemble_spec(s),
{
    lemma_lines_indent(c, s);
    lemma_stmt_text_blank(c);
    let e = Seq::<Seq<char>>::empty();
    assert(e + lines(seq![c] + s) =~= lines(seq![c] + s));
    assert(e + lines(s) =~= lines(s));
    lemma_pass1_tail(e, lines(seq![c] + s), lines(s));
}

/// Indenting any line of a source with whitespace other than a line break
/// does not change what it assembles to.
pub proof fn lemma_assemble_indent_line(a: Seq<char>, c: char, b: Seq<char>)
    requires
        ascii_ws(c),
        c != '\n',
    ensures
        assemble_spec(a + seq!['\n', c] + b) == assemble_spec(a + seq!['\n'] + b),
{
    lemma_lines_indent(c, b);
    lemma_stmt_text_blank(c);
    assert(a + seq!['\n', c] + b =~= a + seq!['\n'] + (seq![c] + b));
    lemma_lines_concat(a, seq![c] + b);
    lemma_lines_concat(a, b);
    lemma_pass1_tail(lines(a + seq!['\n']), lines(seq![c] + b), lines(b));
}

/// `index_of` in front of a character that is not the one sought.
proof fn lemma_index_of_none_cons(c: char, s: Seq<char>)
    requires
        c != '\n',
    ensures
        index_of(seq![c] + s, '\n') == match index_of(s, '\n') {
            Some(i) => Some(i + 1),
            None => None::<int>,
        },
{
    let t = seq![c] + s;
    assert(t.drop_first() =~= s);
}

} // verus!
