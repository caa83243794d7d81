//! Character-level text helpers: whitespace, trimming, searching, number
//! rendering and number parsing, all over sequences of `char`.
use vstd::prelude::*;
use vstd::string::*;

verus! {

// ---------------------------------------------------------------------------
// Whitespace
// ---------------------------------------------------------------------------

/// The Unicode `White_Space` property, which is what `char::is_whitespace`
/// tests.
pub open spec fn is_ws(c: char) -> bool {
    let u = c as u32;
    ||| u == 0x20
    ||| (0x09 <= u && u <= 0x0d)
    ||| u == 0x85
    ||| u == 0xa0
    ||| u == 0x1680
    ||| (0x2000 <= u && u <= 0x200a)
    ||| u == 0x2028
    ||| u == 0x2029
    ||| u == 0x202f
    ||| u == 0x205f
    ||| u == 0x3000
}

/// Whether `c` is whitespace.
pub fn is_whitespace(c: char) -> (b: bool)
    ensures
        b == is_ws(c),
{
    let u = c as u32;
    u == 0x20 || (0x09 <= u && u <= 0x0d) || u == 0x85 || u == 0xa0 || u == 0x1680 || (0x2000 <= u
        && u <= 0x200a) || u == 0x2028 || u == 0x2029 || u == 0x202f || u == 0x205f || u == 0x3000
}

/// Whether `s` contains a whitespace character.
pub open spec fn has_ws(s: Seq<char>) -> bool {
    exists|i: int| 0 <= i < s.len() && is_ws(#[trigger] s[i])
}

// ---------------------------------------------------------------------------
// Trimming
// ---------------------------------------------------------------------------

/// `s` without its leading whitespace.
pub open spec fn trim_start(s: Seq<char>) -> Seq<char>
    decreases s.len(),
{
    if s.len() > 0 && is_ws(s[0]) {
        trim_start(s.drop_first())
    } else {
        s
    }
}

/// `s` without its trailing whitespace.
pub open spec fn trim_end(s: Seq<char>) -> Seq<char>
    decreases s.len(),
{
    if s.len() > 0 && is_ws(s.last()) {
        trim_end(s.drop_last())
    } else {
        s
    }
}

/// `s` without leading and trailing whitespace (`str::trim`).
pub open spec fn trim(s: Seq<char>) -> Seq<char> {
    trim_end(trim_start(s))
}

/// The characters of `s` from `lo` up to `hi`.
pub fn subvec(s: &Vec<char>, lo: usize, hi: usize) -> (r: Vec<char>)
    requires
        lo <= hi <= s@.len(),
    ensures
        r@ == s@.subrange(lo as int, hi as int),
{
    let mut r: Vec<char> = Vec::new();
    let mut i: usize = lo;
    while i < hi
        invariant
            lo <= i <= hi <= s@.len(),
            r@ == s@.subrange(lo as int, i as int),
        decreases hi - i,
    {
        r.push(s[i]);
        i = i + 1;
        assert(r@ =~= s@.subrange(lo as int, i as int));
    }
    r
}

/// Removes leading and trailing whitespace.
pub fn trim_chars(s: &Vec<char>) -> (r: Vec<char>)
    ensures
        r@ == trim(s@),
{
    let mut lo: usize = 0;
    assert(s@.skip(0) =~= s@);
    while lo < s.len() && is_whitespace(s[lo])
        invariant
            lo <= s@.len(),
            trim_start(s@) == trim_start(s@.skip(lo as int)),
        decreases s@.len() - lo,
    {
        assert(s@.skip(lo as int).drop_first() =~= s@.skip(lo + 1));
        lo = lo + 1;
    }
    let ghost t = s@.skip(lo as int);
    assert(trim_start(t) == t);
    let mut hi: usize = s.len();
    while hi > lo && is_whitespace(s[hi - 1])
        invariant
            lo <= hi <= s@.len(),
            t == s@.skip(lo as int),
            trim_end(t) == trim_end(s@.subrange(lo as int, hi as int)),
        decreases hi,
    {
        assert(s@.subrange(lo as int, hi as int).drop_last() =~= s@.subrange(
            lo as int,
            hi - 1,
        ));
        hi = hi - 1;
    }
    assert(trim_end(s@.subrange(lo as int, hi as int)) == s@.subrange(lo as int, hi as int));
    assert(s@.skip(lo as int) =~= s@.subrange(lo as int, s@.len() as int));
    subvec(s, lo, hi)
}

// ---------------------------------------------------------------------------
// Searching
// ---------------------------------------------------------------------------

/// The first index of `c` in `s`.
pub open spec fn index_of(s: Seq<char>, c: char) -> Option<int>
    decreases s.len(),
{
    if s.len() == 0 {
        None
    } else if s[0] == c {
        Some(0)
    } else {
        match index_of(s.drop_first(), c) {
            Some(i) => Some(i + 1),
            None => None,
        }
    }
}

/// `index_of` is the first position holding `c`.
pub proof fn lemma_index_of(s: Seq<char>, c: char, i: int)
    requires
        0 <= i <= s.len(),
        forall|j: int| 0 <= j < i ==> s[j] != c,
    ensures
        i < s.len() && s[i] == c ==> index_of(s, c) == Some(i),
        i == s.len() ==> index_of(s, c) is None,
    decreases i,
{
    if i > 0 {
        lemma_index_of(s.drop_first(), c, i - 1);
    }
}

/// The first index of `c` in `s`.
pub fn find_char(s: &Vec<char>, c: char) -> (r: Option<usize>)
    ensures
        match r {
            Some(i) => index_of(s@, c) == Some(i as int),
            None => index_of(s@, c) is None,
        },
{
    let mut i: usize = 0;
    while i < s.len()
        invariant
            i <= s@.len(),
            forall|j: int| 0 <= j < i ==> s@[j] != c,
        decreases s@.len() - i,
    {
        if s[i] == c {
            proof {
                lemma_index_of(s@, c, i as int);
            }
            return Some(i);
        }
        i = i + 1;
    }
    proof {
        lemma_index_of(s@, c, i as int);
    }
    None
}

/// The first index of a whitespace character in `s`.
pub open spec fn index_of_ws(s: Seq<char>) -> Option<int>
    decreases s.len(),
{
    if s.len() == 0 {
        None
    } else if is_ws(s[0]) {
        Some(0)
    } else {
        match index_of_ws(s.drop_first()) {
            Some(i) => Some(i + 1),
            None => None,
        }
    }
}

/// `index_of_ws` is the first whitespace position.
pub proof fn lemma_index_of_ws(s: Seq<char>, i: int)
    requires
        0 <= i <= s.len(),
        forall|j: int| 0 <= j < i ==> !is_ws(s[j]),
    ensures
        i < s.len() && is_ws(s[i]) ==> index_of_ws(s) == Some(i),
        i == s.len() ==> index_of_ws(s) is None,
    decreases i,
{
    if i > 0 {
        lemma_index_of_ws(s.drop_first(), i - 1);
    }
}

/// The first index of a whitespace character in `s`.
pub fn find_ws(s: &Vec<char>) -> (r: Option<usize>)
    ensures
        match r {
            Some(i) => index_of_ws(s@) == Some(i as int),
            None => index_of_ws(s@) is None,
        },
{
    let mut i: usize = 0;
    while i < s.len()
        invariant
            i <= s@.len(),
            forall|j: int| 0 <= j < i ==> !is_ws(s@[j]),
        decreases s@.len() - i,
    {
        if is_whitespace(s[i]) {
            proof {
                lemma_index_of_ws(s@, i as int);
            }
            return Some(i);
        }
        i = i + 1;
    }
    proof {
        lemma_index_of_ws(s@, i as int);
    }
    None
}

/// Whether `s` contains no whitespace, decided by `index_of_ws`.
pub proof fn lemma_has_ws(s: Seq<char>)
    ensures
        has_ws(s) <==> index_of_ws(s) is Some,
    decreases s.len(),
{
    if s.len() > 0 {
        lemma_has_ws(s.drop_first());
        if has_ws(s) && !is_ws(s[0]) {
            let i = choose|i: int| 0 <= i < s.len() && is_ws(#[trigger] s[i]);
            assert(is_ws(s.drop_first()[i - 1]));
        }
        if has_ws(s.drop_first()) {
            let i = choose|i: int| 0 <= i < s.len() - 1 && is_ws(#[trigger] s.drop_first()[i]);
            assert(is_ws(s[i + 1]));
        }
    }
}

// ---------------------------------------------------------------------------
// Rendering numbers
// ---------------------------------------------------------------------------

/// The lower-case digit for `d` (below 16).
pub open spec fn digit_char(d: nat) -> char {
    if d < 10 {
        (48 + d) as char
    } else {
        (87 + d) as char
    }
}

/// The digits of `n` in base `base`, most significant first, without
/// leading zeros (`"0"` for zero).
pub open spec fn radix_chars(n: nat, base: nat) -> Seq<char>
    decreases n,
{
    if base < 2 || n < base {
        seq![digit_char(n % 16)]
    } else {
        proof {
            assert(n / base < n) by (nonlinear_arith)
                requires
                    base >= 2,
                    n >= base,
            ;
        }
        radix_chars(n / base, base).push(digit_char(n % base))
    }
}

/// The decimal rendering of `n` (`{}`).
pub open spec fn dec(n: nat) -> Seq<char> {
    radix_chars(n, 10)
}

/// The lower-case hexadecimal rendering of `n` (`{:x}`).
pub open spec fn hex(n: nat) -> Seq<char> {
    radix_chars(n, 16)
}

/// The decimal rendering of a signed number (`{}`).
pub open spec fn int_dec(x: int) -> Seq<char> {
    if x < 0 {
        seq!['-'] + dec((-x) as nat)
    } else {
        dec(x as nat)
    }
}

/// A byte as two lower-case hexadecimal digits (`{:02x}`).
pub open spec fn hex2(b: u8) -> Seq<char> {
    seq![digit_char(b as nat / 16), digit_char(b as nat % 16)]
}

/// `String::push`: appends one character to the string.
#[verifier::external_body]
pub(crate) fn push_char(s: &mut String, c: char)
    ensures
        final(s)@ == old(s)@.push(c),
{
    s.push(c);
}

/// Appends a string slice.
pub fn push_str(s: &mut String, t: &str)
    ensures
        final(s)@ == old(s)@ + t@,
{
    s.append(t);
}

/// A string holding the characters of `t`.
pub fn string_of(t: &str) -> (s: String)
    ensures
        s@ == t@,
{
    String::from_str(t)
}

fn digit(d: u8) -> (c: char)
    requires
        d < 16,
    ensures
        c == digit_char(d as nat),
{
    if d < 10 {
        (48 + d) as char
    } else {
        (87 + d) as char
    }
}

fn push_radix(s: &mut String, n: u128, base: u128)
    requires
        base == 10 || base == 16,
    ensures
        final(s)@ == old(s)@ + radix_chars(n as nat, base as nat),
    decreases n,
{
    if n >= base {
        push_radix(s, n / base, base);
    }
    let d = (n % base) as u8;
    push_char(s, digit(d));
    proof {
        if n < base {
            assert(n as nat % 16 == n as nat % base as nat);
        }
        assert(final(s)@ =~= old(s)@ + radix_chars(n as nat, base as nat));
    }
}

/// Appends the decimal rendering of `n`.
pub fn push_dec(s: &mut String, n: u64)
    ensures
        final(s)@ == old(s)@ + dec(n as nat),
{
    push_radix(s, n as u128, 10);
}

/// Appends the hexadecimal rendering of `n`.
pub fn push_hex(s: &mut String, n: u64)
    ensures
        final(s)@ == old(s)@ + hex(n as nat),
{
    push_radix(s, n as u128, 16);
}

/// Appends the decimal rendering of a signed number.
pub fn push_int(s: &mut String, x: i128)
    ensures
        final(s)@ == old(s)@ + int_dec(x as int),
{
    if x < 0 {
        push_char(s, '-');
        let m: u128 = ((0 - (x + 1)) as u128) + 1;
        push_radix(s, m, 10);
        assert(final(s)@ =~= old(s)@ + int_dec(x as int));
    } else {
        push_radix(s, x as u128, 10);
    }
}

/// Appends a byte as two hexadecimal digits.
pub fn push_hex2(s: &mut String, b: u8)
    ensures
        final(s)@ == old(s)@ + hex2(b),
{
    push_char(s, digit(b / 16));
    push_char(s, digit(b % 16));
    assert(final(s)@ =~= old(s)@ + hex2(b));
}

/// Appends the characters of `v`.
pub fn push_chars(s: &mut String, v: &Vec<char>)
    ensures
        final(s)@ == old(s)@ + v@,
{
    let ghost s0 = s@;
    let mut i: usize = 0;
    while i < v.len()
        invariant
            i <= v@.len(),
            s@ == s0 + v@.take(i as int),
        decreases v@.len() - i,
    {
        push_char(s, v[i]);
        i = i + 1;
        assert(s@ =~= s0 + v@.take(i as int));
    }
    assert(v@.take(i as int) =~= v@);
}

/// The characters of `s`.
pub fn str_chars(s: &str) -> (v: Vec<char>)
    ensures
        v@ == s@,
{
    broadcast use vstd::string::group_string_axioms;

    let mut v: Vec<char> = Vec::new();
    for c in it: s.chars()
        invariant
            it.seq() == s@,
            v@ == it.seq().take(it.index() as int),
    {
        v.push(c);
        assert(v@ =~= it.seq().take(it.index() + 1));
    }
    assert(v@ =~= s@);
    v
}


// ---------------------------------------------------------------------------
// Parsing numbers
// ---------------------------------------------------------------------------

/// Whether `c` is a digit of `base` (10 or 16, either case for 16).
pub open spec fn is_digit(c: char, base: nat) -> bool {
    let u = c as u32;
    if base == 10 {
        48 <= u <= 57
    } else {
        (48 <= u <= 57) || (97 <= u <= 102) || (65 <= u <= 70)
    }
}

/// The value of a digit character.
pub open spec fn digit_value(c: char) -> nat {
    let u = c as u32;
    if 48 <= u <= 57 {
        (u - 48) as nat
    } else if 97 <= u <= 102 {
        (u - 87) as nat
    } else if 65 <= u <= 70 {
        (u - 55) as nat
    } else {
        0
    }
}

/// Reading a digit and writing it back gives the digit in lower case: a
/// digit's value is below its base, and upper- and lower-case hexadecimal
/// letters have the same value (`A`/`a` is 10, ..., `F`/`f` is 15).
pub proof fn lemma_digit_value_inverse(c: char, base: nat)
    requires
        base == 10 || base == 16,
        is_digit(c, base),
    ensures
        digit_value(c) < base,
        digit_char(digit_value(c)) == ascii_lower(c),
        digit_value(ascii_lower(c)) == digit_value(c),
        'A' <= c && c <= 'F' ==> digit_value(c) == (c as u32) - ('A' as u32) + 10,
        'a' <= c && c <= 'f' ==> digit_value(c) == (c as u32) - ('a' as u32) + 10,
        '0' <= c && c <= '9' ==> digit_value(c) == (c as u32) - ('0' as u32),
{
}

/// Every character of `s` is a digit of `base`.
pub open spec fn all_digits(s: Seq<char>, base: nat) -> bool {
    forall|i: int| 0 <= i < s.len() ==> is_digit(#[trigger] s[i], base)
}

/// The number that the digits `s` denote in `base`.
pub open spec fn radix_value(s: Seq<char>, base: nat) -> nat
    decreases s.len(),
{
    if s.len() == 0 {
        0
    } else {
        radix_value(s.drop_last(), base) * base + digit_value(s.last())
    }
}

/// The value of a non-empty run of digits that does not exceed `limit`.
pub open spec fn magnitude(s: Seq<char>, base: nat, limit: nat) -> Option<nat> {
    if s.len() > 0 && all_digits(s, base) && radix_value(s, base) <= limit {
        Some(radix_value(s, base))
    } else {
        None
    }
}

/// `s` without one leading `+`, if it has one.
pub open spec fn skip_plus(s: Seq<char>) -> Seq<char> {
    if s.len() > 0 && s[0] == '+' {
        s.drop_first()
    } else {
        s
    }
}

/// `str::parse::<u8>`: an optional `+` and decimal digits, at most 255.
pub open spec fn parse_u8_spec(s: Seq<char>) -> Option<u8> {
    match magnitude(skip_plus(s), 10, 255) {
        Some(v) => Some(v as u8),
        None => None,
    }
}

/// `str::parse::<i64>`: an optional sign and decimal digits, in range.
pub open spec fn parse_i64_spec(s: Seq<char>) -> Option<i64> {
    if s.len() > 0 && s[0] == '-' {
        match magnitude(s.drop_first(), 10, 0x8000_0000_0000_0000) {
            Some(v) => Some((-v) as i64),
            None => None,
        }
    } else {
        match magnitude(skip_plus(s), 10, 0x7fff_ffff_ffff_ffff) {
            Some(v) => Some(v as i64),
            None => None,
        }
    }
}

/// `u64::from_str_radix(s, 16)`: an optional `+` and hexadecimal digits,
/// in range.
pub open spec fn parse_hex_spec(s: Seq<char>) -> Option<u64> {
    match magnitude(skip_plus(s), 16, 0xffff_ffff_ffff_ffff) {
        Some(v) => Some(v as u64),
        None => None,
    }
}

/// A longer run of digits never denotes less than its prefix.
pub proof fn lemma_radix_value_prefix(s: Seq<char>, base: nat, k: int)
    requires
        base >= 1,
        0 <= k <= s.len(),
    ensures
        radix_value(s.take(k), base) <= radix_value(s, base),
    decreases s.len(),
{
    if k < s.len() {
        lemma_radix_value_prefix(s.drop_last(), base, k);
        assert(s.drop_last().take(k) =~= s.take(k));
        let v = radix_value(s.drop_last(), base);
        assert(v <= v * base) by (nonlinear_arith)
            requires
                base >= 1,
        ;
    } else {
        assert(s.take(k) =~= s);
    }
}

/// Whether `c` is a digit of `base` (10 or 16; letters in either case).
pub fn is_digit_exec(c: char, base: u64) -> (b: bool)
    ensures
        b == is_digit(c, base as nat),
{
    let u = c as u32;
    if base == 10 {
        48 <= u && u <= 57
    } else {
        (48 <= u && u <= 57) || (97 <= u && u <= 102) || (65 <= u && u <= 70)
    }
}

/// The value of the digit `c` (0 to 15).
pub fn digit_value_exec(c: char) -> (d: u64)
    ensures
        d == digit_value(c),
        d < 16,
{
    let u = c as u32;
    if 48 <= u && u <= 57 {
        (u - 48) as u64
    } else if 97 <= u && u <= 102 {
        (u - 87) as u64
    } else if 65 <= u && u <= 70 {
        (u - 55) as u64
    } else {
        0
    }
}

/// The value of the digits `s[lo..]` in `base`, if they are a non-empty run
/// of digits whose value is at most `limit`.
pub fn parse_magnitude(s: &Vec<char>, lo: usize, base: u64, limit: u64) -> (r: Option<u64>)
    requires
        lo <= s@.len(),
        base == 10 || base == 16,
    ensures
        match r {
            Some(v) => magnitude(s@.skip(lo as int), base as nat, limit as nat) == Some(v as nat),
            None => magnitude(s@.skip(lo as int), base as nat, limit as nat) is None,
        },
{
    let ghost t = s@.skip(lo as int);
    let mut acc: u64 = 0;
    let mut i: usize = lo;
    assert(t.take(0) =~= Seq::<char>::empty());
    while i < s.len()
        invariant
            lo <= i <= s@.len(),
            t == s@.skip(lo as int),
            base == 10 || base == 16,
            acc as nat == radix_value(t.take(i - lo), base as nat),
            acc <= limit,
            all_digits(t.take(i - lo), base as nat),
        decreases s@.len() - i,
    {
        let c = s[i];
        assert(t[i - lo] == c);
        if !is_digit_exec(c, base) {
            assert(!all_digits(t, base as nat));
            return None;
        }
        let d = digit_value_exec(c);
        assert(t.take(i + 1 - lo).drop_last() =~= t.take(i - lo));
        assert(t.take(i + 1 - lo).last() == c);
        if d > limit || acc > (limit - d) / base {
            proof {
                assert(acc * base + d > limit) by (nonlinear_arith)
                    requires
                        d > limit || acc > (limit - d) as int / base as int,
                        base >= 2,
                ;
                if all_digits(t, base as nat) {
                    lemma_radix_value_prefix(t, base as nat, i + 1 - lo);
                }
            }
            return None;
        }
        assert(acc * base + d <= limit) by (nonlinear_arith)
            requires
                d <= limit,
                acc <= (limit - d) as int / base as int,
                base >= 2,
        ;
        acc = acc * base + d;
        i = i + 1;
        assert forall|j: int| 0 <= j < i - lo implies is_digit(#[trigger] t.take(i - lo)[j], base as nat) by {
            if j < i - 1 - lo {
                assert(t.take(i - 1 - lo)[j] == t.take(i - lo)[j]);
            }
        }
    }
    assert(t.take(i - lo) =~= t);
    if i == lo {
        None
    } else {
        Some(acc)
    }
}

/// `str::parse::<u8>` on characters.
pub fn parse_u8(s: &Vec<char>) -> (r: Option<u8>)
    ensures
        r == parse_u8_spec(s@),
{
    let lo: usize = if s.len() > 0 && s[0] == '+' { 1 } else { 0 };
    assert(s@.skip(lo as int) =~= skip_plus(s@));
    match parse_magnitude(s, lo, 10, 255) {
        Some(v) => Some(v as u8),
        None => None,
    }
}

/// `str::parse::<i64>` on characters.
pub fn parse_i64(s: &Vec<char>) -> (r: Option<i64>)
    ensures
        r == parse_i64_spec(s@),
{
    if s.len() > 0 && s[0] == '-' {
        assert(s@.skip(1) =~= s@.drop_first());
        match parse_magnitude(s, 1, 10, 0x8000_0000_0000_0000) {
            Some(v) => Some((0i128 - v as i128) as i64),
            None => None,
        }
    } else {
        let lo: usize = if s.len() > 0 && s[0] == '+' { 1 } else { 0 };
        assert(s@.skip(lo as int) =~= skip_plus(s@));
        match parse_magnitude(s, lo, 10, 0x7fff_ffff_ffff_ffff) {
            Some(v) => Some(v as i64),
            None => None,
        }
    }
}

/// `u64::from_str_radix(s, 16)` on characters.
pub fn parse_hex(s: &Vec<char>) -> (r: Option<u64>)
    ensures
        r == parse_hex_spec(s@),
{
    let lo: usize = if s.len() > 0 && s[0] == '+' { 1 } else { 0 };
    assert(s@.skip(lo as int) =~= skip_plus(s@));
    parse_magnitude(s, lo, 16, 0xffff_ffff_ffff_ffff)
}


// ---------------------------------------------------------------------------
// More searching, lines and case
// ---------------------------------------------------------------------------

/// What `index_of` finds is the first position of `c`.
pub proof fn lemma_index_of_found(s: Seq<char>, c: char)
    ensures
        match index_of(s, c) {
            Some(i) => 0 <= i < s.len() && s[i] == c && forall|j: int| 0 <= j < i ==> s[j] != c,
            None => forall|j: int| 0 <= j < s.len() ==> s[j] != c,
        },
    decreases s.len(),
{
    if s.len() > 0 {
        lemma_index_of_found(s.drop_first(), c);
        if s[0] != c {
            match index_of(s.drop_first(), c) {
                Some(i) => {
                    assert forall|j: int| 0 <= j < i + 1 implies s[j] != c by {
                        if j > 0 {
                            assert(s[j] == s.drop_first()[j - 1]);
                        }
                    }
                },
                None => {
                    assert forall|j: int| 0 <= j < s.len() implies s[j] != c by {
                        if j > 0 {
                            assert(s[j] == s.drop_first()[j - 1]);
                        }
                    }
                },
            }
        }
    }
}

/// What `index_of_ws` finds is the first whitespace position.
pub proof fn lemma_index_of_ws_found(s: Seq<char>)
    ensures
        match index_of_ws(s) {
            Some(i) => 0 <= i < s.len() && is_ws(s[i]),
            None => true,
        },
    decreases s.len(),
{
    if s.len() > 0 {
        lemma_index_of_ws_found(s.drop_first());
    }
}

proof fn lemma_trim_start_len(s: Seq<char>)
    ensures
        trim_start(s).len() <= s.len(),
    decreases s.len(),
{
    if s.len() > 0 {
        lemma_trim_start_len(s.drop_first());
    }
}

proof fn lemma_trim_end_len(s: Seq<char>)
    ensures
        trim_end(s).len() <= s.len(),
    decreases s.len(),
{
    if s.len() > 0 {
        lemma_trim_end_len(s.drop_last());
    }
}

/// Trimming never lengthens.
pub proof fn lemma_trim_len(s: Seq<char>)
    ensures
        trim(s).len() <= s.len(),
{
    lemma_trim_start_len(s);
    lemma_trim_end_len(trim_start(s));
}

/// The first index of `c` in `s` at or after `lo`.
pub fn find_char_from(s: &Vec<char>, c: char, lo: usize) -> (r: Option<usize>)
    requires
        lo <= s@.len(),
    ensures
        match r {
            Some(i) => lo <= i < s@.len() && index_of(s@.skip(lo as int), c) == Some(i - lo),
            None => index_of(s@.skip(lo as int), c) is None,
        },
{
    let ghost t = s@.skip(lo as int);
    let mut i: usize = lo;
    while i < s.len()
        invariant
            lo <= i <= s@.len(),
            t == s@.skip(lo as int),
            forall|j: int| 0 <= j < i - lo ==> t[j] != c,
        decreases s@.len() - i,
    {
        if s[i] == c {
            proof {
                assert(t[i - lo] == c);
                lemma_index_of(t, c, i - lo);
            }
            return Some(i);
        }
        assert(t[i - lo] == s@[i as int]);
        i = i + 1;
    }
    proof {
        lemma_index_of(t, c, i - lo);
    }
    None
}

/// A line without one trailing carriage return.
pub open spec fn strip_cr(l: Seq<char>) -> Seq<char> {
    if l.len() > 0 && l.last() == '\r' {
        l.drop_last()
    } else {
        l
    }
}

/// The lines of `s` (`str::lines`): split at `\n`, a `\r` before the `\n`
/// removed, no final empty line.
pub open spec fn lines(s: Seq<char>) -> Seq<Seq<char>>
    decreases s.len(),
{
    if s.len() == 0 {
        Seq::empty()
    } else {
        match index_of(s, '\n') {
            None => seq![s],
            Some(i) => {
                proof {
                    lemma_index_of_found(s, '\n');
                }
                seq![strip_cr(s.take(i))] + lines(s.skip(i + 1))
            },
        }
    }
}

/// Lines as mathematical values.
pub open spec fn lines_view(v: Seq<Vec<char>>) -> Seq<Seq<char>> {
    v.map_values(|l: Vec<char>| l@)
}

/// Splits `s` into its lines.
pub fn split_lines(s: &Vec<char>) -> (r: Vec<Vec<char>>)
    ensures
        lines_view(r@) == lines(s@),
{
    let mut out: Vec<Vec<char>> = Vec::new();
    let mut start: usize = 0;
    assert(s@.skip(0) =~= s@);
    while start < s.len()
        invariant
            start <= s@.len(),
            lines(s@) == lines_view(out@) + lines(s@.skip(start as int)),
        decreases s@.len() - start,
    {
        let ghost rest = s@.skip(start as int);
        match find_char_from(s, '\n', start) {
            Some(j) => {
                let mut line = subvec(s, start, j);
                let ghost raw = line@;
                if line.len() > 0 && line[line.len() - 1] == '\r' {
                    line.pop();
                }
                assert(line@ =~= strip_cr(rest.take(j - start)));
                let ghost before = lines_view(out@);
                out.push(line);
                assert(lines_view(out@) =~= before.push(strip_cr(rest.take(j - start))));
                assert(rest.skip(j - start + 1) =~= s@.skip(j + 1));
                assert(lines(rest) == seq![strip_cr(rest.take(j - start))] + lines(
                    rest.skip(j - start + 1),
                ));
                assert(lines_view(out@) + lines(s@.skip(j + 1)) =~= before + lines(rest));
                start = j + 1;
            },
            None => {
                let line = subvec(s, start, s.len());
                assert(line@ =~= rest);
                let ghost before = lines_view(out@);
                out.push(line);
                assert(lines_view(out@) =~= before.push(rest));
                assert(lines(rest) == seq![rest]);
                assert(s@.skip(s@.len() as int) =~= Seq::<char>::empty());
                assert(lines_view(out@) + lines(s@.skip(s@.len() as int)) =~= before + lines(rest));
                start = s.len();
            },
        }
    }
    assert(s@.skip(start as int) =~= Seq::<char>::empty());
    assert(lines_view(out@) + Seq::<Seq<char>>::empty() =~= lines_view(out@));
    out
}

/// ASCII upper-case letters mapped to lower case; other characters kept.
pub open spec fn ascii_lower(c: char) -> char {
    if 'A' <= c && c <= 'Z' {
        ((c as u32) + 32) as char
    } else {
        c
    }
}

/// `str::to_ascii_lowercase`.
pub open spec fn lower(s: Seq<char>) -> Seq<char> {
    s.map_values(|c: char| ascii_lower(c))
}

/// ASCII letters of `s` in lower case.
pub fn to_lower(s: &Vec<char>) -> (r: Vec<char>)
    ensures
        r@ == lower(s@),
{
    let mut r: Vec<char> = Vec::new();
    let mut i: usize = 0;
    while i < s.len()
        invariant
            i <= s@.len(),
            r@ == lower(s@.take(i as int)),
        decreases s@.len() - i,
    {
        let c = s[i];
        let l = if 'A' <= c && c <= 'Z' {
            ((c as u32) + 32) as u8 as char
        } else {
            c
        };
        r.push(l);
        i = i + 1;
        assert(r@ =~= lower(s@.take(i as int)));
    }
    assert(s@.take(i as int) =~= s@);
    r
}

/// Whether the characters of `v` are those of `t`.
pub fn chars_eq(v: &Vec<char>, t: &str) -> (b: bool)
    ensures
        b == (v@ == t@),
{
    let w = str_chars(t);
    if v.len() != w.len() {
        return false;
    }
    let mut i: usize = 0;
    while i < v.len()
        invariant
            i <= v@.len(),
            v@.len() == w@.len(),
            w@ == t@,
            forall|j: int| 0 <= j < i ==> v@[j] == w@[j],
        decreases v@.len() - i,
    {
        if v[i] != w[i] {
            assert(v@[i as int] != w@[i as int]);
            return false;
        }
        i = i + 1;
    }
    assert(v@ =~= w@);
    true
}

/// A string of `prefix`, the characters of `tok` and `suffix`.
pub fn quoted(prefix: &str, tok: &Vec<char>, suffix: &str) -> (r: String)
    ensures
        r@ == prefix@ + tok@ + suffix@,
{
    let mut r = string_of(prefix);
    push_chars(&mut r, tok);
    push_str(&mut r, suffix);
    r
}


/// Whether two character vectors hold the same characters.
pub fn same_chars(a: &Vec<char>, b: &Vec<char>) -> (r: bool)
    ensures
        r == (a@ == b@),
{
    if a.len() != b.len() {
        return false;
    }
    let mut i: usize = 0;
    while i < a.len()
        invariant
            i <= a@.len(),
            a@.len() == b@.len(),
            forall|j: int| 0 <= j < i ==> a@[j] == b@[j],
        decreases a@.len() - i,
    {
        if a[i] != b[i] {
            assert(a@[i as int] != b@[i as int]);
            return false;
        }
        i = i + 1;
    }
    assert(a@ =~= b@);
    true
}


/// Bytes rendered as two hex digits each, separated by single spaces.
pub open spec fn join_hex(bs: Seq<u8>) -> Seq<char>
    decreases bs.len(),
{
    if bs.len() == 0 {
        Seq::empty()
    } else if bs.len() == 1 {
        hex2(bs[0])
    } else {
        join_hex(bs.drop_last()) + seq![' '] + hex2(bs.last())
    }
}


}
