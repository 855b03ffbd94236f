//! Character-sequence utilities that the parsers and emitters share.
//!
//! Text is held as `Vec<char>`; every function states its result over the
//! `Seq<char>` view.
use vstd::prelude::*;

use crate::std_calls::push_char;

verus! {

// ---------------------------------------------------------------------------
// Specifications
// ---------------------------------------------------------------------------

/// The Unicode `White_Space` property, which `char::is_whitespace` tests.
pub open spec fn is_ws_spec(c: char) -> bool {
    ||| c == ' '
    ||| ('\t' <= c && c <= '\r')
    ||| c == '\u{85}'
    ||| c == '\u{a0}'
    ||| c == '\u{1680}'
    ||| ('\u{2000}' <= c && c <= '\u{200a}')
    ||| c == '\u{2028}'
    ||| c == '\u{2029}'
    ||| c == '\u{202f}'
    ||| c == '\u{205f}'
    ||| c == '\u{3000}'
}

pub open spec fn is_digit_spec(c: char) -> bool {
    '0' <= c && c <= '9'
}

/// `p` occurs in `s` at index `i`.
pub open spec fn occurs_at(s: Seq<char>, p: Seq<char>, i: int) -> bool {
    &&& 0 <= i
    &&& i + p.len() <= s.len()
    &&& s.subrange(i, i + p.len()) == p
}

pub open spec fn has_prefix(s: Seq<char>, p: Seq<char>) -> bool {
    occurs_at(s, p, 0)
}

pub open spec fn has_suffix(s: Seq<char>, p: Seq<char>) -> bool {
    p.len() <= s.len() && s.subrange(s.len() - p.len(), s.len() as int) == p
}

pub open spec fn contains_spec(s: Seq<char>, p: Seq<char>) -> bool {
    exists|i: int| occurs_at(s, p, i)
}

/// `s` without its leading whitespace.
pub open spec fn trim_start_spec(s: Seq<char>) -> Seq<char>
    decreases s.len(),
{
    if s.len() > 0 && is_ws_spec(s[0]) {
        trim_start_spec(s.drop_first())
    } else {
        s
    }
}

/// `s` without its trailing whitespace.
pub open spec fn trim_end_spec(s: Seq<char>) -> Seq<char>
    decreases s.len(),
{
    if s.len() > 0 && is_ws_spec(s.last()) {
        trim_end_spec(s.drop_last())
    } else {
        s
    }
}

pub open spec fn trim_spec(s: Seq<char>) -> Seq<char> {
    trim_end_spec(trim_start_spec(s))
}

pub open spec fn all_ws(s: Seq<char>) -> bool {
    forall|i: int| 0 <= i < s.len() ==> is_ws_spec(#[trigger] s[i])
}

/// Every character of `s` is `c`.
pub open spec fn all_eq_spec(s: Seq<char>, c: char) -> bool {
    forall|i: int| 0 <= i < s.len() ==> #[trigger] s[i] == c
}

/// The number of leading characters of `s` equal to `c`.
pub open spec fn leading_spec(s: Seq<char>, c: char) -> nat
    decreases s.len(),
{
    if s.len() > 0 && s[0] == c {
        1 + leading_spec(s.drop_first(), c)
    } else {
        0
    }
}

pub open spec fn ascii_lower_char(c: char) -> char {
    if 'A' <= c && c <= 'Z' {
        ((c as u32) + 32) as char
    } else {
        c
    }
}

pub open spec fn ascii_lower_spec(s: Seq<char>) -> Seq<char> {
    s.map_values(|c: char| ascii_lower_char(c))
}

pub open spec fn digit_char(d: nat) -> char {
    if d == 0 {
        '0'
    } else if d == 1 {
        '1'
    } else if d == 2 {
        '2'
    } else if d == 3 {
        '3'
    } else if d == 4 {
        '4'
    } else if d == 5 {
        '5'
    } else if d == 6 {
        '6'
    } else if d == 7 {
        '7'
    } else if d == 8 {
        '8'
    } else {
        '9'
    }
}

/// The decimal digits of `n`, without leading zeros.
pub open spec fn decimal(n: nat) -> Seq<char>
    decreases n,
{
    if n < 10 {
        seq![digit_char(n)]
    } else {
        decimal(n / 10).push(digit_char(n % 10))
    }
}

/// The digit character of `d` is a digit whose value is `d`.
pub proof fn lemma_digit_char(d: nat)
    requires
        d < 10,
    ensures
        is_digit_spec(digit_char(d)),
        digit_value(digit_char(d)) == d,
{
    assert(('0' as u32) == 48u32);
    assert(('1' as u32) == 49u32);
    assert(('2' as u32) == 50u32);
    assert(('3' as u32) == 51u32);
    assert(('4' as u32) == 52u32);
    assert(('5' as u32) == 53u32);
    assert(('6' as u32) == 54u32);
    assert(('7' as u32) == 55u32);
    assert(('8' as u32) == 56u32);
    assert(('9' as u32) == 57u32);
}

/// The decimal digits of `n` are digits, and their value is `n`.
pub proof fn lemma_decimal_value(n: nat)
    ensures
        decimal(n).len() >= 1,
        all_digits(decimal(n)),
        digits_value(decimal(n)) == n,
    decreases n,
{
    lemma_digit_char(n % 10);
    if n < 10 {
        let d = decimal(n);
        assert(d =~= seq![digit_char(n)]);
        assert(d.drop_last() =~= seq![]);
        assert(digits_value(d.drop_last()) == 0);
        assert(d.last() == digit_char(n));
        assert(digits_value(d) == digit_value(digit_char(n)));
    } else {
        lemma_decimal_value(n / 10);
        let d = decimal(n);
        assert(d.drop_last() =~= decimal(n / 10));
        assert(d.last() == digit_char(n % 10));
        assert(n == (n / 10) * 10 + n % 10) by (nonlinear_arith);
        assert(digits_value(d) == digits_value(decimal(n / 10)) * 10 + digit_value(digit_char(n % 10)));
        assert forall|i: int| 0 <= i < d.len() implies is_digit_spec(#[trigger] d[i]) by {
            if i < d.len() - 1 {
                assert(d[i] == decimal(n / 10)[i]);
            }
        }
    }
}

pub open spec fn digit_value(c: char) -> nat {
    ((c as u32) - ('0' as u32)) as nat
}

pub open spec fn all_digits(s: Seq<char>) -> bool {
    forall|i: int| 0 <= i < s.len() ==> is_digit_spec(#[trigger] s[i])
}

/// The value of a string of decimal digits.
pub open spec fn digits_value(s: Seq<char>) -> nat
    decreases s.len(),
{
    if s.len() == 0 {
        0
    } else {
        digits_value(s.drop_last()) * 10 + digit_value(s.last())
    }
}

/// The digits that `str::parse` reads for an unsigned integer: an optional `+`
/// followed by at least one decimal digit.
pub open spec fn unsigned_digits(s: Seq<char>) -> Option<Seq<char>> {
    let d = if s.len() > 0 && s[0] == '+' {
        s.drop_first()
    } else {
        s
    };
    if d.len() > 0 && all_digits(d) {
        Some(d)
    } else {
        None
    }
}

/// What `str::parse` gives for an unsigned integer type whose maximum is `max`.
pub open spec fn parse_unsigned_spec(s: Seq<char>, max: nat) -> Option<nat> {
    match unsigned_digits(s) {
        Some(d) => if digits_value(d) <= max {
            Some(digits_value(d))
        } else {
            None
        },
        None => None,
    }
}

/// The number of bytes of the UTF-8 encoding of `c`.
pub open spec fn utf8_width(c: char) -> nat {
    if (c as u32) < 0x80 {
        1
    } else if (c as u32) < 0x800 {
        2
    } else if (c as u32) < 0x10000 {
        3
    } else {
        4
    }
}

/// The number of bytes of the UTF-8 encoding of `s` (what `str::len` gives).
pub open spec fn utf8_len(s: Seq<char>) -> nat
    decreases s.len(),
{
    if s.len() == 0 {
        0
    } else {
        utf8_len(s.drop_last()) + utf8_width(s.last())
    }
}

/// `n` copies of `c`.
pub open spec fn repeat_spec(c: char, n: nat) -> Seq<char> {
    Seq::new(n, |i: int| c)
}

/// The views of a vector of lines.
pub open spec fn views(v: Seq<Vec<char>>) -> Seq<Seq<char>> {
    v.map_values(|l: Vec<char>| l@)
}

/// `parts` joined with `sep` between consecutive parts.
pub open spec fn join_spec(parts: Seq<Seq<char>>, sep: Seq<char>) -> Seq<char>
    decreases parts.len(),
{
    if parts.len() == 0 {
        seq![]
    } else if parts.len() == 1 {
        parts[0]
    } else {
        join_spec(parts.drop_last(), sep) + sep + parts.last()
    }
}

/// The first index of `c` in `s`, if any.
pub open spec fn index_of_char(s: Seq<char>, c: char) -> Option<int>
    decreases s.len(),
{
    if s.len() == 0 {
        None
    } else if s[0] == c {
        Some(0)
    } else {
        match index_of_char(s.drop_first(), c) {
            Some(i) => Some(i + 1),
            None => None,
        }
    }
}

/// `s` without one trailing carriage return.
pub open spec fn strip_cr(s: Seq<char>) -> Seq<char> {
    if s.len() > 0 && s.last() == '\r' {
        s.drop_last()
    } else {
        s
    }
}

/// The lines of `s` as `str::lines` yields them: split at `\n`, one trailing
/// `\r` removed from each line, no empty line after a final `\n`.
pub open spec fn lines_spec(s: Seq<char>) -> Seq<Seq<char>>
    decreases s.len(),
{
    if s.len() == 0 {
        seq![]
    } else {
        match index_of_char(s, '\n') {
            Some(k) => if 0 <= k < s.len() {
                seq![strip_cr(s.subrange(0, k))] + lines_spec(s.subrange(k + 1, s.len() as int))
            } else {
                seq![]
            },
            None => seq![strip_cr(s)],
        }
    }
}

// ---------------------------------------------------------------------------
// Lemmas
// ---------------------------------------------------------------------------

pub proof fn lemma_index_of_char(s: Seq<char>, c: char)
    ensures
        match index_of_char(s, c) {
            Some(k) => 0 <= k < s.len() && s[k] == c && forall|j: int| 0 <= j < k ==> s[j] != c,
            None => forall|j: int| 0 <= j < s.len() ==> s[j] != c,
        },
    decreases s.len(),
{
    if s.len() > 0 && s[0] != c {
        lemma_index_of_char(s.drop_first(), c);
        match index_of_char(s.drop_first(), c) {
            Some(k) => {
                assert forall|j: int| 0 <= j < k + 1 implies s[j] != c by {
                    if j > 0 {
                        assert(s[j] == s.drop_first()[j - 1]);
                    }
                }
            },
            None => {
                assert forall|j: int| 0 <= j < s.len() implies s[j] != c by {
                    if j > 0 {
                        assert(s[j] == s.drop_first()[j - 1]);
                    }
                }
            },
        }
    }
}

/// The first index of `c` is characterized by the characters before it.
pub proof fn lemma_index_of_char_unique(s: Seq<char>, c: char, k: int)
    requires
        0 <= k <= s.len(),
        forall|j: int| 0 <= j < k ==> s[j] != c,
        k < s.len() ==> s[k] == c,
    ensures
        index_of_char(s, c) == (if k < s.len() { Some(k) } else { None::<int> }),
    decreases s.len(),
{
    lemma_index_of_char(s, c);
    if s.len() > 0 && k > 0 {
        assert forall|j: int| 0 <= j < k - 1 implies s.drop_first()[j] != c by {
            assert(s.drop_first()[j] == s[j + 1]);
        }
        lemma_index_of_char_unique(s.drop_first(), c, k - 1);
    }
}

pub proof fn lemma_trim_start_skip(s: Seq<char>, i: int)
    requires
        0 <= i < s.len(),
        is_ws_spec(s[i]),
    ensures
        trim_start_spec(s.subrange(i, s.len() as int)) == trim_start_spec(
            s.subrange(i + 1, s.len() as int),
        ),
{
    assert(s.subrange(i, s.len() as int).drop_first() =~= s.subrange(i + 1, s.len() as int));
}

pub proof fn lemma_trim_end_skip(s: Seq<char>, j: int)
    requires
        0 < j <= s.len(),
        is_ws_spec(s[j - 1]),
    ensures
        trim_end_spec(s.subrange(0, j)) == trim_end_spec(s.subrange(0, j - 1)),
{
    assert(s.subrange(0, j).drop_last() =~= s.subrange(0, j - 1));
}

pub proof fn lemma_trim_start_len(s: Seq<char>)
    ensures
        trim_start_spec(s).len() <= s.len(),
    decreases s.len(),
{
    if s.len() > 0 {
        lemma_trim_start_len(s.drop_first());
    }
}

pub proof fn lemma_trim_end_len(s: Seq<char>)
    ensures
        trim_end_spec(s).len() <= s.len(),
    decreases s.len(),
{
    if s.len() > 0 {
        lemma_trim_end_len(s.drop_last());
    }
}

/// Trimming never lengthens a sequence.
pub proof fn lemma_trim_len(s: Seq<char>)
    ensures
        trim_spec(s).len() <= s.len(),
{
    lemma_trim_start_len(s);
    lemma_trim_end_len(trim_start_spec(s));
}

pub proof fn lemma_digits_value_push(s: Seq<char>, c: char)
    ensures
        digits_value(s.push(c)) == digits_value(s) * 10 + digit_value(c),
{
    assert(s.push(c).drop_last() =~= s);
}

pub proof fn lemma_utf8_len_push(s: Seq<char>, c: char)
    ensures
        utf8_len(s.push(c)) == utf8_len(s) + utf8_width(c),
{
    assert(s.push(c).drop_last() =~= s);
}

pub proof fn lemma_join_push(parts: Seq<Seq<char>>, sep: Seq<char>, p: Seq<char>)
    ensures
        join_spec(parts.push(p), sep) == if parts.len() == 0 {
            p
        } else {
            join_spec(parts, sep) + sep + p
        },
{
    assert(parts.push(p).drop_last() =~= parts);
}

// ---------------------------------------------------------------------------
// Conversions
// ---------------------------------------------------------------------------

/// The characters of a string slice, in order.
pub fn chars_of(s: &str) -> (v: Vec<char>)
    ensures
        v@ == s@,
{
    let mut v: Vec<char> = Vec::new();
    for c in it: s.chars()
        invariant
            v@ == it.seq().take(it.index() as int),
    {
        v.push(c);
    }
    v
}

/// The characters of a `String`, in order.
pub fn chars_of_string(s: &String) -> (v: Vec<char>)
    ensures
        v@ == s@,
{
    chars_of(s.as_str())
}

/// A `String` holding exactly the characters of `v`.
pub fn string_of(v: &Vec<char>) -> (s: String)
    ensures
        s@ == v@,
{
    let mut s = String::new();
    let mut i: usize = 0;
    while i < v.len()
        invariant
            i <= v.len(),
            s@ == v@.subrange(0, i as int),
        decreases v.len() - i,
    {
        push_char(&mut s, v[i]);
        i += 1;
        assert(s@ =~= v@.subrange(0, i as int));
    }
    assert(v@.subrange(0, v.len() as int) =~= v@);
    s
}

/// Appends the characters of `s` to `out`.
pub fn push_str(out: &mut Vec<char>, s: &str)
    ensures
        final(out)@ == old(out)@ + s@,
{
    for c in it: s.chars()
        invariant
            out@ == old(out)@ + it.seq().take(it.index() as int),
    {
        out.push(c);
        assert(out@ =~= old(out)@ + it.seq().take(it.index() + 1));
    }
}

/// Appends the characters of `s` to `out`.
pub fn push_all(out: &mut Vec<char>, s: &Vec<char>)
    ensures
        final(out)@ == old(out)@ + s@,
{
    let mut i: usize = 0;
    while i < s.len()
        invariant
            i <= s.len(),
            out@ == old(out)@ + s@.subrange(0, i as int),
        decreases s.len() - i,
    {
        out.push(s[i]);
        i += 1;
        assert(out@ =~= old(out)@ + s@.subrange(0, i as int));
    }
    assert(s@.subrange(0, s.len() as int) =~= s@);
}

/// Appends the characters of the `String` `s` to `out`.
pub fn push_string(out: &mut Vec<char>, s: &String)
    ensures
        final(out)@ == old(out)@ + s@,
{
    let v = chars_of_string(s);
    push_all(out, &v);
}

/// The characters of `s` from index `a` up to (not including) `b`.
pub fn substring(s: &Vec<char>, a: usize, b: usize) -> (v: Vec<char>)
    requires
        a <= b <= s.len(),
    ensures
        v@ == s@.subrange(a as int, b as int),
{
    let mut v: Vec<char> = Vec::new();
    let mut i: usize = a;
    while i < b
        invariant
            a <= i <= b <= s.len(),
            v@ == s@.subrange(a as int, i as int),
        decreases b - i,
    {
        v.push(s[i]);
        i += 1;
        assert(v@ =~= s@.subrange(a as int, i as int));
    }
    v
}

/// The characters of `s` from index `a` to the end.
pub fn skip(s: &Vec<char>, a: usize) -> (v: Vec<char>)
    requires
        a <= s.len(),
    ensures
        v@ == s@.subrange(a as int, s.len() as int),
{
    substring(s, a, s.len())
}

/// A copy of `s`.
pub fn copy(s: &Vec<char>) -> (v: Vec<char>)
    ensures
        v@ == s@,
{
    let v = substring(s, 0, s.len());
    assert(s@.subrange(0, s.len() as int) =~= s@);
    v
}

/// A copy of a vector of lines.
pub fn copy_lines(s: &Vec<Vec<char>>) -> (v: Vec<Vec<char>>)
    ensures
        views(v@) == views(s@),
        v@.len() == s@.len(),
{
    let mut v: Vec<Vec<char>> = Vec::new();
    let mut i: usize = 0;
    while i < s.len()
        invariant
            i <= s.len(),
            v@.len() == i,
            forall|j: int| 0 <= j < i ==> #[trigger] v@[j]@ == s@[j]@,
        decreases s.len() - i,
    {
        v.push(copy(&s[i]));
        i += 1;
    }
    assert(views(v@) =~= views(s@));
    v
}

// ---------------------------------------------------------------------------
// Characters
// ---------------------------------------------------------------------------

/// Whether `c` has the Unicode `White_Space` property (`char::is_whitespace`).
pub fn is_ws(c: char) -> (b: bool)
    ensures
        b == is_ws_spec(c),
{
    c == ' ' || ('\t' <= c && c <= '\r') || c == '\u{85}' || c == '\u{a0}' || c == '\u{1680}' || (
    '\u{2000}' <= c && c <= '\u{200a}') || c == '\u{2028}' || c == '\u{2029}' || c == '\u{202f}'
        || c == '\u{205f}' || c == '\u{3000}'
}

/// Whether `c` is an ASCII decimal digit.
pub fn is_digit(c: char) -> (b: bool)
    ensures
        b == is_digit_spec(c),
{
    '0' <= c && c <= '9'
}

/// Whether `c` is an ASCII letter or digit.
pub fn is_ascii_alnum(c: char) -> (b: bool)
    ensures
        b == (is_digit_spec(c) || ('a' <= c && c <= 'z') || ('A' <= c && c <= 'Z')),
{
    is_digit(c) || ('a' <= c && c <= 'z') || ('A' <= c && c <= 'Z')
}

/// The ASCII lowercase of `c`.
pub fn lower_char(c: char) -> (r: char)
    ensures
        r == ascii_lower_char(c),
{
    if 'A' <= c && c <= 'Z' {
        let u: u8 = (c as u32 + 32) as u8;
        u as char
    } else {
        c
    }
}

/// The UTF-8 width of `c` in bytes.
pub fn char_width(c: char) -> (n: usize)
    ensures
        n == utf8_width(c),
{
    let u = c as u32;
    if u < 0x80 {
        1
    } else if u < 0x800 {
        2
    } else if u < 0x10000 {
        3
    } else {
        4
    }
}

// ---------------------------------------------------------------------------
// Queries
// ---------------------------------------------------------------------------

/// Whether `s` and `t` hold the same characters.
pub fn eq(s: &Vec<char>, t: &Vec<char>) -> (b: bool)
    ensures
        b == (s@ == t@),
{
    if s.len() != t.len() {
        return false;
    }
    let mut i: usize = 0;
    while i < s.len()
        invariant
            i <= s.len() == t.len(),
            s@.subrange(0, i as int) == t@.subrange(0, i as int),
        decreases s.len() - i,
    {
        if s[i] != t[i] {
            assert(s@.subrange(0, i as int + 1)[i as int] != t@.subrange(0, i as int + 1)[i as int]);
            assert(s@ != t@ ) by {
                if s@ == t@ {
                    assert(s@[i as int] == t@[i as int]);
                }
            }
            return false;
        }
        i += 1;
        assert(s@.subrange(0, i as int) =~= t@.subrange(0, i as int)) by {
            assert forall|j: int| 0 <= j < i implies s@[j] == t@[j] by {
                if j < i - 1 {
                    assert(s@.subrange(0, i - 1)[j] == t@.subrange(0, i - 1)[j]);
                }
            }
        }
    }
    assert(s@ =~= s@.subrange(0, s.len() as int));
    assert(t@ =~= t@.subrange(0, t.len() as int));
    true
}

/// Whether `s` holds exactly the characters of the literal `lit`.
pub fn eq_lit(s: &Vec<char>, lit: &str) -> (b: bool)
    ensures
        b == (s@ == lit@),
{
    let l = chars_of(lit);
    eq(s, &l)
}

/// Whether `p` occurs in `s` at index `i`.
pub fn matches_at(s: &Vec<char>, p: &Vec<char>, i: usize) -> (b: bool)
    ensures
        b == occurs_at(s@, p@, i as int),
{
    if p.len() > s.len() || i > s.len() - p.len() {
        return false;
    }
    let mut k: usize = 0;
    while k < p.len()
        invariant
            k <= p.len(),
            i + p.len() <= s.len(),
            forall|j: int| 0 <= j < k ==> s@[i + j] == p@[j],
        decreases p.len() - k,
    {
        if s[i + k] != p[k] {
            assert(s@.subrange(i as int, i + p.len())[k as int] == s@[i + k]);
            return false;
        }
        k += 1;
    }
    assert(s@.subrange(i as int, i + p.len()) =~= p@);
    true
}

/// Whether `s` begins with `p`.
pub fn starts_with(s: &Vec<char>, p: &Vec<char>) -> (b: bool)
    ensures
        b == has_prefix(s@, p@),
{
    matches_at(s, p, 0)
}

/// Whether `s` begins with the literal `lit`.
pub fn starts_with_lit(s: &Vec<char>, lit: &str) -> (b: bool)
    ensures
        b == has_prefix(s@, lit@),
{
    let l = chars_of(lit);
    starts_with(s, &l)
}

/// Whether `s` ends with `p`.
pub fn ends_with(s: &Vec<char>, p: &Vec<char>) -> (b: bool)
    ensures
        b == has_suffix(s@, p@),
{
    if p.len() > s.len() {
        return false;
    }
    matches_at(s, p, s.len() - p.len())
}

/// Whether `s` ends with the literal `lit`.
pub fn ends_with_lit(s: &Vec<char>, lit: &str) -> (b: bool)
    ensures
        b == has_suffix(s@, lit@),
{
    let l = chars_of(lit);
    ends_with(s, &l)
}

/// Whether the first character of `s` is `c`.
pub fn first_is(s: &Vec<char>, c: char) -> (b: bool)
    ensures
        b == (s@.len() > 0 && s@[0] == c),
{
    s.len() > 0 && s[0] == c
}

/// Whether the last character of `s` is `c`.
pub fn last_is(s: &Vec<char>, c: char) -> (b: bool)
    ensures
        b == (s@.len() > 0 && s@.last() == c),
{
    s.len() > 0 && s[s.len() - 1] == c
}

/// The first index at or after `from` where `p` occurs in `s`.
pub fn find_from(s: &Vec<char>, p: &Vec<char>, from: usize) -> (r: Option<usize>)
    ensures
        match r {
            Some(i) => from <= i && occurs_at(s@, p@, i as int) && i + p@.len() <= s.len()
                && forall|j: int| from <= j < i ==> !occurs_at(s@, p@, j),
            None => forall|j: int| from <= j ==> !occurs_at(s@, p@, j),
        },
{
    let mut i: usize = from;
    while i < s.len()
        invariant
            from <= i,
            forall|j: int| from <= j < i ==> !occurs_at(s@, p@, j),
        decreases s.len() - i,
    {
        if matches_at(s, p, i) {
            return Some(i);
        }
        i += 1;
    }
    if from <= s.len() && matches_at(s, p, s.len()) {
        return Some(s.len());
    }
    None
}

/// The first index where `p` occurs in `s` (what `str::find` gives, counted
/// in characters).
pub fn find(s: &Vec<char>, p: &Vec<char>) -> (r: Option<usize>)
    ensures
        match r {
            Some(i) => occurs_at(s@, p@, i as int) && i + p@.len() <= s.len() && forall|j: int|
                0 <= j < i ==> !occurs_at(s@, p@, j),
            None => forall|j: int| !occurs_at(s@, p@, j),
        },
{
    find_from(s, p, 0)
}

/// The first index where the literal `lit` occurs in `s`.
pub fn find_lit(s: &Vec<char>, lit: &str) -> (r: Option<usize>)
    ensures
        match r {
            Some(i) => occurs_at(s@, lit@, i as int) && i + lit@.len() <= s.len() && forall|j: int|
                0 <= j < i ==> !occurs_at(s@, lit@, j),
            None => forall|j: int| !occurs_at(s@, lit@, j),
        },
{
    let l = chars_of(lit);
    find(s, &l)
}

/// Whether the literal `lit` occurs in `s`.
pub fn contains_lit(s: &Vec<char>, lit: &str) -> (b: bool)
    ensures
        b == contains_spec(s@, lit@),
{
    let r = find_lit(s, lit);
    match r {
        Some(i) => {
            assert(occurs_at(s@, lit@, i as int));
            true
        },
        None => false,
    }
}

/// The last index where `p` occurs in `s`.
pub fn rfind(s: &Vec<char>, p: &Vec<char>) -> (r: Option<usize>)
    ensures
        match r {
            Some(i) => occurs_at(s@, p@, i as int) && i + p@.len() <= s.len() && forall|j: int|
                i < j ==> !occurs_at(s@, p@, j),
            None => forall|j: int| !occurs_at(s@, p@, j),
        },
{
    if p.len() > s.len() {
        return None;
    }
    let mut i: usize = s.len() - p.len();
    loop
        invariant
            i <= s.len() - p.len(),
            p.len() <= s.len(),
            forall|j: int| i < j ==> !occurs_at(s@, p@, j),
        decreases i,
    {
        if matches_at(s, p, i) {
            return Some(i);
        }
        if i == 0 {
            return None;
        }
        i -= 1;
    }
}

/// The first index of `c` in `s`.
pub fn find_char(s: &Vec<char>, c: char) -> (r: Option<usize>)
    ensures
        match r {
            Some(i) => i < s.len() && s@[i as int] == c && forall|j: int|
                0 <= j < i ==> s@[j] != c,
            None => forall|j: int| 0 <= j < s@.len() ==> s@[j] != c,
        },
        r == (match index_of_char(s@, c) {
            Some(k) => Some(k as usize),
            None => None::<usize>,
        }),
{
    let mut i: usize = 0;
    while i < s.len()
        invariant
            i <= s.len(),
            forall|j: int| 0 <= j < i ==> s@[j] != c,
        decreases s.len() - i,
    {
        if s[i] == c {
            proof {
                lemma_index_of_char_unique(s@, c, i as int);
            }
            return Some(i);
        }
        i += 1;
    }
    proof {
        lemma_index_of_char_unique(s@, c, s.len() as int);
    }
    None
}

/// The first index of a whitespace character in `s`.
pub fn find_ws(s: &Vec<char>) -> (r: Option<usize>)
    ensures
        match r {
            Some(i) => i < s.len() && is_ws_spec(s@[i as int]) && forall|j: int|
                0 <= j < i ==> !is_ws_spec(s@[j]),
            None => forall|j: int| 0 <= j < s@.len() ==> !is_ws_spec(s@[j]),
        },
{
    let mut i: usize = 0;
    while i < s.len()
        invariant
            i <= s.len(),
            forall|j: int| 0 <= j < i ==> !is_ws_spec(s@[j]),
        decreases s.len() - i,
    {
        if is_ws(s[i]) {
            return Some(i);
        }
        i += 1;
    }
    None
}

/// The first index at or after `from` of a character equal to `c`.
pub fn find_char_from(s: &Vec<char>, c: char, from: usize) -> (r: Option<usize>)
    ensures
        match r {
            Some(i) => from <= i < s.len() && s@[i as int] == c && forall|j: int|
                from <= j < i ==> s@[j] != c,
            None => forall|j: int| from <= j < s@.len() ==> s@[j] != c,
        },
{
    let mut i: usize = from;
    while i < s.len()
        invariant
            from <= i,
            forall|j: int| from <= j < i ==> s@[j] != c,
        decreases s.len() - i,
    {
        if s[i] == c {
            return Some(i);
        }
        i += 1;
    }
    None
}

/// Whether `c` occurs in `s`.
pub fn contains_char(s: &Vec<char>, c: char) -> (b: bool)
    ensures
        b == s@.contains(c),
{
    let r = find_char(s, c);
    match r {
        Some(i) => {
            assert(s@[i as int] == c);
            true
        },
        None => false,
    }
}

/// The number of leading characters of `s` equal to `c`.
pub fn count_leading(s: &Vec<char>, c: char) -> (n: usize)
    ensures
        n == leading_spec(s@, c),
        n <= s@.len(),
        forall|j: int| 0 <= j < n ==> s@[j] == c,
        n < s@.len() ==> s@[n as int] != c,
{
    let mut i: usize = 0;
    assert(s@.subrange(0, s@.len() as int) =~= s@);
    while i < s.len() && s[i] == c
        invariant
            i <= s.len(),
            forall|j: int| 0 <= j < i ==> s@[j] == c,
            leading_spec(s@, c) == i + leading_spec(s@.subrange(i as int, s@.len() as int), c),
        decreases s.len() - i,
    {
        assert(s@.subrange(i as int, s@.len() as int).drop_first() =~= s@.subrange(
            i + 1,
            s@.len() as int,
        ));
        i += 1;
    }
    i
}

/// Whether every character of `s` is `c`.
pub fn all_eq(s: &Vec<char>, c: char) -> (b: bool)
    ensures
        b == all_eq_spec(s@, c),
{
    let mut i: usize = 0;
    while i < s.len()
        invariant
            i <= s.len(),
            forall|j: int| 0 <= j < i ==> s@[j] == c,
        decreases s.len() - i,
    {
        if s[i] != c {
            return false;
        }
        i += 1;
    }
    true
}

/// Whether every character of `s` is whitespace.
pub fn is_blank(s: &Vec<char>) -> (b: bool)
    ensures
        b == all_ws(s@),
{
    let mut i: usize = 0;
    while i < s.len()
        invariant
            i <= s.len(),
            forall|j: int| 0 <= j < i ==> is_ws_spec(s@[j]),
        decreases s.len() - i,
    {
        if !is_ws(s[i]) {
            return false;
        }
        i += 1;
    }
    true
}

/// Whether every character of `s` is an ASCII digit.
pub fn is_all_digits(s: &Vec<char>) -> (b: bool)
    ensures
        b == all_digits(s@),
{
    let mut i: usize = 0;
    while i < s.len()
        invariant
            i <= s.len(),
            forall|j: int| 0 <= j < i ==> is_digit_spec(s@[j]),
        decreases s.len() - i,
    {
        if !is_digit(s[i]) {
            return false;
        }
        i += 1;
    }
    true
}

/// `utf8_len` never decreases as a sequence grows.
pub proof fn lemma_utf8_len_prefix(s: Seq<char>, i: int)
    requires
        0 <= i <= s.len(),
    ensures
        utf8_len(s.subrange(0, i)) <= utf8_len(s),
    decreases s.len() - i,
{
    if i < s.len() {
        lemma_utf8_len_prefix(s, i + 1);
        lemma_utf8_len_push(s.subrange(0, i), s[i]);
        assert(s.subrange(0, i).push(s[i]) =~= s.subrange(0, i + 1));
    } else {
        assert(s.subrange(0, i) =~= s);
    }
}

/// The number of bytes of the UTF-8 encoding of `s` (`str::len`), or
/// `usize::MAX` where that number does not fit.
pub fn byte_len(s: &Vec<char>) -> (n: usize)
    ensures
        n == (if utf8_len(s@) > usize::MAX {
            usize::MAX as nat
        } else {
            utf8_len(s@)
        }),
{
    let mut n: usize = 0;
    let mut i: usize = 0;
    while i < s.len()
        invariant
            i <= s.len(),
            n == (if utf8_len(s@.subrange(0, i as int)) > usize::MAX {
                usize::MAX as nat
            } else {
                utf8_len(s@.subrange(0, i as int))
            }),
        decreases s.len() - i,
    {
        proof {
            lemma_utf8_len_push(s@.subrange(0, i as int), s@[i as int]);
            assert(s@.subrange(0, i as int).push(s@[i as int]) =~= s@.subrange(0, i + 1));
        }
        let w = char_width(s[i]);
        if n > usize::MAX - w {
            n = usize::MAX;
        } else {
            n = n + w;
        }
        i += 1;
    }
    assert(s@.subrange(0, s.len() as int) =~= s@);
    n
}

// ---------------------------------------------------------------------------
// Transformations
// ---------------------------------------------------------------------------

/// The index of the first non-whitespace character of `s` (or its length).
pub fn trim_start_index(s: &Vec<char>) -> (k: usize)
    ensures
        k <= s@.len(),
        s@.subrange(k as int, s@.len() as int) == trim_start_spec(s@),
        forall|j: int| 0 <= j < k ==> is_ws_spec(s@[j]),
{
    let mut i: usize = 0;
    assert(s@.subrange(0, s@.len() as int) =~= s@);
    while i < s.len() && is_ws(s[i])
        invariant
            i <= s.len(),
            trim_start_spec(s@) == trim_start_spec(s@.subrange(i as int, s@.len() as int)),
            forall|j: int| 0 <= j < i ==> is_ws_spec(s@[j]),
        decreases s.len() - i,
    {
        proof {
            lemma_trim_start_skip(s@, i as int);
        }
        i += 1;
    }
    i
}

/// The index just after the last non-whitespace character of `s`.
pub fn trim_end_index(s: &Vec<char>) -> (k: usize)
    ensures
        k <= s@.len(),
        s@.subrange(0, k as int) == trim_end_spec(s@),
        forall|j: int| k <= j < s@.len() ==> is_ws_spec(s@[j]),
{
    let mut i: usize = s.len();
    assert(s@.subrange(0, s@.len() as int) =~= s@);
    while i > 0 && is_ws(s[i - 1])
        invariant
            i <= s.len(),
            trim_end_spec(s@) == trim_end_spec(s@.subrange(0, i as int)),
            forall|j: int| i <= j < s@.len() ==> is_ws_spec(s@[j]),
        decreases i,
    {
        proof {
            lemma_trim_end_skip(s@, i as int);
        }
        i -= 1;
    }
    i
}

/// `s` without leading whitespace (`str::trim_start`).
pub fn trim_start(s: &Vec<char>) -> (v: Vec<char>)
    ensures
        v@ == trim_start_spec(s@),
{
    let k = trim_start_index(s);
    skip(s, k)
}

/// `s` without trailing whitespace (`str::trim_end`).
pub fn trim_end(s: &Vec<char>) -> (v: Vec<char>)
    ensures
        v@ == trim_end_spec(s@),
{
    let k = trim_end_index(s);
    substring(s, 0, k)
}

/// `s` without leading and trailing whitespace (`str::trim`).
pub fn trim(s: &Vec<char>) -> (v: Vec<char>)
    ensures
        v@ == trim_spec(s@),
        v@.len() <= s@.len(),
{
    proof {
        lemma_trim_len(s@);
    }
    let t = trim_start(s);
    trim_end(&t)
}

/// The ASCII lowercase of `s` (`str::to_ascii_lowercase`).
pub fn to_ascii_lower(s: &Vec<char>) -> (v: Vec<char>)
    ensures
        v@ == ascii_lower_spec(s@),
{
    let mut v: Vec<char> = Vec::new();
    let mut i: usize = 0;
    while i < s.len()
        invariant
            i <= s.len(),
            v@ == ascii_lower_spec(s@.subrange(0, i as int)),
        decreases s.len() - i,
    {
        v.push(lower_char(s[i]));
        i += 1;
        assert(v@ =~= ascii_lower_spec(s@.subrange(0, i as int)));
    }
    assert(s@.subrange(0, s.len() as int) =~= s@);
    v
}

/// Whether `s` equals the literal `lit` ignoring ASCII case.
pub fn eq_ignore_case_lit(s: &Vec<char>, lit: &str) -> (b: bool)
    ensures
        b == (ascii_lower_spec(s@) == ascii_lower_spec(lit@)),
{
    let a = to_ascii_lower(s);
    let l = chars_of(lit);
    let b = to_ascii_lower(&l);
    eq(&a, &b)
}

/// `n` copies of `c`.
pub fn repeat(c: char, n: usize) -> (v: Vec<char>)
    ensures
        v@ == repeat_spec(c, n as nat),
{
    let mut v: Vec<char> = Vec::new();
    let mut i: usize = 0;
    while i < n
        invariant
            i <= n,
            v@ == repeat_spec(c, i as nat),
        decreases n - i,
    {
        v.push(c);
        i += 1;
        assert(v@ =~= repeat_spec(c, i as nat));
    }
    v
}

/// `n` copies of `s`, one after another.
pub open spec fn repeat_seq(s: Seq<char>, n: nat) -> Seq<char>
    decreases n,
{
    if n == 0 {
        seq![]
    } else {
        repeat_seq(s, (n - 1) as nat) + s
    }
}

/// `n` copies of the literal `lit` (`str::repeat`).
pub fn repeat_lit(lit: &str, n: usize) -> (v: Vec<char>)
    ensures
        v@ == repeat_seq(lit@, n as nat),
        v@.len() == lit@.len() * n,
{
    let l = chars_of(lit);
    let mut v: Vec<char> = Vec::new();
    let mut i: usize = 0;
    while i < n
        invariant
            i <= n,
            l@ == lit@,
            v@ == repeat_seq(lit@, i as nat),
            v@.len() == l@.len() * i,
        decreases n - i,
    {
        push_all(&mut v, &l);
        assert(v@.len() == l@.len() * i + l@.len());
        assert(l@.len() * i + l@.len() == l@.len() * (i + 1)) by (nonlinear_arith);
        i += 1;
    }
    v
}

/// The digit character for `d < 10`.
pub fn digit(d: u64) -> (c: char)
    requires
        d < 10,
    ensures
        c == digit_char(d as nat),
{
    if d == 0 {
        '0'
    } else if d == 1 {
        '1'
    } else if d == 2 {
        '2'
    } else if d == 3 {
        '3'
    } else if d == 4 {
        '4'
    } else if d == 5 {
        '5'
    } else if d == 6 {
        '6'
    } else if d == 7 {
        '7'
    } else if d == 8 {
        '8'
    } else {
        '9'
    }
}

/// The decimal representation of `n` (what `to_string` gives for integers).
pub fn decimal_chars(n: u64) -> (v: Vec<char>)
    ensures
        v@ == decimal(n as nat),
    decreases n,
{
    if n < 10 {
        let mut v: Vec<char> = Vec::new();
        v.push(digit(n));
        assert(v@ =~= seq![digit_char(n as nat)]);
        v
    } else {
        let mut v = decimal_chars(n / 10);
        v.push(digit(n % 10));
        v
    }
}

/// Appends the decimal representation of `n` to `out`.
pub fn push_decimal(out: &mut Vec<char>, n: u64)
    ensures
        final(out)@ == old(out)@ + decimal(n as nat),
{
    let d = decimal_chars(n);
    push_all(out, &d);
}

/// Parses an unsigned decimal number no larger than `max`, as `str::parse`
/// does for the unsigned integer type whose maximum is `max`.
pub fn parse_unsigned(s: &Vec<char>, max: u64) -> (r: Option<u64>)
    ensures
        match r {
            Some(v) => parse_unsigned_spec(s@, max as nat) == Some(v as nat),
            None => parse_unsigned_spec(s@, max as nat) is None,
        },
{
    let start: usize = if s.len() > 0 && s[0] == '+' {
        1
    } else {
        0
    };
    let ghost d = if s@.len() > 0 && s@[0] == '+' {
        s@.drop_first()
    } else {
        s@
    };
    assert(d =~= s@.subrange(start as int, s@.len() as int));
    if start >= s.len() {
        assert(d.len() == 0);
        return None;
    }
    let mut v: u64 = 0;
    let mut i: usize = start;
    let mut overflow = false;
    while i < s.len()
        invariant
            start <= i <= s.len(),
            d == s@.subrange(start as int, s@.len() as int),
            d == (if s@.len() > 0 && s@[0] == '+' {
                s@.drop_first()
            } else {
                s@
            }),
            all_digits(s@.subrange(start as int, i as int)),
            !overflow ==> v == digits_value(s@.subrange(start as int, i as int)) && v <= max,
            overflow ==> digits_value(s@.subrange(start as int, i as int)) > max,
        decreases s.len() - i,
    {
        let c = s[i];
        if !is_digit(c) {
            assert(d[i - start] == c);
            assert(!is_digit_spec(d[i - start]));
            assert(!all_digits(d));
            assert(unsigned_digits(s@) is None);
            return None;
        }
        proof {
            lemma_digits_value_push(s@.subrange(start as int, i as int), c);
            assert(s@.subrange(start as int, i as int).push(c) =~= s@.subrange(
                start as int,
                i + 1,
            ));
            assert(digits_value(s@.subrange(start as int, i as int)) * 10 >= digits_value(
                s@.subrange(start as int, i as int),
            ));
        }
        let dv: u64 = (c as u32 - '0' as u32) as u64;
        if !overflow {
            if dv > max || v > (max - dv) / 10 {
                assert(v * 10 + dv > max) by (nonlinear_arith)
                    requires
                        dv > max || v > (max - dv) / 10,
                ;
                overflow = true;
            } else {
                assert(v * 10 + dv <= max) by (nonlinear_arith)
                    requires
                        v <= (max - dv) / 10,
                        dv <= max,
                ;
                v = v * 10 + dv;
            }
        }
        i += 1;
    }
    if overflow {
        None
    } else {
        Some(v)
    }
}

// ---------------------------------------------------------------------------
// Splitting and joining
// ---------------------------------------------------------------------------

/// The lines of `s`, as `str::lines` yields them.
pub fn lines(s: &Vec<char>) -> (r: Vec<Vec<char>>)
    ensures
        views(r@) == lines_spec(s@),
{
    let mut r: Vec<Vec<char>> = Vec::new();
    let mut start: usize = 0;
    assert(s@.subrange(0, s@.len() as int) =~= s@);
    while start < s.len()
        invariant
            start <= s.len(),
            lines_spec(s@) == views(r@) + lines_spec(s@.subrange(start as int, s@.len() as int)),
        decreases s.len() - start,
    {
        let ghost rest = s@.subrange(start as int, s@.len() as int);
        let mut end: usize = start;
        while end < s.len() && s[end] != '\n'
            invariant
                start <= end <= s.len(),
                forall|j: int| start <= j < end ==> s@[j] != '\n',
            decreases s.len() - end,
        {
            end += 1;
        }
        proof {
            lemma_index_of_char_unique(rest, '\n', end - start);
            assert(rest.subrange(0, end - start) =~= s@.subrange(start as int, end as int));
        }
        let mut line_end = end;
        if line_end > start && s[line_end - 1] == '\r' {
            line_end -= 1;
        }
        let line = substring(s, start, line_end);
        assert(line@ == strip_cr(s@.subrange(start as int, end as int)));
        let ghost old_r = r@;
        r.push(line);
        assert(views(r@) =~= views(old_r).push(line@));
        if end < s.len() {
            assert(rest.subrange(end - start + 1, rest.len() as int) =~= s@.subrange(
                end + 1,
                s@.len() as int,
            ));
            start = end + 1;
        } else {
            assert(s@.subrange(s@.len() as int, s@.len() as int) =~= Seq::<char>::empty());
            start = end;
        }
        assert(lines_spec(s@) =~= views(r@) + lines_spec(
            s@.subrange(start as int, s@.len() as int),
        ));
    }
    assert(s@.subrange(start as int, s@.len() as int) =~= Seq::<char>::empty());
    assert(views(r@) + Seq::<Seq<char>>::empty() =~= views(r@));
    r
}

/// The lines of a string slice.
pub fn lines_of(s: &str) -> (r: Vec<Vec<char>>)
    ensures
        views(r@) == lines_spec(s@),
{
    let v = chars_of(s);
    lines(&v)
}

/// `parts` joined with `sep` (`[T]::join`).
pub fn join(parts: &Vec<Vec<char>>, sep: &str) -> (v: Vec<char>)
    ensures
        v@ == join_spec(views(parts@), sep@),
{
    let mut v: Vec<char> = Vec::new();
    let mut i: usize = 0;
    while i < parts.len()
        invariant
            i <= parts.len(),
            v@ == join_spec(views(parts@.subrange(0, i as int)), sep@),
        decreases parts.len() - i,
    {
        proof {
            lemma_join_push(views(parts@.subrange(0, i as int)), sep@, parts@[i as int]@);
            assert(views(parts@.subrange(0, i as int)).push(parts@[i as int]@) =~= views(
                parts@.subrange(0, i + 1),
            ));
        }
        if i > 0 {
            push_str(&mut v, sep);
        }
        push_all(&mut v, &parts[i]);
        i += 1;
    }
    assert(parts@.subrange(0, parts.len() as int) =~= parts@);
    v
}

/// The pieces of `s` between the occurrences of `c` (`str::split`).
pub open spec fn split_spec(s: Seq<char>, c: char) -> Seq<Seq<char>>
    decreases s.len(),
{
    if s.len() == 0 {
        seq![Seq::<char>::empty()]
    } else {
        let p = split_spec(s.drop_last(), c);
        if s.last() == c {
            p.push(Seq::<char>::empty())
        } else {
            p.update(p.len() - 1, p.last().push(s.last()))
        }
    }
}

proof fn lemma_split_spec_nonempty(s: Seq<char>, c: char)
    ensures
        split_spec(s, c).len() >= 1,
    decreases s.len(),
{
    if s.len() > 0 {
        lemma_split_spec_nonempty(s.drop_last(), c);
    }
}

/// Splits `s` at every `c` (`str::split` with a character pattern).
pub fn split_char(s: &Vec<char>, c: char) -> (r: Vec<Vec<char>>)
    ensures
        views(r@) == split_spec(s@, c),
        r@.len() >= 1,
        join_spec(views(r@), seq![c]) == s@,
        forall|i: int| 0 <= i < r@.len() ==> !(#[trigger] r@[i]@).contains(c),
{
    let mut r: Vec<Vec<char>> = Vec::new();
    let mut cur: Vec<char> = Vec::new();
    let mut i: usize = 0;
    while i < s.len()
        invariant
            i <= s.len(),
            join_spec(views(r@), seq![c]) + (if r@.len() == 0 {
                Seq::<char>::empty()
            } else {
                seq![c]
            }) + cur@ == s@.subrange(0, i as int),
            forall|j: int| 0 <= j < r@.len() ==> !(#[trigger] r@[j]@).contains(c),
            !cur@.contains(c),
            views(r@).push(cur@) == split_spec(s@.subrange(0, i as int), c),
        decreases s.len() - i,
    {
        let ghost old_r = r@;
        let ghost old_cur = cur@;
        proof {
            assert(s@.subrange(0, i + 1).drop_last() =~= s@.subrange(0, i as int));
            lemma_split_spec_nonempty(s@.subrange(0, i as int), c);
        }
        if s[i] == c {
            proof {
                lemma_join_push(views(r@), seq![c], cur@);
            }
            r.push(cur);
            assert(views(r@) =~= views(old_r).push(old_cur));
            cur = Vec::new();
            assert(s@.subrange(0, i + 1) =~= s@.subrange(0, i as int).push(c));
            assert(views(r@).push(cur@) =~= split_spec(s@.subrange(0, i + 1), c));
        } else {
            cur.push(s[i]);
            assert(s@.subrange(0, i + 1) =~= s@.subrange(0, i as int).push(s@[i as int]));
            assert(views(r@).push(cur@) =~= split_spec(s@.subrange(0, i + 1), c));
            assert(!cur@.contains(c)) by {
                if cur@.contains(c) {
                    let k = choose|k: int| 0 <= k < cur@.len() && cur@[k] == c;
                    if k < old_cur.len() {
                        assert(old_cur[k] == c);
                    }
                }
            }
        }
        i += 1;
    }
    let ghost old_r = r@;
    proof {
        lemma_join_push(views(r@), seq![c], cur@);
    }
    r.push(cur);
    assert(views(r@) =~= views(old_r).push(r@.last()@));
    assert(s@.subrange(0, s.len() as int) =~= s@);
    r
}

/// Splits `s` at the first occurrence of the literal `lit` (`str::split_once`).
pub fn split_once_lit(s: &Vec<char>, lit: &str) -> (r: Option<(Vec<char>, Vec<char>)>)
    ensures
        match r {
            Some((a, b)) => exists|i: int|
                {
                    &&& occurs_at(s@, lit@, i)
                    &&& forall|j: int| 0 <= j < i ==> !occurs_at(s@, lit@, j)
                    &&& a@ == s@.subrange(0, i)
                    &&& b@ == s@.subrange(i + lit@.len(), s@.len() as int)
                },
            None => forall|j: int| !occurs_at(s@, lit@, j),
        },
{
    let l = chars_of(lit);
    let f = find(s, &l);
    match f {
        Some(i) => {
            assert(occurs_at(s@, l@, i as int));
            assert(i + l@.len() <= s@.len());
            assert(l.len() == l@.len());
            assert(s.len() == s@.len());
            let a = substring(s, 0, i);
            let b = skip(s, i + l.len());
            Some((a, b))
        },
        None => None,
    }
}

/// `s` without the prefix `lit`, if it has it (`str::strip_prefix`).
pub fn strip_prefix_lit(s: &Vec<char>, lit: &str) -> (r: Option<Vec<char>>)
    ensures
        match r {
            Some(v) => has_prefix(s@, lit@) && v@ == s@.subrange(
                lit@.len() as int,
                s@.len() as int,
            ),
            None => !has_prefix(s@, lit@),
        },
{
    let l = chars_of(lit);
    if starts_with(s, &l) {
        Some(skip(s, l.len()))
    } else {
        None
    }
}

/// `s` without the suffix `lit`, if it has it (`str::strip_suffix`).
pub fn strip_suffix_lit(s: &Vec<char>, lit: &str) -> (r: Option<Vec<char>>)
    ensures
        match r {
            Some(v) => has_suffix(s@, lit@) && v@ == s@.subrange(
                0,
                s@.len() - lit@.len(),
            ),
            None => !has_suffix(s@, lit@),
        },
{
    let l = chars_of(lit);
    if ends_with(s, &l) {
        Some(substring(s, 0, s.len() - l.len()))
    } else {
        None
    }
}

/// `s` with every leading copy of `lit` removed (`str::trim_start_matches`).
pub fn trim_start_matches_lit(s: &Vec<char>, lit: &str) -> (v: Vec<char>)
    ensures
        v@.len() <= s@.len(),
        exists|k: int| 0 <= k <= s@.len() && v@ == s@.subrange(k, s@.len() as int),
        lit@.len() > 0 ==> !has_prefix(v@, lit@),
{
    let l = chars_of(lit);
    if l.len() == 0 {
        let v = copy(s);
        assert(v@ == s@.subrange(0, s@.len() as int));
        return v;
    }
    let mut k: usize = 0;
    while k <= s.len() && matches_at(s, &l, k)
        invariant
            k <= s.len(),
            l@ == lit@,
            l@.len() > 0,
        decreases s.len() - k,
    {
        k = k + l.len();
    }
    let v = skip(s, k);
    assert(!has_prefix(v@, lit@)) by {
        if has_prefix(v@, lit@) {
            assert(v@.subrange(0, lit@.len() as int) =~= s@.subrange(k as int, k + lit@.len()));
        }
    }
    v
}

/// `s` with every trailing copy of `lit` removed (`str::trim_end_matches`).
pub fn trim_end_matches_lit(s: &Vec<char>, lit: &str) -> (v: Vec<char>)
    ensures
        v@.len() <= s@.len(),
        exists|k: int| 0 <= k <= s@.len() && v@ == s@.subrange(0, k),
        lit@.len() > 0 ==> !has_suffix(v@, lit@),
{
    let l = chars_of(lit);
    if l.len() == 0 {
        let v = copy(s);
        assert(v@ == s@.subrange(0, s@.len() as int));
        return v;
    }
    let mut k: usize = s.len();
    while k >= l.len() && matches_at(s, &l, k - l.len())
        invariant
            k <= s.len(),
            l@ == lit@,
            l@.len() > 0,
        decreases k,
    {
        k = k - l.len();
    }
    let v = substring(s, 0, k);
    assert(!has_suffix(v@, lit@)) by {
        if has_suffix(v@, lit@) {
            assert(v@.subrange(k - lit@.len(), k as int) =~= s@.subrange(
                k - lit@.len(),
                k as int,
            ));
        }
    }
    v
}

/// `s` with every trailing `c` removed.
pub open spec fn trim_end_char_spec(s: Seq<char>, c: char) -> Seq<char>
    decreases s.len(),
{
    if s.len() > 0 && s.last() == c {
        trim_end_char_spec(s.drop_last(), c)
    } else {
        s
    }
}

/// `s` with every trailing `c` removed (`str::trim_end_matches` with a char).
pub fn trim_end_char(s: &Vec<char>, c: char) -> (v: Vec<char>)
    ensures
        v@ == trim_end_char_spec(s@, c),
        exists|k: int| 0 <= k <= s@.len() && v@ == s@.subrange(0, k),
        !(v@.len() > 0 && v@.last() == c),
{
    let mut k: usize = s.len();
    assert(s@.subrange(0, k as int) =~= s@);
    while k > 0 && s[k - 1] == c
        invariant
            k <= s.len(),
            trim_end_char_spec(s@, c) == trim_end_char_spec(s@.subrange(0, k as int), c),
        decreases k,
    {
        assert(s@.subrange(0, k as int).drop_last() =~= s@.subrange(0, k - 1));
        k -= 1;
    }
    substring(s, 0, k)
}

/// `s` with every leading `c` removed (`str::trim_start_matches` with a char).
pub fn trim_start_char(s: &Vec<char>, c: char) -> (v: Vec<char>)
    ensures
        v@ == s@.subrange(leading_spec(s@, c) as int, s@.len() as int),
        exists|k: int| 0 <= k <= s@.len() && v@ == s@.subrange(k, s@.len() as int),
        !(v@.len() > 0 && v@[0] == c),
{
    let k = count_leading(s, c);
    skip(s, k)
}

/// `s` with every occurrence of `f` replaced by `t`, scanning left to right
/// without overlaps (`str::replace`).
pub open spec fn replace_spec(s: Seq<char>, f: Seq<char>, t: Seq<char>) -> Seq<char>
    decreases s.len(),
{
    if s.len() == 0 || f.len() == 0 {
        s
    } else if has_prefix(s, f) {
        t + replace_spec(s.skip(f.len() as int), f, t)
    } else {
        seq![s[0]] + replace_spec(s.skip(1), f, t)
    }
}

/// `s` with every `c` replaced by `t`.
pub open spec fn replace_char_spec(s: Seq<char>, c: char, t: Seq<char>) -> Seq<char>
    decreases s.len(),
{
    if s.len() == 0 {
        s
    } else {
        replace_char_spec(s.drop_last(), c, t) + (if s.last() == c {
            t
        } else {
            seq![s.last()]
        })
    }
}

/// `s` with every occurrence of `from` replaced by `to`, scanning left to
/// right without overlaps (`str::replace`), for a nonempty `from`.
pub fn replace_lit(s: &Vec<char>, from: &str, to: &str) -> (v: Vec<char>)
    requires
        from@.len() > 0,
    ensures
        v@ == replace_spec(s@, from@, to@),
        !contains_spec(s@, from@) ==> v@ == s@,
{
    let f = chars_of(from);
    let t = chars_of(to);
    let mut v: Vec<char> = Vec::new();
    let mut i: usize = 0;
    let ghost mut found = false;
    assert(s@.skip(0) =~= s@);
    assert(v@ + s@ =~= s@);
    while i < s.len()
        invariant
            i <= s.len(),
            f@ == from@,
            t@ == to@,
            f@.len() > 0,
            v@ + replace_spec(s@.skip(i as int), f@, t@) == replace_spec(s@, f@, t@),
            !found ==> v@ == s@.subrange(0, i as int),
            !contains_spec(s@, from@) ==> !found,
        decreases s.len() - i,
    {
        let ghost rest = s@.skip(i as int);
        if matches_at(s, &f, i) {
            proof {
                assert(rest.subrange(0, f@.len() as int) =~= s@.subrange(i as int, i + f@.len()));
                assert(has_prefix(rest, f@));
                assert(rest.skip(f@.len() as int) =~= s@.skip(i + f@.len()));
            }
            push_all(&mut v, &t);
            proof {
                found = true;
            }
            i = i + f.len();
        } else {
            proof {
                if has_prefix(rest, f@) {
                    assert(rest.subrange(0, f@.len() as int) =~= s@.subrange(i as int, i + f@.len()));
                }
                assert(rest.skip(1) =~= s@.skip(i + 1));
                assert(rest[0] == s@[i as int]);
            }
            v.push(s[i]);
            i += 1;
            assert(!found ==> v@ =~= s@.subrange(0, i as int));
        }
    }
    assert(s@.subrange(0, s.len() as int) =~= s@);
    assert(s@.skip(i as int) =~= seq![]);
    v
}

/// `s` with every `c` replaced by `to`.
pub fn replace_char(s: &Vec<char>, c: char, to: &str) -> (v: Vec<char>)
    ensures
        v@ == replace_char_spec(s@, c, to@),
        !s@.contains(c) ==> v@ == s@,
{
    let t = chars_of(to);
    let mut v: Vec<char> = Vec::new();
    let mut i: usize = 0;
    while i < s.len()
        invariant
            i <= s.len(),
            t@ == to@,
            v@ == replace_char_spec(s@.subrange(0, i as int), c, to@),
            (forall|j: int| 0 <= j < i ==> s@[j] != c) ==> v@ == s@.subrange(0, i as int),
        decreases s.len() - i,
    {
        assert(s@.subrange(0, i + 1).drop_last() =~= s@.subrange(0, i as int));
        if s[i] == c {
            push_all(&mut v, &t);
        } else {
            v.push(s[i]);
            assert((forall|j: int| 0 <= j < i + 1 ==> s@[j] != c) ==> v@ =~= s@.subrange(
                0,
                i + 1,
            ));
        }
        i += 1;
    }
    assert(s@.subrange(0, s.len() as int) =~= s@);
    v
}

/// The finished words of `s` and the word still being read.
pub open spec fn words_so_far(s: Seq<char>) -> (Seq<Seq<char>>, Seq<char>)
    decreases s.len(),
{
    if s.len() == 0 {
        (seq![], seq![])
    } else {
        let (done, cur) = words_so_far(s.drop_last());
        if is_ws_spec(s.last()) {
            if cur.len() > 0 {
                (done.push(cur), seq![])
            } else {
                (done, cur)
            }
        } else {
            (done, cur.push(s.last()))
        }
    }
}

/// The whitespace-separated words of `s` (`str::split_whitespace`).
pub open spec fn words_spec(s: Seq<char>) -> Seq<Seq<char>> {
    let (done, cur) = words_so_far(s);
    if cur.len() > 0 {
        done.push(cur)
    } else {
        done
    }
}

/// The whitespace-separated words of `s` (`str::split_whitespace`).
pub fn split_whitespace(s: &Vec<char>) -> (r: Vec<Vec<char>>)
    ensures
        views(r@) == words_spec(s@),
        forall|i: int| 0 <= i < r@.len() ==> (#[trigger] r@[i])@.len() > 0,
{
    let mut r: Vec<Vec<char>> = Vec::new();
    let mut cur: Vec<char> = Vec::new();
    let mut i: usize = 0;
    while i < s.len()
        invariant
            i <= s.len(),
            (views(r@), cur@) == words_so_far(s@.subrange(0, i as int)),
            forall|j: int| 0 <= j < r@.len() ==> (#[trigger] r@[j])@.len() > 0,
        decreases s.len() - i,
    {
        assert(s@.subrange(0, i + 1).drop_last() =~= s@.subrange(0, i as int));
        let ghost old_r = r@;
        if is_ws(s[i]) {
            if cur.len() > 0 {
                r.push(cur);
                cur = Vec::new();
                assert(views(r@) =~= views(old_r).push(views(r@).last()));
            }
        } else {
            cur.push(s[i]);
        }
        i += 1;
    }
    assert(s@.subrange(0, s.len() as int) =~= s@);
    let ghost old_r = r@;
    if cur.len() > 0 {
        r.push(cur);
        assert(views(r@) =~= views(old_r).push(views(r@).last()));
    }
    r
}

/// The characters of `s` that are not whitespace, in order.
pub open spec fn without_ws(s: Seq<char>) -> Seq<char>
    decreases s.len(),
{
    if s.len() == 0 {
        s
    } else if is_ws_spec(s.last()) {
        without_ws(s.drop_last())
    } else {
        without_ws(s.drop_last()).push(s.last())
    }
}

/// The characters of `s` that are not whitespace, in order.
pub fn remove_ws(s: &Vec<char>) -> (v: Vec<char>)
    ensures
        v@ == without_ws(s@),
        forall|i: int| 0 <= i < v@.len() ==> !is_ws_spec(#[trigger] v@[i]),
        v@.len() <= s@.len(),
{
    let mut v: Vec<char> = Vec::new();
    let mut i: usize = 0;
    while i < s.len()
        invariant
            i <= s.len(),
            v@.len() <= i,
            v@ == without_ws(s@.subrange(0, i as int)),
            forall|j: int| 0 <= j < v@.len() ==> !is_ws_spec(#[trigger] v@[j]),
        decreases s.len() - i,
    {
        assert(s@.subrange(0, i + 1).drop_last() =~= s@.subrange(0, i as int));
        if !is_ws(s[i]) {
            v.push(s[i]);
        }
        i += 1;
    }
    assert(s@.subrange(0, s.len() as int) =~= s@);
    v
}

} // verus!
