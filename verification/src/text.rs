//! Character classes and verified text transforms shared by the whole
//! crate: whitespace collapsing, trimming, substring search, and decimal
//! digit parsing and formatting.

use vstd::prelude::*;
use vstd::string::*;

verus! {

// ---------------------------------------------------------------------
// Character classes
// ---------------------------------------------------------------------

/// The whitespace class used by normalization and trimming: the
/// characters with the Unicode White_Space property.
pub open spec fn is_space_char(c: char) -> bool {
    ||| c == ' ' || c == '\t' || c == '\n' || c == '\r' || c == '\u{b}' || c == '\u{c}'
    ||| c == '\u{85}' || c == '\u{a0}' || c == '\u{1680}'
    ||| ('\u{2000}' as int) <= (c as int) && (c as int) <= ('\u{200a}' as int)
    ||| c == '\u{2028}' || c == '\u{2029}' || c == '\u{202f}' || c == '\u{205f}' || c == '\u{3000}'
}

/// Decimal digits.
pub open spec fn is_digit_char(c: char) -> bool {
    ('0' as int) <= (c as int) && (c as int) <= ('9' as int)
}

/// Word characters of the identifier grammar: ASCII letters, digits and
/// the underscore.  The restriction to ASCII is deliberate: identifier
/// subjects are short upper-case control-family codes.
pub open spec fn is_word_char(c: char) -> bool {
    ||| is_digit_char(c)
    ||| ('a' as int) <= (c as int) && (c as int) <= ('z' as int)
    ||| ('A' as int) <= (c as int) && (c as int) <= ('Z' as int)
    ||| c == '_'
}

pub open spec fn digit_val(c: char) -> int {
    (c as int) - ('0' as int)
}

pub fn char_is_space(c: char) -> (r: bool)
    ensures
        r == is_space_char(c),
{
    c == ' ' || c == '\t' || c == '\n' || c == '\r' || c == '\u{b}' || c == '\u{c}' || c == '\u{85}'
        || c == '\u{a0}' || c == '\u{1680}' || (('\u{2000}' as u32) <= (c as u32) && (c as u32)
        <= ('\u{200a}' as u32)) || c == '\u{2028}' || c == '\u{2029}' || c == '\u{202f}' || c
        == '\u{205f}' || c == '\u{3000}'
}

pub fn char_is_digit(c: char) -> (r: bool)
    ensures
        r == is_digit_char(c),
{
    ('0' as u32) <= (c as u32) && (c as u32) <= ('9' as u32)
}

pub fn char_lt(a: char, b: char) -> (r: bool)
    ensures
        r == ((a as int) < (b as int)),
{
    (a as u32) < (b as u32)
}

pub fn char_is_word(c: char) -> (r: bool)
    ensures
        r == is_word_char(c),
{
    char_is_digit(c) || (('a' as u32) <= (c as u32) && (c as u32) <= ('z' as u32)) || (('A'
        as u32) <= (c as u32) && (c as u32) <= ('Z' as u32)) || c == '_'
}

// ---------------------------------------------------------------------
// Conversions between strings and character vectors
// ---------------------------------------------------------------------

/// Relies on String::push: appends exactly one character at the end.
#[verifier::external_body]
pub fn push_char(s: &mut String, c: char)
    ensures
        final(s)@ == old(s)@.push(c),
{
    s.push(c);
}

pub fn str_to_chars(s: &str) -> (r: Vec<char>)
    ensures
        r@ == s@,
{
    let n: usize = s.unicode_len();
    let mut r: Vec<char> = Vec::new();
    let mut i: usize = 0;
    while i < n
        invariant
            i <= n,
            n == s@.len(),
            r@ == s@.take(i as int),
        decreases n - i,
    {
        let c = s.get_char(i);
        r.push(c);
        proof {
            assert(s@.take(i as int).push(s@[i as int]) =~= s@.take(i as int + 1));
        }
        i = i + 1;
    }
    proof {
        assert(s@.take(n as int) =~= s@);
    }
    r
}

pub fn chars_to_string(v: &Vec<char>) -> (r: String)
    ensures
        r@ == v@,
{
    let mut r = String::new();
    let mut i: usize = 0;
    while i < v.len()
        invariant
            i <= v.len(),
            r@ == v@.take(i as int),
        decreases v.len() - i,
    {
        push_char(&mut r, v[i]);
        proof {
            assert(v@.take(i as int).push(v@[i as int]) =~= v@.take(i as int + 1));
        }
        i = i + 1;
    }
    proof {
        assert(v@.take(v.len() as int) =~= v@);
    }
    r
}

pub fn chars_eq(a: &Vec<char>, b: &Vec<char>) -> (r: bool)
    ensures
        r == (a@ == b@),
{
    if a.len() != b.len() {
        return false;
    }
    let mut i: usize = 0;
    while i < a.len()
        invariant
            i <= a.len(),
            a.len() == b.len(),
            forall|k: int| 0 <= k < i ==> a@[k] == b@[k],
        decreases a.len() - i,
    {
        if a[i] != b[i] {
            return false;
        }
        i = i + 1;
    }
    proof {
        assert(a@ =~= b@);
    }
    true
}

pub fn copy_range(s: &Vec<char>, a: usize, b: usize) -> (r: Vec<char>)
    requires
        a <= b <= s.len(),
    ensures
        r@ == s@.subrange(a as int, b as int),
{
    let mut r: Vec<char> = Vec::new();
    let mut i: usize = a;
    while i < b
        invariant
            a <= i <= b <= s.len(),
            r@ == s@.subrange(a as int, i as int),
        decreases b - i,
    {
        r.push(s[i]);
        proof {
            assert(s@.subrange(a as int, i as int).push(s@[i as int]) =~= s@.subrange(
                a as int,
                i as int + 1,
            ));
        }
        i = i + 1;
    }
    r
}

// ---------------------------------------------------------------------
// Whitespace collapsing
// ---------------------------------------------------------------------

/// One pass over the text with a flag telling whether the previous
/// character belonged to a whitespace run: every maximal run of
/// whitespace becomes a single space.
pub open spec fn collapse_from(s: Seq<char>, prev_space: bool) -> Seq<char>
    decreases s.len(),
{
    if s.len() == 0 {
        Seq::<char>::empty()
    } else if is_space_char(s[0]) {
        if prev_space {
            collapse_from(s.skip(1), true)
        } else {
            seq![' '] + collapse_from(s.skip(1), true)
        }
    } else {
        seq![s[0]] + collapse_from(s.skip(1), false)
    }
}

/// Collapses every run of whitespace to a single space; all other
/// characters are kept as they are.
pub open spec fn collapse_ws(s: Seq<char>) -> Seq<char> {
    collapse_from(s, false)
}

pub fn collapse_chars(s: &Vec<char>) -> (r: Vec<char>)
    ensures
        r@ == collapse_ws(s@),
{
    let mut r: Vec<char> = Vec::new();
    let mut prev: bool = false;
    let mut i: usize = 0;
    proof {
        assert(s@.skip(0) =~= s@);
        assert(Seq::<char>::empty() + collapse_from(s@, false) =~= collapse_from(s@, false));
    }
    while i < s.len()
        invariant
            i <= s.len(),
            collapse_ws(s@) == r@ + collapse_from(s@.skip(i as int), prev),
        decreases s.len() - i,
    {
        let c = s[i];
        proof {
            assert(s@.skip(i as int).len() > 0);
            assert(s@.skip(i as int)[0] == s@[i as int]);
            assert(s@.skip(i as int).skip(1) =~= s@.skip(i as int + 1));
        }
        if char_is_space(c) {
            if !prev {
                r.push(' ');
                proof {
                    assert(r@ + collapse_from(s@.skip(i as int + 1), true) =~= r@.drop_last() + (
                    seq![' '] + collapse_from(s@.skip(i as int + 1), true)));
                }
            }
            prev = true;
        } else {
            r.push(c);
            proof {
                assert(r@ + collapse_from(s@.skip(i as int + 1), false) =~= r@.drop_last() + (seq![
                    c,
                ] + collapse_from(s@.skip(i as int + 1), false)));
            }
            prev = false;
        }
        i = i + 1;
    }
    proof {
        assert(s@.skip(s.len() as int) =~= Seq::<char>::empty());
        assert(r@ + Seq::<char>::empty() =~= r@);
    }
    r
}

// ---------------------------------------------------------------------
// Trimming
// ---------------------------------------------------------------------

pub open spec fn trim_start_spec(s: Seq<char>) -> Seq<char>
    decreases s.len(),
{
    if s.len() > 0 && is_space_char(s[0]) {
        trim_start_spec(s.skip(1))
    } else {
        s
    }
}

pub open spec fn trim_end_spec(s: Seq<char>) -> Seq<char>
    decreases s.len(),
{
    if s.len() > 0 && is_space_char(s[s.len() - 1]) {
        trim_end_spec(s.take(s.len() - 1))
    } else {
        s
    }
}

/// The text with leading and trailing whitespace removed.
pub open spec fn trim_spec(s: Seq<char>) -> Seq<char> {
    trim_end_spec(trim_start_spec(s))
}

pub fn trim_chars(s: &Vec<char>) -> (r: Vec<char>)
    ensures
        r@ == trim_spec(s@),
{
    let n: usize = s.len();
    let mut a: usize = 0;
    proof {
        assert(s@.skip(0) =~= s@);
    }
    while a < n && char_is_space(s[a])
        invariant
            a <= n,
            n == s@.len(),
            trim_start_spec(s@) == trim_start_spec(s@.skip(a as int)),
        decreases n - a,
    {
        proof {
            assert(s@.skip(a as int).len() > 0);
            assert(s@.skip(a as int)[0] == s@[a as int]);
            assert(s@.skip(a as int).skip(1) =~= s@.skip(a as int + 1));
        }
        a = a + 1;
    }
    proof {
        if a < n {
            assert(s@.skip(a as int)[0] == s@[a as int]);
        }
        assert(trim_start_spec(s@.skip(a as int)) == s@.skip(a as int));
        assert(s@.skip(a as int) =~= s@.subrange(a as int, n as int));
    }
    let mut b: usize = n;
    while b > a && char_is_space(s[b - 1])
        invariant
            a <= b <= n,
            n == s@.len(),
            trim_start_spec(s@) == s@.subrange(a as int, n as int),
            trim_end_spec(s@.subrange(a as int, n as int)) == trim_end_spec(
                s@.subrange(a as int, b as int),
            ),
        decreases b,
    {
        proof {
            let t = s@.subrange(a as int, b as int);
            assert(t.len() > 0);
            assert(t[t.len() - 1] == s@[b as int - 1]);
            assert(t.take(t.len() - 1) =~= s@.subrange(a as int, b as int - 1));
        }
        b = b - 1;
    }
    proof {
        let t = s@.subrange(a as int, b as int);
        if b > a {
            assert(t[t.len() - 1] == s@[b as int - 1]);
        }
        assert(trim_end_spec(t) == t);
    }
    copy_range(s, a, b)
}

/// Trims leading and trailing whitespace from a text.
pub fn trim_text(s: &str) -> (r: String)
    ensures
        r@ == trim_spec(s@),
{
    chars_to_string(&trim_chars(&str_to_chars(s)))
}

// ---------------------------------------------------------------------
// Prefix and substring tests
// ---------------------------------------------------------------------

pub open spec fn seq_starts_with(s: Seq<char>, p: Seq<char>) -> bool {
    p.len() <= s.len() && s.take(p.len() as int) == p
}

pub open spec fn seq_matches_at(s: Seq<char>, p: Seq<char>, i: int) -> bool {
    0 <= i && i + p.len() <= s.len() && s.subrange(i, i + p.len()) == p
}

/// The pattern occurs somewhere in the text.
pub open spec fn seq_contains(s: Seq<char>, p: Seq<char>) -> bool {
    exists|i: int| seq_matches_at(s, p, i)
}

pub fn chars_match_at(s: &Vec<char>, p: &Vec<char>, i: usize) -> (r: bool)
    requires
        i + p.len() <= s.len(),
    ensures
        r == seq_matches_at(s@, p@, i as int),
{
    let m: usize = p.len();
    let n: usize = s.len();
    let mut j: usize = 0;
    while j < m
        invariant
            j <= m,
            m == p@.len(),
            n == s@.len(),
            i + m <= n,
            forall|k: int| 0 <= k < j ==> s@[i + k] == p@[k],
        decreases m - j,
    {
        if s[i + j] != p[j] {
            proof {
                assert(s@.subrange(i as int, i as int + m) =~= s@.subrange(i as int, i as int + m));
                assert(s@.subrange(i as int, i as int + m)[j as int] == s@[i + j]);
            }
            return false;
        }
        j = j + 1;
    }
    proof {
        assert(s@.subrange(i as int, i as int + m) =~= p@);
    }
    true
}

pub fn chars_starts_with(s: &Vec<char>, p: &Vec<char>) -> (r: bool)
    ensures
        r == seq_starts_with(s@, p@),
{
    if p.len() > s.len() {
        return false;
    }
    let r = chars_match_at(s, p, 0);
    proof {
        assert(s@.subrange(0, p@.len() as int) =~= s@.take(p@.len() as int));
    }
    r
}

pub fn chars_contains(s: &Vec<char>, p: &Vec<char>) -> (r: bool)
    ensures
        r == seq_contains(s@, p@),
{
    if p.len() > s.len() {
        proof {
            assert(forall|i: int| !seq_matches_at(s@, p@, i));
        }
        return false;
    }
    if p.len() == 0 {
        proof {
            assert(s@.subrange(0, 0) =~= p@);
            assert(seq_matches_at(s@, p@, 0));
        }
        return true;
    }
    let n: usize = s.len();
    let last: usize = n - p.len();
    let mut i: usize = 0;
    while i <= last
        invariant
            i <= last + 1,
            n == s@.len(),
            last + 1 <= n,
            last == s@.len() - p@.len(),
            1 <= p@.len() <= s@.len(),
            forall|k: int| 0 <= k < i ==> !seq_matches_at(s@, p@, k),
        decreases last + 1 - i,
    {
        if chars_match_at(s, p, i) {
            return true;
        }
        i = i + 1;
    }
    proof {
        assert(forall|k: int| k > last ==> !seq_matches_at(s@, p@, k));
    }
    false
}

// ---------------------------------------------------------------------
// The name-field separator
// ---------------------------------------------------------------------

/// The internal separator of the name field.
pub open spec fn sep_pat() -> Seq<char> {
    seq![' ', '|', ' ']
}

/// Every occurrence of the name-field separator rewritten to a line
/// break, scanning left to right over non-overlapping occurrences.
pub open spec fn replace_seps(s: Seq<char>) -> Seq<char>
    decreases s.len(),
{
    if s.len() == 0 {
        Seq::<char>::empty()
    } else if seq_starts_with(s, sep_pat()) {
        seq!['\n'] + replace_seps(s.skip(3))
    } else {
        seq![s[0]] + replace_seps(s.skip(1))
    }
}

pub fn replace_seps_chars(s: &Vec<char>) -> (r: Vec<char>)
    ensures
        r@ == replace_seps(s@),
{
    let pat: Vec<char> = vec![' ', '|', ' '];
    proof {
        assert(pat@ =~= sep_pat());
        assert(s@.skip(0) =~= s@);
        assert(Seq::<char>::empty() + replace_seps(s@) =~= replace_seps(s@));
    }
    let n: usize = s.len();
    let mut r: Vec<char> = Vec::new();
    let mut i: usize = 0;
    while i < n
        invariant
            i <= n,
            n == s@.len(),
            pat@ == sep_pat(),
            replace_seps(s@) == r@ + replace_seps(s@.skip(i as int)),
        decreases n - i,
    {
        let ghost tail = s@.skip(i as int);
        let mut matched = false;
        if n - i >= 3 {
            matched = chars_match_at(s, &pat, i);
        }
        proof {
            assert(tail.len() == n - i);
            if n - i >= 3 {
                assert(tail.take(3) =~= s@.subrange(i as int, i as int + 3));
                assert(matched == seq_starts_with(tail, sep_pat()));
            } else {
                assert(!seq_starts_with(tail, sep_pat()));
            }
        }
        if matched {
            r.push('\n');
            proof {
                assert(tail.skip(3) =~= s@.skip(i as int + 3));
                assert(r@ + replace_seps(s@.skip(i as int + 3)) =~= r@.drop_last() + (seq!['\n']
                    + replace_seps(tail.skip(3))));
            }
            i = i + 3;
        } else {
            r.push(s[i]);
            proof {
                assert(tail[0] == s@[i as int]);
                assert(tail.skip(1) =~= s@.skip(i as int + 1));
                assert(r@ + replace_seps(s@.skip(i as int + 1)) =~= r@.drop_last() + (seq![
                    tail[0],
                ] + replace_seps(tail.skip(1))));
            }
            i = i + 1;
        }
    }
    proof {
        assert(s@.skip(n as int) =~= Seq::<char>::empty());
        assert(r@ + Seq::<char>::empty() =~= r@);
    }
    r
}

// ---------------------------------------------------------------------
// Decimal digits
// ---------------------------------------------------------------------

/// Value of a sequence of decimal digit characters.
pub open spec fn digits_val(s: Seq<char>) -> int
    decreases s.len(),
{
    if s.len() == 0 {
        0
    } else {
        digits_val(s.drop_last()) * 10 + digit_val(s.last())
    }
}

pub open spec fn digit_char(d: int) -> char {
    if d == 0 {
        '0'
    } else if d == 1 {
        '1'
    } else if d == 2 {
        '2'
    } else if d == 3 {
        '3'
    } else if d == 4 {
        '4'
    } else if d == 5 {
        '5'
    } else if d == 6 {
        '6'
    } else if d == 7 {
        '7'
    } else if d == 8 {
        '8'
    } else {
        '9'
    }
}

/// Canonical decimal representation, without leading zeros.
pub open spec fn dec_rep(n: nat) -> Seq<char>
    decreases n,
{
    if n < 10 {
        seq![digit_char(n as int)]
    } else {
        dec_rep(n / 10).push(digit_char((n % 10) as int))
    }
}

pub proof fn lemma_digit_char_val(d: int)
    requires
        0 <= d <= 9,
    ensures
        is_digit_char(digit_char(d)),
        digit_val(digit_char(d)) == d,
{
}

pub proof fn lemma_dec_rep_digits(n: nat)
    ensures
        dec_rep(n).len() >= 1,
        forall|i: int| 0 <= i < dec_rep(n).len() ==> is_digit_char(#[trigger] dec_rep(n)[i]),
    decreases n,
{
    if n < 10 {
        lemma_digit_char_val(n as int);
    } else {
        lemma_dec_rep_digits(n / 10);
        lemma_digit_char_val((n % 10) as int);
        assert(forall|i: int|
            0 <= i < dec_rep(n / 10).len() ==> #[trigger] dec_rep(n)[i] == dec_rep(n / 10)[i]);
        assert(dec_rep(n).last() == digit_char((n % 10) as int));
    }
}

pub proof fn lemma_dec_rep_val(n: nat)
    ensures
        digits_val(dec_rep(n)) == n,
    decreases n,
{
    if n < 10 {
        lemma_digit_char_val(n as int);
        assert(dec_rep(n) == seq![digit_char(n as int)]);
        assert(dec_rep(n).drop_last() =~= Seq::<char>::empty());
        assert(digits_val(Seq::<char>::empty()) == 0);
        assert(digits_val(dec_rep(n)) == digits_val(dec_rep(n).drop_last()) * 10 + digit_val(
            dec_rep(n).last(),
        ));
    } else {
        lemma_dec_rep_val(n / 10);
        lemma_digit_char_val((n % 10) as int);
        assert(dec_rep(n) == dec_rep(n / 10).push(digit_char((n % 10) as int)));
        assert(dec_rep(n).drop_last() =~= dec_rep(n / 10));
        assert(dec_rep(n).last() == digit_char((n % 10) as int));
        assert(digits_val(dec_rep(n)) == digits_val(dec_rep(n).drop_last()) * 10 + digit_val(
            dec_rep(n).last(),
        ));
        vstd::arithmetic::div_mod::lemma_fundamental_div_mod(n as int, 10);
    }
}

pub proof fn lemma_digits_val_bounds(s: Seq<char>)
    requires
        forall|i: int| 0 <= i < s.len() ==> is_digit_char(#[trigger] s[i]),
    ensures
        digits_val(s) >= 0,
    decreases s.len(),
{
    if s.len() > 0 {
        lemma_digits_val_bounds(s.drop_last());
    }
}

/// Extending a digit string on the right never lowers its value.
pub proof fn lemma_digits_val_prefix(s: Seq<char>, k: int)
    requires
        0 <= k <= s.len(),
        forall|i: int| 0 <= i < s.len() ==> is_digit_char(#[trigger] s[i]),
    ensures
        digits_val(s) >= digits_val(s.take(k)),
    decreases s.len() - k,
{
    if k < s.len() {
        lemma_digits_val_prefix(s, k + 1);
        assert(s.take(k + 1).drop_last() =~= s.take(k));
        assert(forall|i: int| 0 <= i < s.take(k).len() ==> is_digit_char(#[trigger] s.take(k)[i]));
        lemma_digits_val_bounds(s.take(k));
        assert(digits_val(s.take(k + 1)) == digits_val(s.take(k)) * 10 + digit_val(s[k]));
        assert(digits_val(s.take(k)) * 10 >= digits_val(s.take(k)));
        assert(digit_val(s[k]) >= 0);
    } else {
        assert(s.take(k) =~= s);
    }
}

pub fn digit_to_char(d: u8) -> (r: char)
    requires
        d <= 9,
    ensures
        r == digit_char(d as int),
{
    if d == 0 {
        '0'
    } else if d == 1 {
        '1'
    } else if d == 2 {
        '2'
    } else if d == 3 {
        '3'
    } else if d == 4 {
        '4'
    } else if d == 5 {
        '5'
    } else if d == 6 {
        '6'
    } else if d == 7 {
        '7'
    } else if d == 8 {
        '8'
    } else {
        '9'
    }
}

pub fn char_to_digit(c: char) -> (r: u8)
    requires
        is_digit_char(c),
    ensures
        r as int == digit_val(c),
        r <= 9,
{
    ((c as u32) - ('0' as u32)) as u8
}

/// Decimal digits of a byte-sized number, most significant first.
pub fn u8_to_dec_chars(n: u8) -> (r: Vec<char>)
    ensures
        r@ == dec_rep(n as nat),
{
    let mut r: Vec<char> = Vec::new();
    if n >= 100 {
        r.push(digit_to_char(n / 100));
        r.push(digit_to_char((n / 10) % 10));
        r.push(digit_to_char(n % 10));
        proof {
            vstd::arithmetic::div_mod::lemma_div_denominator(n as int, 10, 10);
            assert((n as nat) / 10 / 10 == (n as nat) / 100);
            assert(dec_rep((n as nat) / 100) == seq![digit_char(((n as nat) / 100) as int)]);
            assert(dec_rep((n as nat) / 10) == dec_rep((n as nat) / 10 / 10).push(
                digit_char((((n as nat) / 10) % 10) as int),
            ));
            assert(dec_rep(n as nat) == dec_rep((n as nat) / 10).push(
                digit_char(((n as nat) % 10) as int),
            ));
            assert(r@ =~= dec_rep(n as nat));
        }
    } else if n >= 10 {
        r.push(digit_to_char(n / 10));
        r.push(digit_to_char(n % 10));
        proof {
            assert(dec_rep((n as nat) / 10) == seq![digit_char(((n as nat) / 10) as int)]);
            assert(dec_rep(n as nat) == dec_rep((n as nat) / 10).push(
                digit_char(((n as nat) % 10) as int),
            ));
            assert(r@ =~= dec_rep(n as nat));
        }
    } else {
        r.push(digit_to_char(n));
        proof {
            assert(r@ =~= dec_rep(n as nat));
        }
    }
    r
}

/// Reads the digit characters in `s[a..b]` as a number; reports `None`
/// when the value does not fit in a byte.
pub fn digits_to_u8(s: &Vec<char>, a: usize, b: usize) -> (r: Option<u8>)
    requires
        a <= b <= s.len(),
        forall|k: int| a <= k < b ==> is_digit_char(#[trigger] s@[k]),
    ensures
        match r {
            Some(v) => v as int == digits_val(s@.subrange(a as int, b as int)),
            None => digits_val(s@.subrange(a as int, b as int)) > 255,
        },
{
    let ghost whole = s@.subrange(a as int, b as int);
    let mut acc: u32 = 0;
    let mut k: usize = a;
    while k < b
        invariant
            a <= k <= b <= s.len(),
            whole == s@.subrange(a as int, b as int),
            forall|j: int| a <= j < b ==> is_digit_char(#[trigger] s@[j]),
            acc <= 255,
            acc as int == digits_val(whole.take(k as int - a as int)),
        decreases b - k,
    {
        let d = char_to_digit(s[k]);
        proof {
            assert(whole.take(k as int - a as int + 1).drop_last() =~= whole.take(
                k as int - a as int,
            ));
            assert(whole.take(k as int - a as int + 1).last() == s@[k as int]);
        }
        let next: u32 = acc * 10 + (d as u32);
        if next > 255 {
            proof {
                assert(forall|i: int| 0 <= i < whole.len() ==> is_digit_char(#[trigger] whole[i]));
                lemma_digits_val_prefix(whole, k as int - a as int + 1);
                assert(whole.take(whole.len() as int) =~= whole);
            }
            return None;
        }
        acc = next;
        k = k + 1;
    }
    proof {
        assert(whole.take(b as int - a as int) =~= whole);
    }
    Some(acc as u8)
}

} // verus!
