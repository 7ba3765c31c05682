//! Structured control identifiers.
//!
//! An identifier is a short word code, a number and an optional
//! subnumber.  It parses from the first occurrence, anywhere in a text,
//! of the pattern `WORD-DIGITS`, optionally followed by whitespace and a
//! parenthesized digit group; it displays as `WORD-N` or `WORD-N (M)`.

use vstd::prelude::*;
use vstd::string::*;
use crate::text::{
    is_word_char, is_digit_char, is_space_char, digits_val, dec_rep, str_to_chars,
    chars_to_string, copy_range, u8_to_dec_chars, digits_to_u8, char_is_word, char_is_digit, char_lt,
    char_is_space, lemma_dec_rep_digits, lemma_dec_rep_val,
};

verus! {

/// Mathematical value of a [`ControlID`].
#[verifier::ext_equal]
pub ghost struct IdV {
    pub subject: Seq<char>,
    pub number: int,
    pub subnumber: int,
}

/// A structured, ordered, parseable control identifier.
#[derive(Debug)]
pub struct ControlID {
    subject: String,
    number: u8,
    subnumber: u8,
}

/// The identifier text did not contain the identifier pattern, or a
/// digit group was too large for the representable range.
#[derive(Debug, PartialEq, Eq, Structural)]
pub struct ParseControlIDErr;

impl View for ControlID {
    type V = IdV;

    closed spec fn view(&self) -> IdV {
        IdV {
            subject: self.subject@,
            number: self.number as int,
            subnumber: self.subnumber as int,
        }
    }
}

/// An identifier is empty when its subject is empty or its number is
/// zero; such records are dropped during sheet parsing, never stored.
pub open spec fn id_is_empty(id: IdV) -> bool {
    id.subject.len() == 0 || id.number == 0
}

/// The all-empty identifier.
pub open spec fn empty_id() -> IdV {
    IdV { subject: Seq::<char>::empty(), number: 0, subnumber: 0 }
}

// ---------------------------------------------------------------------
// The identifier pattern
// ---------------------------------------------------------------------

/// Length of the maximal run of word characters starting at `i`.
pub open spec fn word_run(s: Seq<char>, i: int) -> int
    decreases s.len() - i,
{
    if 0 <= i < s.len() && is_word_char(s[i]) {
        1 + word_run(s, i + 1)
    } else {
        0
    }
}

/// Length of the maximal run of digit characters starting at `i`.
pub open spec fn digit_run(s: Seq<char>, i: int) -> int
    decreases s.len() - i,
{
    if 0 <= i < s.len() && is_digit_char(s[i]) {
        1 + digit_run(s, i + 1)
    } else {
        0
    }
}

/// Length of the maximal run of whitespace characters starting at `i`.
pub open spec fn space_run(s: Seq<char>, i: int) -> int
    decreases s.len() - i,
{
    if 0 <= i < s.len() && is_space_char(s[i]) {
        1 + space_run(s, i + 1)
    } else {
        0
    }
}

/// The identifier pattern `WORD-DIGITS` matches starting at `i`: a
/// nonempty word run, then a dash, then at least one digit.
pub open spec fn match_at(s: Seq<char>, i: int) -> bool {
    let w = word_run(s, i);
    &&& 0 <= i < s.len()
    &&& w >= 1
    &&& i + w + 1 < s.len()
    &&& s[i + w] == '-'
    &&& is_digit_char(s[i + w + 1])
}

/// The least position at or after `i` where the pattern matches, or the
/// length of the text when it matches nowhere.
pub open spec fn first_match_from(s: Seq<char>, i: int) -> int
    decreases s.len() - i,
{
    if !(0 <= i < s.len()) {
        s.len() as int
    } else if match_at(s, i) {
        i
    } else {
        first_match_from(s, i + 1)
    }
}

/// The pattern matches somewhere in the text.
pub open spec fn has_match(s: Seq<char>) -> bool {
    first_match_from(s, 0) < s.len()
}

pub open spec fn m_start(s: Seq<char>) -> int {
    first_match_from(s, 0)
}

/// The captured word code.
pub open spec fn m_subject(s: Seq<char>) -> Seq<char> {
    s.subrange(m_start(s), m_start(s) + word_run(s, m_start(s)))
}

pub open spec fn m_num_start(s: Seq<char>) -> int {
    m_start(s) + word_run(s, m_start(s)) + 1
}

pub open spec fn m_num_digits(s: Seq<char>) -> Seq<char> {
    s.subrange(m_num_start(s), m_num_start(s) + digit_run(s, m_num_start(s)))
}

/// Value of the captured number group.
pub open spec fn m_number(s: Seq<char>) -> int {
    digits_val(m_num_digits(s))
}

/// Position just after the number group.
pub open spec fn m_tail(s: Seq<char>) -> int {
    m_num_start(s) + digit_run(s, m_num_start(s))
}

/// The optional group: whitespace, an opening parenthesis, at least one
/// digit, and a closing parenthesis.
pub open spec fn m_has_paren(s: Seq<char>) -> bool {
    let t = m_tail(s);
    let sp = space_run(s, t);
    let d2 = digit_run(s, t + sp + 1);
    &&& sp >= 1
    &&& t + sp < s.len()
    &&& s[t + sp] == '('
    &&& d2 >= 1
    &&& t + sp + 1 + d2 < s.len()
    &&& s[t + sp + 1 + d2] == ')'
}

pub open spec fn m_sub_digits(s: Seq<char>) -> Seq<char> {
    let t = m_tail(s);
    let sp = space_run(s, t);
    s.subrange(t + sp + 1, t + sp + 1 + digit_run(s, t + sp + 1))
}

/// Value of the captured subnumber group; zero when the optional group
/// is absent.
pub open spec fn m_subnumber(s: Seq<char>) -> int {
    if m_has_paren(s) {
        digits_val(m_sub_digits(s))
    } else {
        0
    }
}

/// What parsing an identifier text yields: `None` when the pattern does
/// not occur or a captured digit group is out of the representable
/// range.
pub open spec fn spec_parse(s: Seq<char>) -> Option<IdV> {
    if !has_match(s) {
        None
    } else if m_number(s) <= 255 && m_subnumber(s) <= 255 {
        Some(
            IdV {
                subject: m_subject(s),
                number: m_number(s),
                subnumber: m_subnumber(s),
            },
        )
    } else {
        None
    }
}

/// The canonical display text: `WORD-N`, with ` (M)` appended when the
/// subnumber is positive.
pub open spec fn display_of(id: IdV) -> Seq<char> {
    if id.subnumber > 0 {
        id.subject + seq!['-'] + dec_rep(id.number as nat) + seq![' ', '('] + dec_rep(
            id.subnumber as nat,
        ) + seq![')']
    } else {
        id.subject + seq!['-'] + dec_rep(id.number as nat)
    }
}

// ---------------------------------------------------------------------
// Ordering
// ---------------------------------------------------------------------

/// Strict lexicographic order on character sequences, by code point; a
/// proper prefix comes first.
pub open spec fn seq_char_lt(a: Seq<char>, b: Seq<char>) -> bool
    decreases a.len(),
{
    if b.len() == 0 {
        false
    } else if a.len() == 0 {
        true
    } else if a[0] != b[0] {
        (a[0] as int) < (b[0] as int)
    } else {
        seq_char_lt(a.skip(1), b.skip(1))
    }
}

/// Strict total order on identifiers: lexicographic by subject, then
/// number, then subnumber.
pub open spec fn id_lt(a: IdV, b: IdV) -> bool {
    ||| seq_char_lt(a.subject, b.subject)
    ||| (a.subject == b.subject && a.number < b.number)
    ||| (a.subject == b.subject && a.number == b.number && a.subnumber < b.subnumber)
}

// ---------------------------------------------------------------------
// Run lemmas
// ---------------------------------------------------------------------

pub proof fn lemma_word_run_exact(s: Seq<char>, i: int, m: int)
    requires
        0 <= i,
        0 <= m,
        i + m <= s.len(),
        forall|k: int| i <= k < i + m ==> is_word_char(#[trigger] s[k]),
        i + m == s.len() || !is_word_char(s[i + m]),
    ensures
        word_run(s, i) == m,
    decreases m,
{
    if m > 0 {
        lemma_word_run_exact(s, i + 1, m - 1);
    }
}

pub proof fn lemma_digit_run_exact(s: Seq<char>, i: int, m: int)
    requires
        0 <= i,
        0 <= m,
        i + m <= s.len(),
        forall|k: int| i <= k < i + m ==> is_digit_char(#[trigger] s[k]),
        i + m == s.len() || !is_digit_char(s[i + m]),
    ensures
        digit_run(s, i) == m,
    decreases m,
{
    if m > 0 {
        lemma_digit_run_exact(s, i + 1, m - 1);
    }
}

pub proof fn lemma_space_run_exact(s: Seq<char>, i: int, m: int)
    requires
        0 <= i,
        0 <= m,
        i + m <= s.len(),
        forall|k: int| i <= k < i + m ==> is_space_char(#[trigger] s[k]),
        i + m == s.len() || !is_space_char(s[i + m]),
    ensures
        space_run(s, i) == m,
    decreases m,
{
    if m > 0 {
        lemma_space_run_exact(s, i + 1, m - 1);
    }
}

pub proof fn lemma_digit_run_chars(s: Seq<char>, i: int)
    requires
        0 <= i,
    ensures
        forall|k: int| i <= k < i + digit_run(s, i) ==> is_digit_char(#[trigger] s[k]),
    decreases s.len() - i,
{
    if 0 <= i < s.len() && is_digit_char(s[i]) {
        lemma_digit_run_chars(s, i + 1);
    }
}

/// Every character inside a word run is a word character; with the
/// parse contract this says that a parsed identifier's subject consists
/// of word characters.
pub proof fn lemma_word_run_chars(s: Seq<char>, i: int)
    requires
        0 <= i,
    ensures
        forall|k: int| i <= k < i + word_run(s, i) ==> is_word_char(#[trigger] s[k]),
    decreases s.len() - i,
{
    if 0 <= i < s.len() && is_word_char(s[i]) {
        lemma_word_run_chars(s, i + 1);
    }
}

pub proof fn lemma_first_match_from(s: Seq<char>, j: int)
    requires
        0 <= j <= s.len(),
    ensures
        j <= first_match_from(s, j) <= s.len(),
        first_match_from(s, j) < s.len() ==> match_at(s, first_match_from(s, j)),
        forall|k: int| j <= k < first_match_from(s, j) ==> !match_at(s, k),
    decreases s.len() - j,
{
    if j < s.len() && !match_at(s, j) {
        lemma_first_match_from(s, j + 1);
    }
}

/// Law: the text has a match exactly when the pattern matches at some
/// position.  With the parse contract this says that parsing fails on
/// every text in which the identifier pattern does not occur.
pub proof fn lemma_has_match_exists(s: Seq<char>)
    ensures
        has_match(s) <==> exists|i: int| match_at(s, i),
{
    lemma_first_match_from(s, 0);
    if has_match(s) {
        assert(match_at(s, first_match_from(s, 0)));
    }
    if exists|i: int| match_at(s, i) {
        let i = choose|i: int| match_at(s, i);
        assert(0 <= i < s.len());
        assert(has_match(s));
    }
}

// ---------------------------------------------------------------------
// Executable run scanners
// ---------------------------------------------------------------------

fn word_run_at(s: &Vec<char>, i: usize) -> (r: usize)
    requires
        i <= s.len(),
    ensures
        i + r <= s@.len(),
        r as int == word_run(s@, i as int),
{
    let n: usize = s.len();
    let mut j: usize = i;
    while j < n && char_is_word(s[j])
        invariant
            i <= j <= n,
            n == s@.len(),
            word_run(s@, i as int) == (j - i) + word_run(s@, j as int),
        decreases n - j,
    {
        proof {
            assert(word_run(s@, j as int) == 1 + word_run(s@, j as int + 1));
        }
        j = j + 1;
    }
    proof {
        assert(word_run(s@, j as int) == 0);
    }
    j - i
}

fn digit_run_at(s: &Vec<char>, i: usize) -> (r: usize)
    requires
        i <= s.len(),
    ensures
        i + r <= s@.len(),
        r as int == digit_run(s@, i as int),
{
    let n: usize = s.len();
    let mut j: usize = i;
    while j < n && char_is_digit(s[j])
        invariant
            i <= j <= n,
            n == s@.len(),
            digit_run(s@, i as int) == (j - i) + digit_run(s@, j as int),
        decreases n - j,
    {
        proof {
            assert(digit_run(s@, j as int) == 1 + digit_run(s@, j as int + 1));
        }
        j = j + 1;
    }
    proof {
        assert(digit_run(s@, j as int) == 0);
    }
    j - i
}

fn space_run_at(s: &Vec<char>, i: usize) -> (r: usize)
    requires
        i <= s.len(),
    ensures
        i + r <= s@.len(),
        r as int == space_run(s@, i as int),
{
    let n: usize = s.len();
    let mut j: usize = i;
    while j < n && char_is_space(s[j])
        invariant
            i <= j <= n,
            n == s@.len(),
            space_run(s@, i as int) == (j - i) + space_run(s@, j as int),
        decreases n - j,
    {
        proof {
            assert(space_run(s@, j as int) == 1 + space_run(s@, j as int + 1));
        }
        j = j + 1;
    }
    proof {
        assert(space_run(s@, j as int) == 0);
    }
    j - i
}

fn find_first_match(s: &Vec<char>) -> (r: usize)
    ensures
        r as int == first_match_from(s@, 0),
        r <= s@.len(),
{
    let n: usize = s.len();
    let mut i: usize = 0;
    while i < n
        invariant
            i <= n,
            n == s@.len(),
            first_match_from(s@, 0) == first_match_from(s@, i as int),
        decreases n - i,
    {
        let w = word_run_at(s, i);
        let found = w >= 1 && i + w < n && s[i + w] == '-' && i + w + 1 < n && char_is_digit(
            s[i + w + 1],
        );
        proof {
            assert(found == match_at(s@, i as int));
        }
        if found {
            return i;
        }
        i = i + 1;
    }
    n
}

// ---------------------------------------------------------------------
// The identifier type
// ---------------------------------------------------------------------

impl ControlID {
    /// Parses the first occurrence of the identifier pattern anywhere in
    /// the text; fails when the pattern is absent or a digit group
    /// exceeds the representable range.
    pub fn parse(text: &str) -> (r: Result<ControlID, ParseControlIDErr>)
        ensures
            match r {
                Ok(id) => spec_parse(text@) == Some(id@),
                Err(_) => spec_parse(text@) is None,
            },
    {
        let s = str_to_chars(text);
        let n: usize = s.len();
        let fm = find_first_match(&s);
        proof {
            lemma_first_match_from(s@, 0);
        }
        if fm >= n {
            return Err(ParseControlIDErr);
        }
        let i = fm;
        let w = word_run_at(&s, i);
        let dstart = i + w + 1;
        let d = digit_run_at(&s, dstart);
        proof {
            lemma_digit_run_chars(s@, dstart as int);
        }
        let number = match digits_to_u8(&s, dstart, dstart + d) {
            Some(v) => v,
            None => {
                return Err(ParseControlIDErr);
            },
        };
        let t = dstart + d;
        let sp = space_run_at(&s, t);
        let mut subnumber: u8 = 0;
        if sp >= 1 && t + sp < n && s[t + sp] == '(' {
            let sub_start = t + sp + 1;
            let d2 = digit_run_at(&s, sub_start);
            if d2 >= 1 && sub_start + d2 < n && s[sub_start + d2] == ')' {
                proof {
                    assert(m_has_paren(s@));
                    lemma_digit_run_chars(s@, sub_start as int);
                }
                subnumber = match digits_to_u8(&s, sub_start, sub_start + d2) {
                    Some(v) => v,
                    None => {
                        return Err(ParseControlIDErr);
                    },
                };
            } else {
                proof {
                    assert(!m_has_paren(s@));
                }
            }
        } else {
            proof {
                assert(!m_has_paren(s@));
            }
        }
        let subject_chars = copy_range(&s, i, i + w);
        let subject = chars_to_string(&subject_chars);
        let id = ControlID { subject, number, subnumber };
        proof {
            assert(has_match(s@));
            assert(id@.subject == m_subject(s@));
            assert(id@.number == m_number(s@));
            assert(id@.subnumber == m_subnumber(s@));
            assert(id@ =~= spec_parse(s@).unwrap());
        }
        Ok(id)
    }

    /// The subject is empty or the number is zero.
    pub fn is_empty(&self) -> (r: bool)
        ensures
            r == id_is_empty(self@),
    {
        self.subject.as_str().unicode_len() == 0 || self.number == 0
    }

    /// The canonical display text, `WORD-N` or `WORD-N (M)`.
    pub fn to_display_text(&self) -> (r: String)
        ensures
            r@ == display_of(self@),
    {
        let mut out = str_to_chars(self.subject.as_str());
        out.push('-');
        let mut nd = u8_to_dec_chars(self.number);
        out.append(&mut nd);
        if self.subnumber > 0 {
            out.push(' ');
            out.push('(');
            let mut sd = u8_to_dec_chars(self.subnumber);
            out.append(&mut sd);
            out.push(')');
            proof {
                assert(out@ =~= display_of(self@));
            }
        } else {
            proof {
                assert(out@ =~= display_of(self@));
            }
        }
        chars_to_string(&out)
    }

    /// Strict order test, the executable form of [`id_lt`].
    pub fn lt(&self, other: &ControlID) -> (r: bool)
        ensures
            r == id_lt(self@, other@),
    {
        let a = str_to_chars(self.subject.as_str());
        let b = str_to_chars(other.subject.as_str());
        let na: usize = a.len();
        let nb: usize = b.len();
        let mut i: usize = 0;
        proof {
            assert(a@.skip(0) =~= a@);
            assert(b@.skip(0) =~= b@);
        }
        while i < na && i < nb
            invariant
                i <= na,
                i <= nb,
                na == a@.len(),
                nb == b@.len(),
                a@ == self@.subject,
                b@ == other@.subject,
                forall|k: int| 0 <= k < i ==> a@[k] == b@[k],
                seq_char_lt(a@, b@) == seq_char_lt(a@.skip(i as int), b@.skip(i as int)),
                seq_char_lt(b@, a@) == seq_char_lt(b@.skip(i as int), a@.skip(i as int)),
            decreases na - i,
        {
            proof {
                assert(a@.skip(i as int)[0] == a@[i as int]);
                assert(b@.skip(i as int)[0] == b@[i as int]);
                assert(a@.skip(i as int).skip(1) =~= a@.skip(i as int + 1));
                assert(b@.skip(i as int).skip(1) =~= b@.skip(i as int + 1));
            }
            if a[i] != b[i] {
                proof {
                    assert(seq_char_lt(a@, b@) == ((a@[i as int] as int) < (b@[i as int] as int)));
                    if a@ == b@ {
                        assert(a@[i as int] == b@[i as int]);
                    }
                    assert(a@ != b@);
                }
                return char_lt(a[i], b[i]);
            }
            i = i + 1;
        }
        proof {
            assert(a@.skip(i as int).len() == na - i);
            assert(b@.skip(i as int).len() == nb - i);
        }
        if i < nb {
            // the first subject is a proper prefix of the second
            proof {
                assert(seq_char_lt(a@, b@));
            }
            true
        } else if i < na {
            proof {
                assert(!seq_char_lt(a@, b@));
                assert(b@.skip(i as int).len() == 0);
                assert(self@.subject != other@.subject);
            }
            false
        } else {
            proof {
                assert(a@ =~= b@);
                assert(!seq_char_lt(a@, b@));
            }
            if self.number != other.number {
                self.number < other.number
            } else {
                self.subnumber < other.subnumber
            }
        }
    }
}

/// Law: the numeric components of every identifier value lie in the
/// representable range, whatever constructed it.
pub proof fn lemma_id_bounds(id: ControlID)
    ensures
        0 <= id@.number <= 255,
        0 <= id@.subnumber <= 255,
{
}

impl ControlID {
    /// The all-empty identifier, the default of a fresh record.
    pub fn empty() -> (r: ControlID)
        ensures
            r@ == empty_id(),
    {
        let r = ControlID { subject: String::new(), number: 0, subnumber: 0 };
        proof {
            assert(r@ =~= empty_id());
        }
        r
    }
}

impl Default for ControlID {
    fn default() -> (r: Self)
        ensures
            r@ == empty_id(),
    {
        ControlID::empty()
    }
}

impl Clone for ControlID {
    fn clone(&self) -> (r: Self)
        ensures
            r == *self,
    {
        ControlID { subject: self.subject.clone(), number: self.number, subnumber: self.subnumber }
    }
}

impl PartialEq for ControlID {
    fn eq(&self, other: &Self) -> (r: bool) {
        let r = self.subject == other.subject && self.number == other.number && self.subnumber
            == other.subnumber;
        proof {
            if r {
                assert(self@ =~= other@);
            }
        }
        r
    }
}

impl vstd::std_specs::cmp::PartialEqSpecImpl for ControlID {
    open spec fn obeys_eq_spec() -> bool {
        true
    }

    open spec fn eq_spec(&self, other: &Self) -> bool {
        self@ == other@
    }
}

// ---------------------------------------------------------------------
// Laws of the ordering
// ---------------------------------------------------------------------

pub proof fn lemma_seq_char_lt_irreflexive(a: Seq<char>)
    ensures
        !seq_char_lt(a, a),
    decreases a.len(),
{
    if a.len() > 0 {
        lemma_seq_char_lt_irreflexive(a.skip(1));
    }
}

pub proof fn lemma_seq_char_lt_connected(a: Seq<char>, b: Seq<char>)
    ensures
        a != b ==> seq_char_lt(a, b) || seq_char_lt(b, a),
    decreases a.len(),
{
    if a.len() > 0 && b.len() > 0 && a[0] == b[0] {
        lemma_seq_char_lt_connected(a.skip(1), b.skip(1));
        if a.skip(1) == b.skip(1) {
            assert forall|k: int| 0 <= k < a.len() implies a[k] == b[k] by {
                if k > 0 {
                    assert(a[k] == a.skip(1)[k - 1]);
                    assert(b[k] == b.skip(1)[k - 1]);
                }
            }
            assert(a =~= b);
        }
    } else if a.len() == 0 && b.len() == 0 {
        assert(a =~= b);
    }
}

pub proof fn lemma_seq_char_lt_asymmetric(a: Seq<char>, b: Seq<char>)
    ensures
        !(seq_char_lt(a, b) && seq_char_lt(b, a)),
    decreases a.len(),
{
    if a.len() > 0 && b.len() > 0 && a[0] == b[0] {
        lemma_seq_char_lt_asymmetric(a.skip(1), b.skip(1));
    }
}

pub proof fn lemma_seq_char_lt_transitive(a: Seq<char>, b: Seq<char>, c: Seq<char>)
    requires
        seq_char_lt(a, b),
        seq_char_lt(b, c),
    ensures
        seq_char_lt(a, c),
    decreases a.len(),
{
    if a.len() > 0 {
        if a[0] == b[0] && b[0] == c[0] {
            lemma_seq_char_lt_transitive(a.skip(1), b.skip(1), c.skip(1));
        }
    }
}

/// Law: the identifier order never holds reflexively.
pub proof fn lemma_id_lt_irreflexive(a: IdV)
    ensures
        !id_lt(a, a),
{
    lemma_seq_char_lt_irreflexive(a.subject);
}

/// Law: any two identifiers are ordered one way, the other way, or
/// equal, and never more than one of these.
pub proof fn lemma_id_lt_trichotomy(a: IdV, b: IdV)
    ensures
        id_lt(a, b) || id_lt(b, a) || a == b,
        !(id_lt(a, b) && id_lt(b, a)),
        id_lt(a, b) ==> a != b,
{
    lemma_seq_char_lt_connected(a.subject, b.subject);
    lemma_seq_char_lt_asymmetric(a.subject, b.subject);
    lemma_seq_char_lt_irreflexive(a.subject);
    lemma_seq_char_lt_irreflexive(b.subject);
    if !id_lt(a, b) && !id_lt(b, a) {
        assert(a.subject == b.subject);
        assert(a =~= b);
    }
}

/// Law: the identifier order is transitive.
pub proof fn lemma_id_lt_transitive(a: IdV, b: IdV, c: IdV)
    requires
        id_lt(a, b),
        id_lt(b, c),
    ensures
        id_lt(a, c),
{
    if seq_char_lt(a.subject, b.subject) && seq_char_lt(b.subject, c.subject) {
        lemma_seq_char_lt_transitive(a.subject, b.subject, c.subject);
    }
}

// ---------------------------------------------------------------------
// Law: parsing round-trips the canonical display text
// ---------------------------------------------------------------------

/// Law: for every identifier whose subject is a nonempty word and whose
/// digit groups are in range, parsing the display text yields back
/// exactly that identifier.  Together with the parse and display
/// contracts this says that canonical texts `WORD-N` and `WORD-N (M)`
/// (`M > 0`) round-trip through parse and display.
pub proof fn lemma_display_round_trip(id: IdV)
    requires
        id.subject.len() >= 1,
        forall|k: int| 0 <= k < id.subject.len() ==> is_word_char(#[trigger] id.subject[k]),
        0 <= id.number <= 255,
        0 <= id.subnumber <= 255,
    ensures
        spec_parse(display_of(id)) == Some(id),
{
    let s = display_of(id);
    let ls = id.subject.len() as int;
    let nd = dec_rep(id.number as nat);
    let dl = nd.len() as int;
    lemma_dec_rep_digits(id.number as nat);
    lemma_dec_rep_val(id.number as nat);
    assert(!is_word_char('-'));
    assert(forall|k: int| 0 <= k < ls ==> s[k] == id.subject[k]);
    assert(s[ls] == '-');
    assert(forall|k: int| 0 <= k < dl ==> s[ls + 1 + k] == nd[k]);
    assert(forall|c: char| is_digit_char(c) ==> is_word_char(c));
    lemma_word_run_exact(s, 0, ls);
    assert(is_digit_char(s[ls + 1]));
    assert(match_at(s, 0));
    assert(m_start(s) == 0);
    assert(m_subject(s) =~= id.subject);
    assert(m_num_start(s) == ls + 1);
    let t = ls + 1 + dl;
    if id.subnumber > 0 {
        let sd = dec_rep(id.subnumber as nat);
        let dl2 = sd.len() as int;
        lemma_dec_rep_digits(id.subnumber as nat);
        lemma_dec_rep_val(id.subnumber as nat);
        assert(s.len() == ls + 1 + dl + 2 + dl2 + 1);
        assert(s[t] == ' ');
        assert(s[t + 1] == '(');
        assert(forall|k: int| 0 <= k < dl2 ==> s[t + 2 + k] == sd[k]);
        assert(s[t + 2 + dl2] == ')');
        assert(!is_digit_char(' '));
        lemma_digit_run_exact(s, ls + 1, dl);
        assert(m_num_digits(s) =~= nd);
        assert(m_number(s) == id.number);
        assert(m_tail(s) == t);
        assert(!is_space_char('('));
        lemma_space_run_exact(s, t, 1);
        assert(!is_digit_char(')'));
        lemma_digit_run_exact(s, t + 2, dl2);
        assert(m_has_paren(s));
        assert(m_sub_digits(s) =~= sd);
        assert(m_subnumber(s) == id.subnumber);
    } else {
        assert(s.len() == ls + 1 + dl);
        lemma_digit_run_exact(s, ls + 1, dl);
        assert(m_num_digits(s) =~= nd);
        assert(m_number(s) == id.number);
        assert(m_tail(s) == t);
        assert(space_run(s, t) == 0);
        assert(!m_has_paren(s));
        assert(m_subnumber(s) == 0);
    }
    assert(spec_parse(s).unwrap() =~= id);
}

/// Law: when the subnumber is zero, the display text is the subject, a
/// dash and the decimal number, and it contains no parenthesis — the
/// parenthesized form is never rendered.  The subject hypothesis is
/// what parsing establishes (see [`lemma_word_run_chars`]).
pub proof fn lemma_display_no_parens(id: IdV)
    requires
        id.subnumber == 0,
        0 <= id.number,
        forall|k: int| 0 <= k < id.subject.len() ==> is_word_char(#[trigger] id.subject[k]),
    ensures
        display_of(id) == id.subject + seq!['-'] + dec_rep(id.number as nat),
        forall|k: int| 0 <= k < display_of(id).len() ==> #[trigger] display_of(id)[k] != '(',
{
    let s = display_of(id);
    let ls = id.subject.len() as int;
    let nd = dec_rep(id.number as nat);
    lemma_dec_rep_digits(id.number as nat);
    assert(s.len() == ls + 1 + nd.len());
    assert forall|k: int| 0 <= k < s.len() implies #[trigger] s[k] != '(' by {
        assert(!is_word_char('('));
        assert(!is_digit_char('('));
        if k < ls {
            assert(s[k] == id.subject[k]);
            assert(is_word_char(s[k]));
        } else if k == ls {
            assert(s[k] == '-');
        } else {
            assert(s[k] == nd[k - ls - 1]);
            assert(is_digit_char(s[k]));
        }
    }
}

} // verus!
