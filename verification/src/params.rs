//! Per-baseline free-text parameter fields.

use vstd::prelude::*;
use crate::text::{
    collapse_ws, collapse_chars, trim_spec, trim_chars, str_to_chars, chars_to_string, chars_eq,
};

verus! {

/// Mathematical value of a [`Parameters`] pair.
#[verifier::ext_equal]
pub ghost struct ParamV {
    pub assignment: Seq<char>,
    pub additional: Seq<char>,
}

/// The pair of free-text fields that vary by baseline: assignment or
/// selection text, and additional guidance text.
#[derive(Debug)]
pub struct Parameters {
    pub assignment: String,
    pub additional: String,
}

impl View for Parameters {
    type V = ParamV;

    open spec fn view(&self) -> ParamV {
        ParamV { assignment: self.assignment@, additional: self.additional@ }
    }
}

/// Normalized form of one field: every whitespace run collapsed to a
/// single space, leading and trailing whitespace disregarded.
pub open spec fn norm_text(s: Seq<char>) -> Seq<char> {
    trim_spec(collapse_ws(s))
}

/// Normalized form: both fields whitespace-normalized, so that texts
/// differing only in whitespace — at the edges included — compare
/// equal.  Used only for equality comparison, never for display.
pub open spec fn flat(p: ParamV) -> ParamV {
    ParamV { assignment: norm_text(p.assignment), additional: norm_text(p.additional) }
}

/// The canonical empty pair, the stand-in for an absent slot.
pub open spec fn empty_param() -> ParamV {
    ParamV { assignment: Seq::<char>::empty(), additional: Seq::<char>::empty() }
}

impl Parameters {
    /// A pair with both fields empty.
    pub fn new() -> (r: Parameters)
        ensures
            r@ == empty_param(),
    {
        let r = Parameters { assignment: String::new(), additional: String::new() };
        proof {
            assert(r@ =~= empty_param());
        }
        r
    }

    /// The normalization operation: collapses every whitespace run to a
    /// single space and removes leading and trailing whitespace, in
    /// both fields.
    pub fn flatten(&self) -> (r: Parameters)
        ensures
            r@ == flat(self@),
    {
        let a = str_to_chars(self.assignment.as_str());
        let d = str_to_chars(self.additional.as_str());
        let r = Parameters {
            assignment: chars_to_string(&trim_chars(&collapse_chars(&a))),
            additional: chars_to_string(&trim_chars(&collapse_chars(&d))),
        };
        proof {
            assert(r@ =~= flat(self@));
        }
        r
    }

    /// Equivalence for variation purposes: equality of the normalized
    /// forms.
    pub fn equivalent(&self, other: &Parameters) -> (r: bool)
        ensures
            r == (flat(self@) == flat(other@)),
    {
        let a1 = trim_chars(&collapse_chars(&str_to_chars(self.assignment.as_str())));
        let a2 = trim_chars(&collapse_chars(&str_to_chars(other.assignment.as_str())));
        let d1 = trim_chars(&collapse_chars(&str_to_chars(self.additional.as_str())));
        let d2 = trim_chars(&collapse_chars(&str_to_chars(other.additional.as_str())));
        let ae = chars_eq(&a1, &a2);
        let de = chars_eq(&d1, &d2);
        proof {
            if ae && de {
                assert(flat(self@) =~= flat(other@));
            }
        }
        ae && de
    }
}

impl Default for Parameters {
    fn default() -> (r: Self)
        ensures
            r@ == empty_param(),
    {
        Parameters::new()
    }
}

impl Clone for Parameters {
    fn clone(&self) -> (r: Self)
        ensures
            r == *self,
    {
        Parameters { assignment: self.assignment.clone(), additional: self.additional.clone() }
    }
}

} // verus!
