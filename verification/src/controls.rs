//! Control records and ordered record sets.
//!
//! A control carries shared narrative text and up to three
//! baseline-specific parameter slots.  A record set holds controls in
//! strictly ascending identifier order with no empty identifiers, so a
//! set is also a mapping from identifier to record.

use vstd::prelude::*;
use crate::baselines::Baselines;
use crate::control_id::{
    ControlID, IdV, id_is_empty, id_lt, empty_id, lemma_id_lt_trichotomy, lemma_id_lt_transitive,
};
use crate::params::{Parameters, ParamV, flat};

verus! {

/// Mathematical value of a [`Control`].
#[verifier::ext_equal]
pub ghost struct ControlV {
    pub id: IdV,
    pub name: Seq<char>,
    pub description: Seq<char>,
    pub discussion: Seq<char>,
    pub high: Option<ParamV>,
    pub moderate: Option<ParamV>,
    pub low: Option<ParamV>,
}

pub open spec fn opt_param_view(o: Option<Parameters>) -> Option<ParamV> {
    match o {
        Some(p) => Some(p@),
        None => None,
    }
}

/// A single named requirement with shared narrative text and up to
/// three baseline-specific parameter sets.
#[derive(Debug)]
pub struct Control {
    pub id: ControlID,
    pub name: String,
    pub description: String,
    pub discussion: String,
    pub params_high: Option<Parameters>,
    pub params_moderate: Option<Parameters>,
    pub params_low: Option<Parameters>,
}

impl View for Control {
    type V = ControlV;

    open spec fn view(&self) -> ControlV {
        ControlV {
            id: self.id@,
            name: self.name@,
            description: self.description@,
            discussion: self.discussion@,
            high: opt_param_view(self.params_high),
            moderate: opt_param_view(self.params_moderate),
            low: opt_param_view(self.params_low),
        }
    }
}

/// The record's parameter slot for one baseline.
pub open spec fn param_of(c: ControlV, b: Baselines) -> Option<ParamV> {
    match b {
        Baselines::High => c.high,
        Baselines::Moderate => c.moderate,
        Baselines::Low => c.low,
    }
}

/// The record with one baseline's parameter slot replaced.
pub open spec fn set_param(c: ControlV, b: Baselines, p: Option<ParamV>) -> ControlV {
    match b {
        Baselines::High => ControlV { high: p, ..c },
        Baselines::Moderate => ControlV { moderate: p, ..c },
        Baselines::Low => ControlV { low: p, ..c },
    }
}

/// The record with one baseline's parameter slot cleared.
pub open spec fn clear_param(c: ControlV, b: Baselines) -> ControlV {
    match b {
        Baselines::High => ControlV { high: None, ..c },
        Baselines::Moderate => ControlV { moderate: None, ..c },
        Baselines::Low => ControlV { low: None, ..c },
    }
}

/// Two or more populated slots differ after whitespace normalization.
/// Slots without a value are left out of the comparison.
pub open spec fn distinct_spec(c: ControlV) -> bool {
    ||| (c.high is Some && c.moderate is Some && flat(c.high.unwrap()) != flat(
        c.moderate.unwrap(),
    ))
    ||| (c.high is Some && c.low is Some && flat(c.high.unwrap()) != flat(c.low.unwrap()))
    ||| (c.moderate is Some && c.low is Some && flat(c.moderate.unwrap()) != flat(c.low.unwrap()))
}

fn clone_opt_params(o: &Option<Parameters>) -> (r: Option<Parameters>)
    ensures
        r == *o,
{
    match o {
        Some(p) => Some(p.clone()),
        None => None,
    }
}

fn params_equivalent(a: &Option<Parameters>, b: &Option<Parameters>) -> (r: bool)
    requires
        *a is Some,
        *b is Some,
    ensures
        r == (flat(opt_param_view(*a).unwrap()) == flat(opt_param_view(*b).unwrap())),
{
    match (a, b) {
        (Some(x), Some(y)) => x.equivalent(y),
        _ => false,
    }
}

impl Control {
    /// The record's parameter slot for the given baseline.
    pub fn parameter(&self, level: Baselines) -> (r: &Option<Parameters>)
        ensures
            opt_param_view(*r) == param_of(self@, level),
    {
        match level {
            Baselines::High => &self.params_high,
            Baselines::Moderate => &self.params_moderate,
            Baselines::Low => &self.params_low,
        }
    }

    /// Sets the record's parameter slot for the given baseline.
    pub fn set_parameter(&mut self, level: Baselines, p: Option<Parameters>)
        ensures
            final(self)@ == set_param(old(self)@, level, opt_param_view(p)),
    {
        match level {
            Baselines::High => self.params_high = p,
            Baselines::Moderate => self.params_moderate = p,
            Baselines::Low => self.params_low = p,
        }
        proof {
            assert(final(self)@ =~= set_param(old(self)@, level, opt_param_view(p)));
        }
    }

    /// Whether the populated slots carry substantively distinct
    /// parameter text: more than one unique normalized pair remains.
    pub fn distinct_parameters(&self) -> (r: bool)
        ensures
            r == distinct_spec(self@),
    {
        let mut r = false;
        if self.params_high.is_some() && self.params_moderate.is_some() {
            if !params_equivalent(&self.params_high, &self.params_moderate) {
                r = true;
            }
        }
        if self.params_high.is_some() && self.params_low.is_some() {
            if !params_equivalent(&self.params_high, &self.params_low) {
                r = true;
            }
        }
        if self.params_moderate.is_some() && self.params_low.is_some() {
            if !params_equivalent(&self.params_moderate, &self.params_low) {
                r = true;
            }
        }
        r
    }

    /// A copy of the record with one baseline's parameter slot cleared.
    pub fn without_baseline(&self, level: Baselines) -> (r: Control)
        ensures
            r@ == clear_param(self@, level),
    {
        let mut c = self.clone();
        match level {
            Baselines::High => c.params_high = None,
            Baselines::Moderate => c.params_moderate = None,
            Baselines::Low => c.params_low = None,
        }
        proof {
            assert(c@ =~= clear_param(self@, level));
        }
        c
    }
}

impl Clone for Control {
    fn clone(&self) -> (r: Self)
        ensures
            r == *self,
    {
        Control {
            id: self.id.clone(),
            name: self.name.clone(),
            description: self.description.clone(),
            discussion: self.discussion.clone(),
            params_high: clone_opt_params(&self.params_high),
            params_moderate: clone_opt_params(&self.params_moderate),
            params_low: clone_opt_params(&self.params_low),
        }
    }
}

impl Default for Control {
    /// A record with an empty identifier, empty narrative text and no
    /// parameter slot populated.
    fn default() -> (r: Self)
        ensures
            r@ == empty_control(),
    {
        let r = Control {
            id: ControlID::empty(),
            name: String::new(),
            description: String::new(),
            discussion: String::new(),
            params_high: None,
            params_moderate: None,
            params_low: None,
        };
        proof {
            assert(r@ =~= empty_control());
        }
        r
    }
}

/// The all-empty record.
pub open spec fn empty_control() -> ControlV {
    ControlV {
        id: empty_id(),
        name: Seq::<char>::empty(),
        description: Seq::<char>::empty(),
        discussion: Seq::<char>::empty(),
        high: None,
        moderate: None,
        low: None,
    }
}

// ---------------------------------------------------------------------
// Ordered record sets
// ---------------------------------------------------------------------

/// Some record in the sequence has this identifier.
pub open spec fn has_id(s: Seq<ControlV>, x: IdV) -> bool {
    exists|i: int| 0 <= i < s.len() && s[i].id == x
}

pub open spec fn idx_of(s: Seq<ControlV>, x: IdV) -> int {
    choose|i: int| 0 <= i < s.len() && s[i].id == x
}

/// The record with this identifier (meaningful when `has_id` holds).
pub open spec fn get_id(s: Seq<ControlV>, x: IdV) -> ControlV {
    s[idx_of(s, x)]
}

/// Records stand in strictly ascending identifier order and no stored
/// identifier is empty.
pub open spec fn controls_wf(s: Seq<ControlV>) -> bool {
    &&& (forall|i: int, j: int|
        #![trigger s[i].id, s[j].id]
        0 <= i < j < s.len() ==> id_lt(s[i].id, s[j].id))
    &&& (forall|i: int| 0 <= i < s.len() ==> !id_is_empty(#[trigger] s[i].id))
}

pub proof fn lemma_wf_unique(s: Seq<ControlV>)
    requires
        controls_wf(s),
    ensures
        forall|i: int, j: int|
            #![trigger s[i].id, s[j].id]
            0 <= i < s.len() && 0 <= j < s.len() && i != j ==> s[i].id != s[j].id,
{
    assert forall|i: int, j: int|
        #![trigger s[i].id, s[j].id]
        0 <= i < s.len() && 0 <= j < s.len() && i != j implies s[i].id != s[j].id by {
        if i < j {
            lemma_id_lt_trichotomy(s[i].id, s[j].id);
        } else {
            lemma_id_lt_trichotomy(s[j].id, s[i].id);
        }
    }
}

/// In a well-formed sequence, the record at any index is what lookup by
/// its identifier yields.
pub proof fn lemma_get_id_is(s: Seq<ControlV>, i: int)
    requires
        controls_wf(s),
        0 <= i < s.len(),
    ensures
        has_id(s, s[i].id),
        get_id(s, s[i].id) == s[i],
{
    lemma_wf_unique(s);
    assert(0 <= i < s.len() && s[i].id == s[i].id);
    let j = idx_of(s, s[i].id);
    assert(0 <= j < s.len() && s[j].id == s[i].id);
    assert(j == i);
}

/// An ordered set of control records, a mapping from identifier to
/// record.
#[derive(Debug)]
pub struct Controls {
    pub controls: Vec<Control>,
}

impl View for Controls {
    type V = Seq<ControlV>;

    open spec fn view(&self) -> Seq<ControlV> {
        self.controls@.map(|i: int, c: Control| c@)
    }
}

impl Controls {
    /// The well-formedness invariant of the set.
    pub open spec fn wf(&self) -> bool {
        controls_wf(self@)
    }

    /// The empty set.
    pub fn new() -> (r: Controls)
        ensures
            r@ == Seq::<ControlV>::empty(),
            r.wf(),
    {
        let r = Controls { controls: Vec::new() };
        proof {
            assert(r@ =~= Seq::<ControlV>::empty());
        }
        r
    }

    /// There are no records.
    pub fn is_empty(&self) -> (r: bool)
        ensures
            r == (self@.len() == 0),
    {
        self.controls.is_empty()
    }

    /// Number of records.
    pub fn len(&self) -> (r: usize)
        ensures
            r == self@.len(),
    {
        self.controls.len()
    }

    /// The record at a position of the order.
    pub fn record_at(&self, i: usize) -> (r: &Control)
        requires
            i < self@.len(),
        ensures
            r@ == self@[i as int],
    {
        &self.controls[i]
    }

    /// Looks a record up by identifier.
    pub fn get(&self, id: &ControlID) -> (r: Option<&Control>)
        requires
            self.wf(),
        ensures
            match r {
                Some(c) => has_id(self@, id@) && c@ == get_id(self@, id@),
                None => !has_id(self@, id@),
            },
    {
        let n = self.controls.len();
        let mut i: usize = 0;
        while i < n
            invariant
                i <= n,
                n == self@.len(),
                self.wf(),
                forall|k: int| 0 <= k < i ==> #[trigger] self@[k].id != id@,
            decreases n - i,
        {
            if self.controls[i].id == *id {
                proof {
                    lemma_get_id_is(self@, i as int);
                }
                return Some(&self.controls[i]);
            }
            i = i + 1;
        }
        None
    }

    /// Inserts the record at its place in the order, replacing any
    /// record that already carries the same identifier.
    pub fn upsert(&mut self, c: Control)
        requires
            old(self).wf(),
            !id_is_empty(c@.id),
        ensures
            final(self).wf(),
            forall|x: IdV|
                #[trigger] has_id(final(self)@, x) <==> (has_id(old(self)@, x) || x == c@.id),
            has_id(final(self)@, c@.id),
            get_id(final(self)@, c@.id) == c@,
            forall|x: IdV|
                has_id(old(self)@, x) && x != c@.id ==> #[trigger] get_id(final(self)@, x)
                    == get_id(old(self)@, x),
    {
        let ghost cv = c@;
        let ghost s0 = self@;
        let n = self.controls.len();
        let mut p: usize = 0;
        while p < n && self.controls[p].id.lt(&c.id)
            invariant
                p <= n,
                n == self@.len(),
                self@ == s0,
                controls_wf(s0),
                cv == c@,
                forall|k: int| 0 <= k < p ==> id_lt(#[trigger] self@[k].id, cv.id),
            decreases n - p,
        {
            p = p + 1;
        }
        let replace = p < n && self.controls[p].id == c.id;
        proof {
            if p < n && !replace {
                lemma_id_lt_trichotomy(s0[p as int].id, cv.id);
                assert(id_lt(cv.id, s0[p as int].id));
            }
        }
        if replace {
            self.controls[p] = c;
            proof {
                let s1 = self@;
                assert(s1 =~= s0.update(p as int, cv));
                assert(s0[p as int].id == cv.id);
                assert forall|i: int, j: int|
                    #![trigger s1[i].id, s1[j].id]
                    0 <= i < j < s1.len() implies id_lt(s1[i].id, s1[j].id) by {
                    assert(id_lt(s0[i].id, s0[j].id));
                }
                assert(controls_wf(s1));
                lemma_wf_unique(s0);
                lemma_wf_unique(s1);
                assert forall|x: IdV| #[trigger] has_id(s1, x) implies (has_id(s0, x) || x
                    == cv.id) by {
                    let i = idx_of(s1, x);
                    assert(0 <= i < s1.len() && s1[i].id == x);
                    if i != p {
                        assert(s0[i].id == x);
                    }
                }
                assert forall|x: IdV| has_id(s0, x) || x == cv.id implies #[trigger] has_id(
                    s1,
                    x,
                ) by {
                    if x == cv.id {
                        assert(s1[p as int].id == x);
                    } else {
                        let i = idx_of(s0, x);
                        assert(0 <= i < s0.len() && s0[i].id == x);
                        assert(i != p);
                        assert(s1[i].id == x);
                    }
                }
                assert(s1[p as int] == cv);
                lemma_get_id_is(s1, p as int);
                assert forall|x: IdV| has_id(s0, x) && x != cv.id implies #[trigger] get_id(s1, x)
                    == get_id(s0, x) by {
                    let i = idx_of(s0, x);
                    assert(0 <= i < s0.len() && s0[i].id == x);
                    assert(i != p);
                    assert(s1[i] == s0[i]);
                    lemma_get_id_is(s1, i);
                    lemma_get_id_is(s0, i);
                }
            }
        } else {
            self.controls.insert(p, c);
            proof {
                let s1 = self@;
                assert(s1 =~= s0.insert(p as int, cv));
                assert forall|i: int, j: int|
                    #![trigger s1[i].id, s1[j].id]
                    0 <= i < j < s1.len() implies id_lt(s1[i].id, s1[j].id) by {
                    if j < p {
                        assert(id_lt(s0[i].id, s0[j].id));
                    } else if i < p && j == p {
                        assert(id_lt(s0[i].id, cv.id));
                    } else if i < p && j > p {
                        assert(id_lt(s0[i].id, s0[j - 1].id));
                    } else if i == p && j > p {
                        assert(id_lt(cv.id, s0[p as int].id));
                        if j - 1 > p {
                            assert(id_lt(s0[p as int].id, s0[j - 1].id));
                            lemma_id_lt_transitive(cv.id, s0[p as int].id, s0[j - 1].id);
                        }
                        assert(id_lt(cv.id, s0[j - 1].id));
                    } else {
                        assert(id_lt(s0[i - 1].id, s0[j - 1].id));
                    }
                }
                assert(controls_wf(s1));
                lemma_wf_unique(s0);
                lemma_wf_unique(s1);
                assert forall|x: IdV| #[trigger] has_id(s1, x) implies (has_id(s0, x) || x
                    == cv.id) by {
                    let i = idx_of(s1, x);
                    assert(0 <= i < s1.len() && s1[i].id == x);
                    if i < p {
                        assert(s0[i].id == x);
                    } else if i > p {
                        assert(s0[i - 1].id == x);
                    }
                }
                assert forall|x: IdV| has_id(s0, x) || x == cv.id implies #[trigger] has_id(
                    s1,
                    x,
                ) by {
                    if x == cv.id {
                        assert(s1[p as int].id == x);
                    } else {
                        let i = idx_of(s0, x);
                        assert(0 <= i < s0.len() && s0[i].id == x);
                        if i < p {
                            assert(s1[i].id == x);
                        } else {
                            assert(s1[i + 1].id == x);
                        }
                    }
                }
                assert(s1[p as int] == cv);
                lemma_get_id_is(s1, p as int);
                assert forall|x: IdV| has_id(s0, x) && x != cv.id implies #[trigger] get_id(s1, x)
                    == get_id(s0, x) by {
                    let i = idx_of(s0, x);
                    assert(0 <= i < s0.len() && s0[i].id == x);
                    if i < p {
                        assert(s1[i] == s0[i]);
                        lemma_get_id_is(s1, i);
                    } else {
                        assert(s1[i + 1] == s0[i]);
                        lemma_get_id_is(s1, i + 1);
                    }
                    lemma_get_id_is(s0, i);
                }
            }
        }
    }

    /// A copy of the set with one baseline's parameter slot cleared in
    /// every record; order, identifiers and narrative text are kept.
    pub fn without_baseline(&self, level: Baselines) -> (r: Controls)
        requires
            self.wf(),
        ensures
            r.wf(),
            r@.len() == self@.len(),
            forall|i: int| 0 <= i < self@.len() ==> #[trigger] r@[i] == clear_param(
                self@[i],
                level,
            ),
    {
        let n = self.controls.len();
        let mut out: Vec<Control> = Vec::new();
        let mut i: usize = 0;
        while i < n
            invariant
                i <= n,
                n == self@.len(),
                self.wf(),
                out@.len() == i,
                forall|k: int| 0 <= k < i ==> #[trigger] out@[k]@ == clear_param(self@[k], level),
            decreases n - i,
        {
            out.push(self.controls[i].without_baseline(level));
            i = i + 1;
        }
        let r = Controls { controls: out };
        proof {
            assert(forall|k: int| 0 <= k < n ==> #[trigger] r@[k] == out@[k]@);
            assert forall|a: int, b: int|
                #![trigger r@[a].id, r@[b].id]
                0 <= a < b < r@.len() implies id_lt(r@[a].id, r@[b].id) by {
                assert(id_lt(self@[a].id, self@[b].id));
            }
            assert forall|a: int| 0 <= a < r@.len() implies !id_is_empty(
                #[trigger] r@[a].id,
            ) by {
                assert(!id_is_empty(self@[a].id));
            }
        }
        r
    }
}

impl Default for Controls {
    fn default() -> (r: Self)
        ensures
            r@ == Seq::<ControlV>::empty(),
            r.wf(),
    {
        Controls::new()
    }
}

// ---------------------------------------------------------------------
// Merging
// ---------------------------------------------------------------------

pub proof fn lemma_wf_take(s: Seq<ControlV>, k: int)
    requires
        controls_wf(s),
        0 <= k <= s.len(),
    ensures
        controls_wf(s.take(k)),
{
    let t = s.take(k);
    assert forall|i: int, j: int|
        #![trigger t[i].id, t[j].id]
        0 <= i < j < t.len() implies id_lt(t[i].id, t[j].id) by {
        assert(id_lt(s[i].id, s[j].id));
    }
    assert forall|i: int| 0 <= i < t.len() implies !id_is_empty(#[trigger] t[i].id) by {
        assert(!id_is_empty(s[i].id));
    }
}

pub proof fn lemma_has_id_take_step(s: Seq<ControlV>, k: int, x: IdV)
    requires
        0 <= k < s.len(),
    ensures
        has_id(s.take(k + 1), x) <==> (has_id(s.take(k), x) || s[k].id == x),
{
    let t1 = s.take(k + 1);
    let t0 = s.take(k);
    if has_id(t1, x) {
        let i = idx_of(t1, x);
        assert(0 <= i < t1.len() && t1[i].id == x);
        if i < k {
            assert(t0[i].id == x);
        } else {
            assert(s[k].id == x);
        }
    }
    if has_id(t0, x) {
        let i = idx_of(t0, x);
        assert(0 <= i < t0.len() && t0[i].id == x);
        assert(t1[i].id == x);
    }
    if s[k].id == x {
        assert(t1[k].id == x);
    }
}

pub proof fn lemma_get_id_take(s: Seq<ControlV>, k: int, x: IdV)
    requires
        controls_wf(s),
        0 <= k <= s.len(),
        has_id(s.take(k), x),
    ensures
        has_id(s, x),
        get_id(s.take(k), x) == get_id(s, x),
{
    let t = s.take(k);
    let i = idx_of(t, x);
    assert(0 <= i < t.len() && t[i].id == x);
    assert(s[i].id == x);
    lemma_get_id_is(s, i);
    lemma_wf_unique(s);
    lemma_wf_take(s, k);
    lemma_get_id_is(t, i);
}

/// The record one merge pass owes for identifier `x`: the record the
/// set already had (or, for a fresh identifier, a record whose
/// narrative text comes from the source on the High pass and is empty
/// otherwise), with this baseline's parameter slot copied from the
/// source record when the source has one.
pub open spec fn pass_rec(
    r0: Seq<ControlV>,
    src: Seq<ControlV>,
    level: Baselines,
    x: IdV,
) -> ControlV {
    let srcrec = get_id(src, x);
    let base = if has_id(r0, x) {
        get_id(r0, x)
    } else {
        ControlV {
            id: x,
            name: if level is High {
                srcrec.name
            } else {
                Seq::<char>::empty()
            },
            description: if level is High {
                srcrec.description
            } else {
                Seq::<char>::empty()
            },
            discussion: if level is High {
                srcrec.discussion
            } else {
                Seq::<char>::empty()
            },
            high: None,
            moderate: None,
            low: None,
        }
    };
    if has_id(src, x) {
        set_param(base, level, param_of(srcrec, level))
    } else {
        base
    }
}

/// The record the whole merge owes for identifier `x`: narrative fields
/// from the High record when one exists and empty otherwise, and each
/// baseline's parameter slot from that baseline's own record.
pub open spec fn merged_rec(
    h: Seq<ControlV>,
    m: Seq<ControlV>,
    l: Seq<ControlV>,
    x: IdV,
) -> ControlV {
    ControlV {
        id: x,
        name: if has_id(h, x) {
            get_id(h, x).name
        } else {
            Seq::<char>::empty()
        },
        description: if has_id(h, x) {
            get_id(h, x).description
        } else {
            Seq::<char>::empty()
        },
        discussion: if has_id(h, x) {
            get_id(h, x).discussion
        } else {
            Seq::<char>::empty()
        },
        high: if has_id(h, x) {
            get_id(h, x).high
        } else {
            None
        },
        moderate: if has_id(m, x) {
            get_id(m, x).moderate
        } else {
            None
        },
        low: if has_id(l, x) {
            get_id(l, x).low
        } else {
            None
        },
    }
}

/// Folds one baseline's records into the result set.
fn merge_pass(res: &mut Controls, src: &Controls, level: Baselines)
    requires
        old(res).wf(),
        src.wf(),
    ensures
        final(res).wf(),
        forall|x: IdV|
            #[trigger] has_id(final(res)@, x) <==> (has_id(old(res)@, x) || has_id(src@, x)),
        forall|x: IdV|
            #[trigger] has_id(final(res)@, x) ==> get_id(final(res)@, x) == pass_rec(
                old(res)@,
                src@,
                level,
                x,
            ),
{
    let ghost r0 = res@;
    let n = src.len();
    let mut k: usize = 0;
    proof {
        assert(src@.take(0) =~= Seq::<ControlV>::empty());
    }
    while k < n
        invariant
            k <= n,
            n == src@.len(),
            src.wf(),
            res.wf(),
            forall|x: IdV|
                #[trigger] has_id(res@, x) <==> (has_id(r0, x) || has_id(
                    src@.take(k as int),
                    x,
                )),
            forall|x: IdV|
                #[trigger] has_id(res@, x) ==> get_id(res@, x) == pass_rec(
                    r0,
                    src@.take(k as int),
                    level,
                    x,
                ),
        decreases n - k,
    {
        let c = src.record_at(k);
        let ghost x0 = src@[k as int].id;
        let ghost sk = src@.take(k as int);
        let ghost sk1 = src@.take(k as int + 1);
        proof {
            lemma_wf_unique(src@);
            lemma_wf_take(src@, k as int + 1);
            if has_id(sk, x0) {
                let i = idx_of(sk, x0);
                assert(0 <= i < sk.len() && sk[i].id == x0);
                assert(src@[i].id == x0);
            }
            assert(!has_id(sk, x0));
            assert(sk1[k as int] == src@[k as int]);
            lemma_get_id_is(sk1, k as int);
        }
        let keep_narrative = match level {
            Baselines::High => true,
            _ => false,
        };
        let existing = res.get(&c.id);
        let rec = match existing {
            Some(e) => {
                let mut e2 = e.clone();
                e2.set_parameter(level, clone_opt_params(c.parameter(level)));
                e2
            },
            None => {
                let mut e2 = Control {
                    id: c.id.clone(),
                    name: if keep_narrative {
                        c.name.clone()
                    } else {
                        String::new()
                    },
                    description: if keep_narrative {
                        c.description.clone()
                    } else {
                        String::new()
                    },
                    discussion: if keep_narrative {
                        c.discussion.clone()
                    } else {
                        String::new()
                    },
                    params_high: None,
                    params_moderate: None,
                    params_low: None,
                };
                e2.set_parameter(level, clone_opt_params(c.parameter(level)));
                e2
            },
        };
        proof {
            if has_id(r0, x0) {
                let i = idx_of(r0, x0);
                assert(0 <= i < r0.len() && r0[i].id == x0);
            }
            assert(rec@ =~= pass_rec(r0, sk1, level, x0));
            assert(!id_is_empty(rec@.id));
        }
        res.upsert(rec);
        proof {
            assert forall|x: IdV| #[trigger] has_id(res@, x) <==> (has_id(r0, x) || has_id(
                sk1,
                x,
            )) by {
                lemma_has_id_take_step(src@, k as int, x);
            }
            assert forall|x: IdV| #[trigger] has_id(res@, x) implies get_id(res@, x) == pass_rec(
                r0,
                sk1,
                level,
                x,
            ) by {
                lemma_has_id_take_step(src@, k as int, x);
                if x == x0 {
                    assert(get_id(res@, x) == rec@);
                } else {
                    assert(get_id(res@, x) == pass_rec(r0, sk, level, x));
                    if has_id(sk, x) {
                        lemma_get_id_take(src@, k as int, x);
                        lemma_get_id_take(src@, k as int + 1, x);
                    }
                    assert(pass_rec(r0, sk1, level, x) == pass_rec(r0, sk, level, x));
                }
            }
        }
        k = k + 1;
    }
    proof {
        assert(src@.take(n as int) =~= src@);
    }
}

/// Merges the three per-baseline record sets into one set covering the
/// union of their identifiers.  Narrative text is copied from the High
/// record for the identifier; an identifier present only in Moderate or
/// Low keeps empty narrative text (the policy chosen for that edge
/// case).  Each baseline's parameter slot comes from that baseline's
/// own record, and stays absent where that baseline has none.
pub fn merge_controls(high: &Controls, moderate: &Controls, low: &Controls) -> (r: Controls)
    requires
        high.wf(),
        moderate.wf(),
        low.wf(),
    ensures
        r.wf(),
        forall|x: IdV|
            #[trigger] has_id(r@, x) <==> (has_id(high@, x) || has_id(moderate@, x) || has_id(
                low@,
                x,
            )),
        forall|x: IdV|
            #[trigger] has_id(r@, x) ==> get_id(r@, x) == merged_rec(high@, moderate@, low@, x),
{
    let mut res = Controls::new();
    merge_pass(&mut res, high, Baselines::High);
    let ghost r1 = res@;
    merge_pass(&mut res, moderate, Baselines::Moderate);
    let ghost r2 = res@;
    merge_pass(&mut res, low, Baselines::Low);
    proof {
        assert forall|x: IdV| #[trigger] has_id(res@, x) implies get_id(res@, x) == merged_rec(
            high@,
            moderate@,
            low@,
            x,
        ) by {
            if has_id(high@, x) {
                let i = idx_of(high@, x);
                assert(0 <= i < high@.len() && high@[i].id == x);
            }
            if has_id(moderate@, x) {
                let i = idx_of(moderate@, x);
                assert(0 <= i < moderate@.len() && moderate@[i].id == x);
            }
            if has_id(low@, x) {
                let i = idx_of(low@, x);
                assert(0 <= i < low@.len() && low@[i].id == x);
            }
            if has_id(r1, x) {
                assert(get_id(r1, x) == pass_rec(Seq::<ControlV>::empty(), high@, Baselines::High, x));
            }
            if has_id(r2, x) {
                assert(get_id(r2, x) == pass_rec(r1, moderate@, Baselines::Moderate, x));
            }
            assert(get_id(res@, x) == pass_rec(r2, low@, Baselines::Low, x));
            assert(get_id(res@, x) =~= merged_rec(high@, moderate@, low@, x));
        }
    }
    res
}

} // verus!
