//! Parsing a tabular sheet into control records.
//!
//! A sheet is a grid of optional text cells: a title row, a header row,
//! then data rows.  Header names are matched after whitespace
//! normalization; each recognized column routes its cell text into a
//! record field, unrecognized columns and absent cells are ignored, and
//! a row whose identifier stays empty is dropped.

use vstd::prelude::*;
use crate::baselines::Baselines;
use crate::control_id::{ControlID, IdV, id_is_empty, spec_parse};
use crate::controls::{
    Control, ControlV, Controls, has_id, get_id, set_param, param_of, empty_control,
    opt_param_view,
};
use crate::params::{Parameters, ParamV, empty_param};
use crate::text::{
    collapse_ws, collapse_chars, str_to_chars, chars_eq, chars_starts_with, chars_contains,
    seq_starts_with, seq_contains, trim_spec, trim_text,
};

verus! {

/// A generic tabular sheet: rows of cells, each cell either text or
/// absent (blank or of no textual value).
#[derive(Debug)]
pub struct Sheet {
    pub cells: Vec<Vec<Option<String>>>,
}

pub open spec fn opt_str_view(c: Option<String>) -> Option<Seq<char>> {
    match c {
        Some(t) => Some(t@),
        None => None,
    }
}

pub open spec fn opt_chars_view(c: Option<Vec<char>>) -> Option<Seq<char>> {
    match c {
        Some(t) => Some(t@),
        None => None,
    }
}

impl View for Sheet {
    type V = Seq<Seq<Option<Seq<char>>>>;

    open spec fn view(&self) -> Seq<Seq<Option<Seq<char>>>> {
        self.cells@.map(
            |i: int, r: Vec<Option<String>>| r@.map(|j: int, c: Option<String>| opt_str_view(c)),
        )
    }
}

/// Which record field a header routes its column into.
#[derive(Debug, Clone, Copy, PartialEq, Eq, Structural)]
pub enum FieldKind {
    Id,
    Name,
    Description,
    Discussion,
    Assignment,
    Additional,
    Other,
}

/// The routing policy over a normalized header name, checked in order.
pub open spec fn route(h: Seq<char>) -> FieldKind {
    if h == "ID"@ {
        FieldKind::Id
    } else if h == "Control Name"@ {
        FieldKind::Name
    } else if seq_starts_with(h, "NIST Control Description"@) {
        FieldKind::Description
    } else if seq_starts_with(h, "NIST Discussion"@) {
        FieldKind::Discussion
    } else if seq_contains(h, "Assignment / Selection"@) {
        FieldKind::Assignment
    } else if seq_contains(h, "Additional"@) {
        FieldKind::Additional
    } else {
        FieldKind::Other
    }
}

fn route_exec(h: &Vec<char>) -> (r: FieldKind)
    ensures
        r == route(h@),
{
    let id_lit = str_to_chars("ID");
    let name_lit = str_to_chars("Control Name");
    let desc_lit = str_to_chars("NIST Control Description");
    let disc_lit = str_to_chars("NIST Discussion");
    let assign_lit = str_to_chars("Assignment / Selection");
    let add_lit = str_to_chars("Additional");
    if chars_eq(h, &id_lit) {
        FieldKind::Id
    } else if chars_eq(h, &name_lit) {
        FieldKind::Name
    } else if chars_starts_with(h, &desc_lit) {
        FieldKind::Description
    } else if chars_starts_with(h, &disc_lit) {
        FieldKind::Discussion
    } else if chars_contains(h, &assign_lit) {
        FieldKind::Assignment
    } else if chars_contains(h, &add_lit) {
        FieldKind::Additional
    } else {
        FieldKind::Other
    }
}

/// The record a fresh data row starts from: everything empty but this
/// baseline's parameter slot, which is present and empty.
pub open spec fn init_record(b: Baselines) -> ControlV {
    set_param(empty_control(), b, Some(empty_param()))
}

/// The record with the trimmed text routed into this baseline's
/// assignment field.
pub open spec fn set_assignment(c: ControlV, b: Baselines, t: Seq<char>) -> ControlV {
    let p = match param_of(c, b) {
        Some(p) => p,
        None => empty_param(),
    };
    set_param(c, b, Some(ParamV { assignment: t, ..p }))
}

/// The record with the trimmed text routed into this baseline's
/// additional-guidance field.
pub open spec fn set_additional(c: ControlV, b: Baselines, t: Seq<char>) -> ControlV {
    let p = match param_of(c, b) {
        Some(p) => p,
        None => empty_param(),
    };
    set_param(c, b, Some(ParamV { additional: t, ..p }))
}

/// One cell applied to the record being built: an absent header or cell
/// changes nothing; a recognized header routes the cell's text; an
/// identifier that does not parse is silently ignored.
pub open spec fn apply_cell(
    acc: ControlV,
    b: Baselines,
    h: Option<Seq<char>>,
    v: Option<Seq<char>>,
) -> ControlV {
    match (h, v) {
        (Some(hn), Some(tv)) => match route(hn) {
            FieldKind::Id => match spec_parse(tv) {
                Some(idv) => ControlV { id: idv, ..acc },
                None => acc,
            },
            FieldKind::Name => ControlV { name: trim_spec(tv), ..acc },
            FieldKind::Description => ControlV { description: trim_spec(tv), ..acc },
            FieldKind::Discussion => ControlV { discussion: trim_spec(tv), ..acc },
            FieldKind::Assignment => set_assignment(acc, b, trim_spec(tv)),
            FieldKind::Additional => set_additional(acc, b, trim_spec(tv)),
            FieldKind::Other => acc,
        },
        _ => acc,
    }
}

/// The first `k` cells of a data row folded into a record.
pub open spec fn row_fold(
    hs: Seq<Option<Seq<char>>>,
    row: Seq<Option<Seq<char>>>,
    k: int,
    b: Baselines,
) -> ControlV
    decreases k,
{
    if k <= 0 {
        init_record(b)
    } else {
        apply_cell(
            row_fold(hs, row, k - 1, b),
            b,
            if k - 1 < hs.len() {
                hs[k - 1]
            } else {
                None
            },
            if 0 <= k - 1 < row.len() {
                row[k - 1]
            } else {
                None
            },
        )
    }
}

/// The record a whole data row yields.
pub open spec fn record_of(
    hs: Seq<Option<Seq<char>>>,
    row: Seq<Option<Seq<char>>>,
    b: Baselines,
) -> ControlV {
    row_fold(hs, row, row.len() as int, b)
}

/// The normalized header names of the sheet, by column.
pub open spec fn headers_of(sv: Seq<Seq<Option<Seq<char>>>>) -> Seq<Option<Seq<char>>> {
    if sv.len() >= 2 {
        sv[1].map(
            |j: int, c: Option<Seq<char>>|
                match c {
                    Some(t) => Some(collapse_ws(t)),
                    None => None,
                },
        )
    } else {
        Seq::<Option<Seq<char>>>::empty()
    }
}

/// The identifier-to-record mapping that the first `k` rows of the
/// sheet yield: data rows start at the third row, rows with empty
/// identifiers are dropped, and a later row overwrites an earlier one
/// with the same identifier.
pub open spec fn parsed_up_to(
    sv: Seq<Seq<Option<Seq<char>>>>,
    b: Baselines,
    k: int,
) -> Map<IdV, ControlV>
    decreases k,
{
    if k <= 2 {
        Map::<IdV, ControlV>::empty()
    } else {
        let m = parsed_up_to(sv, b, k - 1);
        let c = record_of(headers_of(sv), sv[k - 1], b);
        if !id_is_empty(c.id) {
            m.insert(c.id, c)
        } else {
            m
        }
    }
}

/// The identifier-to-record mapping of the whole sheet.
pub open spec fn parsed_sheet(sv: Seq<Seq<Option<Seq<char>>>>, b: Baselines) -> Map<
    IdV,
    ControlV,
> {
    parsed_up_to(sv, b, sv.len() as int)
}

fn set_assignment_exec(c: &mut Control, level: Baselines, t: String)
    ensures
        final(c)@ == set_assignment(old(c)@, level, t@),
{
    let p0 = match c.parameter(level) {
        Some(p) => p.clone(),
        None => Parameters::new(),
    };
    let p1 = Parameters { assignment: t, additional: p0.additional };
    proof {
        assert(opt_param_view(Some(p1)) == Some(
            ParamV {
                assignment: p1.assignment@,
                ..match param_of(old(c)@, level) {
                    Some(p) => p,
                    None => empty_param(),
                }
            },
        ));
    }
    c.set_parameter(level, Some(p1));
}

fn set_additional_exec(c: &mut Control, level: Baselines, t: String)
    ensures
        final(c)@ == set_additional(old(c)@, level, t@),
{
    let p0 = match c.parameter(level) {
        Some(p) => p.clone(),
        None => Parameters::new(),
    };
    let p1 = Parameters { assignment: p0.assignment, additional: t };
    proof {
        assert(opt_param_view(Some(p1)) == Some(
            ParamV {
                additional: p1.additional@,
                ..match param_of(old(c)@, level) {
                    Some(p) => p,
                    None => empty_param(),
                }
            },
        ));
    }
    c.set_parameter(level, Some(p1));
}

impl Controls {
    /// Parses one sheet for one baseline: a mapping from identifier to
    /// record in which only this baseline's parameter slot is
    /// populated.
    pub fn parse(sheet: &Sheet, baseline: Baselines) -> (r: Controls)
        ensures
            r.wf(),
            forall|x: IdV|
                #[trigger] has_id(r@, x) <==> parsed_sheet(sheet@, baseline).dom().contains(x),
            forall|x: IdV|
                #[trigger] has_id(r@, x) ==> get_id(r@, x) == parsed_sheet(sheet@, baseline)[x],
    {
        let ghost sv = sheet@;
        let ghost hs = headers_of(sv);
        let nrows = sheet.cells.len();
        // normalized header names of the second row
        let mut hvec: Vec<Option<Vec<char>>> = Vec::new();
        if nrows >= 2 {
            let hrow = &sheet.cells[1];
            let w = hrow.len();
            let mut j: usize = 0;
            proof {
                assert(sv[1] == sheet.cells@[1]@.map(
                    |jj: int, c: Option<String>| opt_str_view(c),
                ));
                assert(hs.len() == w);
            }
            while j < w
                invariant
                    j <= w,
                    w == hrow@.len(),
                    hrow@ == sheet.cells@[1]@,
                    sv == sheet@,
                    hs == headers_of(sv),
                    2 <= sheet.cells@.len(),
                    hs.len() == w,
                    hvec@.len() == j,
                    forall|t: int| 0 <= t < j ==> opt_chars_view(#[trigger] hvec@[t]) == hs[t],
                decreases w - j,
            {
                let h = match &hrow[j] {
                    Some(s) => Some(collapse_chars(&str_to_chars(s.as_str()))),
                    None => None,
                };
                proof {
                    assert(sv[1] == sheet.cells@[1]@.map(
                        |jj: int, c: Option<String>| opt_str_view(c),
                    ));
                    assert(sv[1][j as int] == opt_str_view(hrow@[j as int]));
                }
                hvec.push(h);
                j = j + 1;
            }
        }
        let nh = hvec.len();
        let mut res = Controls::new();
        let mut k: usize = 2;
        proof {
            if nrows < 2 {
                assert(hs.len() == 0);
            }
            assert(nh == hs.len());
            assert(parsed_up_to(sv, baseline, 2).dom() =~= Set::<IdV>::empty());
        }
        while k < nrows
            invariant
                2 <= k <= nrows || (nrows < 2 && k == 2),
                nrows == sheet.cells@.len(),
                sv == sheet@,
                hs == headers_of(sv),
                nh == hvec@.len(),
                nh == hs.len(),
                forall|t: int| 0 <= t < nh ==> opt_chars_view(#[trigger] hvec@[t]) == hs[t],
                res.wf(),
                forall|x: IdV|
                    #[trigger] has_id(res@, x) <==> parsed_up_to(sv, baseline, k as int).dom()
                        .contains(x),
                forall|x: IdV|
                    #[trigger] has_id(res@, x) ==> get_id(res@, x) == parsed_up_to(
                        sv,
                        baseline,
                        k as int,
                    )[x],
            decreases nrows - k,
        {
            let row = &sheet.cells[k];
            let w = row.len();
            proof {
                assert(sv[k as int] == sheet.cells@[k as int]@.map(
                    |jj: int, c: Option<String>| opt_str_view(c),
                ));
                assert(sv[k as int].len() == w);
            }
            let mut control = Control::default();
            control.set_parameter(baseline, Some(Parameters::new()));
            proof {
                assert(control@ =~= init_record(baseline));
                assert(control@ == row_fold(hs, sv[k as int], 0, baseline));
            }
            let mut j: usize = 0;
            while j < w
                invariant
                    j <= w,
                    w == row@.len(),
                    row@ == sheet.cells@[k as int]@,
                    k < sheet.cells@.len(),
                    sv == sheet@,
                    hs == headers_of(sv),
                    nh == hvec@.len(),
                    nh == hs.len(),
                    sv[k as int].len() == w,
                    forall|t: int| 0 <= t < nh ==> opt_chars_view(#[trigger] hvec@[t]) == hs[t],
                    forall|t: int|
                        0 <= t < w ==> #[trigger] sv[k as int][t] == opt_str_view(row@[t]),
                    control@ == row_fold(hs, sv[k as int], j as int, baseline),
                decreases w - j,
            {
                let ghost accv = control@;
                if j < nh {
                    let hopt = &hvec[j];
                    let vopt = &row[j];
                    match (hopt, vopt) {
                        (Some(hname), Some(valtext)) => {
                            let kind = route_exec(hname);
                            match kind {
                                FieldKind::Id => {
                                    match ControlID::parse(valtext.as_str()) {
                                        Ok(idv) => {
                                            control.id = idv;
                                        },
                                        Err(_) => {},
                                    }
                                },
                                FieldKind::Name => {
                                    control.name = trim_text(valtext.as_str());
                                },
                                FieldKind::Description => {
                                    control.description = trim_text(valtext.as_str());
                                },
                                FieldKind::Discussion => {
                                    control.discussion = trim_text(valtext.as_str());
                                },
                                FieldKind::Assignment => {
                                    let t = trim_text(valtext.as_str());
                                    set_assignment_exec(&mut control, baseline, t);
                                },
                                FieldKind::Additional => {
                                    let t = trim_text(valtext.as_str());
                                    set_additional_exec(&mut control, baseline, t);
                                },
                                FieldKind::Other => {},
                            }
                        },
                        _ => {},
                    }
                }
                proof {
                    assert(control@ =~= apply_cell(
                        accv,
                        baseline,
                        if (j as int) < hs.len() {
                            hs[j as int]
                        } else {
                            None
                        },
                        sv[k as int][j as int],
                    ));
                    assert(control@ == row_fold(hs, sv[k as int], j as int + 1, baseline));
                }
                j = j + 1;
            }
            proof {
                assert(control@ == record_of(hs, sv[k as int], baseline));
            }
            let ghost mpre = parsed_up_to(sv, baseline, k as int);
            let ghost mpost = parsed_up_to(sv, baseline, k as int + 1);
            if !control.id.is_empty() {
                res.upsert(control);
                proof {
                    assert forall|x: IdV| #[trigger] has_id(res@, x) <==> mpost.dom().contains(
                        x,
                    ) by {}
                    assert forall|x: IdV| #[trigger] has_id(res@, x) implies get_id(res@, x)
                        == mpost[x] by {}
                }
            } else {
                proof {
                    assert(mpost =~= mpre);
                }
            }
            k = k + 1;
        }
        proof {
            if nrows < 2 {
                assert(parsed_sheet(sv, baseline).dom() =~= Set::<IdV>::empty());
            }
        }
        res
    }
}

} // verus!