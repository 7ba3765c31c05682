//! The row/cell layout of the comparison table.
//!
//! Records are walked in ascending identifier order.  Each record gets
//! one shared row; a record whose baselines carry distinct parameter
//! text gets three detail rows besides, one per baseline, and the
//! shared row's cells span all four physical rows.

use vstd::prelude::*;
use vstd::string::*;
use crate::baselines::{Baselines, short_name};
use crate::control_id::display_of;
use crate::controls::{Control, ControlV, Controls, distinct_spec, param_of};
use crate::params::{ParamV, empty_param, Parameters};
use crate::text::{replace_seps, replace_seps_chars, str_to_chars, chars_to_string, push_char};

verus! {

/// Mathematical value of a [`Cell`].
#[verifier::ext_equal]
pub ghost struct CellV {
    pub text: Seq<char>,
    pub rowspan: Option<int>,
}

/// Mathematical value of a [`Row`].
#[verifier::ext_equal]
pub ghost struct RowV {
    pub class: Seq<char>,
    pub cells: Seq<CellV>,
}

/// One table cell: its text and, for shared-row cells, how many
/// physical rows it spans.
#[derive(Debug)]
pub struct Cell {
    pub text: String,
    pub rowspan: Option<usize>,
}

impl View for Cell {
    type V = CellV;

    open spec fn view(&self) -> CellV {
        CellV {
            text: self.text@,
            rowspan: match self.rowspan {
                Some(n) => Some(n as int),
                None => None,
            },
        }
    }
}

/// One table row: a style class and its cells in order.
#[derive(Debug)]
pub struct Row {
    pub class: String,
    pub cells: Vec<Cell>,
}

impl View for Row {
    type V = RowV;

    open spec fn view(&self) -> RowV {
        RowV { class: self.class@, cells: self.cells@.map(|i: int, c: Cell| c@) }
    }
}

pub open spec fn rows_view(s: Seq<Row>) -> Seq<RowV> {
    s.map(|i: int, r: Row| r@)
}

// ---------------------------------------------------------------------
// The owed layout, as spec functions
// ---------------------------------------------------------------------

/// The presence marker: a check glyph for a populated slot, empty text
/// otherwise.
pub open spec fn tick_of(o: Option<ParamV>) -> Seq<char> {
    if o is Some {
        seq!['\u{2713}']
    } else {
        Seq::<char>::empty()
    }
}

/// How many physical rows each shared-row cell spans: itself plus one
/// detail row per baseline when the record has distinct variation.
pub open spec fn rowspan_of(c: ControlV) -> int {
    if distinct_spec(c) {
        4
    } else {
        1
    }
}

/// The first populated parameter slot in baseline-enumeration order,
/// or the empty pair when no slot is populated.
pub open spec fn first_param(c: ControlV) -> ParamV {
    if c.high is Some {
        c.high.unwrap()
    } else if c.moderate is Some {
        c.moderate.unwrap()
    } else if c.low is Some {
        c.low.unwrap()
    } else {
        empty_param()
    }
}

/// The cells every shared row carries: identifier text, one presence
/// marker per baseline, the name with its separators rewritten to line
/// breaks, the description and the discussion.
pub open spec fn shared_cells(c: ControlV) -> Seq<CellV> {
    let sp = Some(rowspan_of(c));
    seq![
        CellV { text: display_of(c.id), rowspan: sp },
        CellV { text: tick_of(c.high), rowspan: sp },
        CellV { text: tick_of(c.moderate), rowspan: sp },
        CellV { text: tick_of(c.low), rowspan: sp },
        CellV { text: replace_seps(c.name), rowspan: sp },
        CellV { text: c.description, rowspan: sp },
        CellV { text: c.discussion, rowspan: sp },
    ]
}

/// The shared row; without distinct variation it also carries an empty
/// level cell and the parameter text of the first populated slot.
pub open spec fn shared_row(c: ControlV) -> RowV {
    RowV {
        class: "shared"@,
        cells: if distinct_spec(c) {
            shared_cells(c)
        } else {
            shared_cells(c) + seq![
                CellV { text: Seq::<char>::empty(), rowspan: Some(1int) },
                CellV { text: first_param(c).assignment, rowspan: Some(1int) },
                CellV { text: first_param(c).additional, rowspan: Some(1int) },
            ]
        },
    }
}

pub open spec fn detail_class(b: Baselines) -> Seq<char> {
    "parameters "@ + short_name(b)
}

/// One baseline's detail row: the baseline's label and raw parameter
/// text when its slot is populated, an empty placeholder row otherwise
/// (which preserves the row-span arithmetic).
pub open spec fn detail_row(c: ControlV, b: Baselines) -> RowV {
    RowV {
        class: detail_class(b),
        cells: match param_of(c, b) {
            Some(p) => seq![
                CellV { text: short_name(b), rowspan: None },
                CellV { text: p.assignment, rowspan: None },
                CellV { text: p.additional, rowspan: None },
            ],
            None => Seq::<CellV>::empty(),
        },
    }
}

/// All physical rows of one record.
pub open spec fn rows_for(c: ControlV) -> Seq<RowV> {
    if distinct_spec(c) {
        seq![
            shared_row(c),
            detail_row(c, Baselines::High),
            detail_row(c, Baselines::Moderate),
            detail_row(c, Baselines::Low),
        ]
    } else {
        seq![shared_row(c)]
    }
}

/// The rows of a whole record sequence, in order.
pub open spec fn layout_seq(s: Seq<ControlV>) -> Seq<RowV>
    decreases s.len(),
{
    if s.len() == 0 {
        Seq::<RowV>::empty()
    } else {
        rows_for(s[0]) + layout_seq(s.skip(1))
    }
}

pub proof fn lemma_layout_seq_snoc(s: Seq<ControlV>, k: int)
    requires
        0 <= k < s.len(),
    ensures
        layout_seq(s.take(k + 1)) == layout_seq(s.take(k)) + rows_for(s[k]),
    decreases k,
{
    if k == 0 {
        assert(s.take(1).len() == 1);
        assert(s.take(1)[0] == s[0]);
        assert(s.take(1).skip(1) =~= Seq::<ControlV>::empty());
        assert(s.take(0) =~= Seq::<ControlV>::empty());
        assert(layout_seq(s.take(1)) =~= layout_seq(s.take(0)) + rows_for(s[0]));
    } else {
        lemma_layout_seq_snoc(s.skip(1), k - 1);
        assert(s.take(k + 1).len() == k + 1);
        assert(s.take(k + 1)[0] == s[0]);
        assert(s.take(k)[0] == s[0]);
        assert(s.take(k + 1).skip(1) =~= s.skip(1).take(k));
        assert(s.take(k).skip(1) =~= s.skip(1).take(k - 1));
        assert(s.skip(1)[k - 1] == s[k]);
        assert(layout_seq(s.take(k + 1)) =~= layout_seq(s.take(k)) + rows_for(s[k]));
    }
}

// ---------------------------------------------------------------------
// Executable layout
// ---------------------------------------------------------------------

fn tick_cell(populated: bool, span: usize) -> (r: Cell)
    ensures
        r@.rowspan == Some(span as int),
        populated ==> r@.text == seq!['\u{2713}'],
        !populated ==> r@.text == Seq::<char>::empty(),
{
    if populated {
        let mut t = String::new();
        push_char(&mut t, '\u{2713}');
        Cell { text: t, rowspan: Some(span) }
    } else {
        Cell { text: String::new(), rowspan: Some(span) }
    }
}

fn detail_row_exec(c: &Control, level: Baselines) -> (r: Row)
    ensures
        r@ == detail_row(c@, level),
{
    let mut class = str_to_chars("parameters ");
    let mut sh = str_to_chars(level.short());
    class.append(&mut sh);
    let class_s = chars_to_string(&class);
    let cells: Vec<Cell> = match c.parameter(level) {
        Some(p) => {
            let mut v: Vec<Cell> = Vec::new();
            v.push(Cell { text: String::from_str(level.short()), rowspan: None });
            v.push(Cell { text: p.assignment.clone(), rowspan: None });
            v.push(Cell { text: p.additional.clone(), rowspan: None });
            v
        },
        None => Vec::new(),
    };
    let r = Row { class: class_s, cells };
    proof {
        assert(r@.class =~= detail_class(level));
        assert(r@.cells =~= detail_row(c@, level).cells);
        assert(r@ =~= detail_row(c@, level));
    }
    r
}

fn rows_for_control(c: &Control) -> (v: Vec<Row>)
    ensures
        rows_view(v@) == rows_for(c@),
{
    let distinct = c.distinct_parameters();
    let span: usize = if distinct {
        4
    } else {
        1
    };
    let mut cells: Vec<Cell> = Vec::new();
    cells.push(Cell { text: c.id.to_display_text(), rowspan: Some(span) });
    cells.push(tick_cell(c.params_high.is_some(), span));
    cells.push(tick_cell(c.params_moderate.is_some(), span));
    cells.push(tick_cell(c.params_low.is_some(), span));
    cells.push(
        Cell {
            text: chars_to_string(&replace_seps_chars(&str_to_chars(c.name.as_str()))),
            rowspan: Some(span),
        },
    );
    cells.push(Cell { text: c.description.clone(), rowspan: Some(span) });
    cells.push(Cell { text: c.discussion.clone(), rowspan: Some(span) });
    proof {
        assert(cells@.map(|i: int, x: Cell| x@) =~= shared_cells(c@));
    }
    if !distinct {
        cells.push(Cell { text: String::new(), rowspan: Some(1) });
        let p: Parameters = match c.parameter(Baselines::High) {
            Some(p) => p.clone(),
            None => match c.parameter(Baselines::Moderate) {
                Some(p) => p.clone(),
                None => match c.parameter(Baselines::Low) {
                    Some(p) => p.clone(),
                    None => Parameters::new(),
                },
            },
        };
        proof {
            assert(p@ == first_param(c@));
        }
        cells.push(Cell { text: p.assignment, rowspan: Some(1) });
        cells.push(Cell { text: p.additional, rowspan: Some(1) });
    }
    let shared = Row { class: String::from_str("shared"), cells };
    proof {
        assert(shared@ =~= shared_row(c@));
    }
    let mut v: Vec<Row> = Vec::new();
    v.push(shared);
    if distinct {
        v.push(detail_row_exec(c, Baselines::High));
        v.push(detail_row_exec(c, Baselines::Moderate));
        v.push(detail_row_exec(c, Baselines::Low));
    }
    proof {
        assert(rows_view(v@) =~= rows_for(c@));
    }
    v
}

/// Computes the layout of the whole record set, in ascending identifier
/// order: exactly the rows of [`layout_seq`].
pub fn tabulate_controls(controls: &Controls) -> (r: Vec<Row>)
    requires
        controls.wf(),
    ensures
        rows_view(r@) == layout_seq(controls@),
{
    let n = controls.len();
    let mut out: Vec<Row> = Vec::new();
    let mut k: usize = 0;
    proof {
        assert(controls@.take(0) =~= Seq::<ControlV>::empty());
        assert(rows_view(out@) =~= layout_seq(controls@.take(0)));
    }
    while k < n
        invariant
            k <= n,
            n == controls@.len(),
            controls.wf(),
            rows_view(out@) == layout_seq(controls@.take(k as int)),
        decreases n - k,
    {
        let c = controls.record_at(k);
        let mut rows = rows_for_control(c);
        let ghost oldout = out@;
        let ghost rowsv = rows@;
        out.append(&mut rows);
        proof {
            assert(rows_view(out@) =~= rows_view(oldout) + rows_view(rowsv));
            lemma_layout_seq_snoc(controls@, k as int);
            assert(rows_view(out@) =~= layout_seq(controls@.take(k as int + 1)));
        }
        k = k + 1;
    }
    proof {
        assert(controls@.take(n as int) =~= controls@);
    }
    out
}

// ---------------------------------------------------------------------
// Laws of the layout
// ---------------------------------------------------------------------

/// Position of a baseline's presence-marker cell in the shared row.
pub open spec fn marker_index(b: Baselines) -> int {
    match b {
        Baselines::High => 1,
        Baselines::Moderate => 2,
        Baselines::Low => 3,
    }
}

/// Law: a record without distinct variation yields exactly one row, and
/// every cell of that row spans exactly one physical row; a record with
/// distinct variation yields four rows (one shared and one per
/// baseline), and every cell of the shared row spans all four.
pub proof fn lemma_rows_for_shape(c: ControlV)
    ensures
        !distinct_spec(c) ==> rows_for(c).len() == 1,
        !distinct_spec(c) ==> forall|i: int|
            0 <= i < rows_for(c)[0].cells.len() ==> #[trigger] rows_for(c)[0].cells[i].rowspan
                == Some(1int),
        distinct_spec(c) ==> rows_for(c).len() == 4,
        distinct_spec(c) ==> forall|i: int|
            0 <= i < rows_for(c)[0].cells.len() ==> #[trigger] rows_for(c)[0].cells[i].rowspan
                == Some(4int),
{
    assert(rows_for(c)[0] == shared_row(c));
}

/// Law: a record whose slot for a baseline is absent shows an empty
/// presence marker for that baseline in the shared row, and that
/// baseline's detail row is an empty placeholder.
pub proof fn lemma_cleared_baseline_layout(c: ControlV, b: Baselines)
    requires
        param_of(c, b) is None,
    ensures
        rows_for(c)[0].cells[marker_index(b)].text == Seq::<char>::empty(),
        detail_row(c, b).cells.len() == 0,
{
    assert(rows_for(c)[0] == shared_row(c));
    assert(shared_row(c).cells[marker_index(b)] == shared_cells(c)[marker_index(b)]);
}

} // verus!