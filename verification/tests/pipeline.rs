use fedramp_controls::baselines::Baselines;
use fedramp_controls::control_id::ControlID;
use fedramp_controls::controls::{merge_controls, Control, Controls};
use fedramp_controls::layout::tabulate_controls;
use fedramp_controls::params::Parameters;
use fedramp_controls::sheet::Sheet;

fn cell(t: &str) -> Option<String> {
    Some(t.to_string())
}

fn sheet_rows(rows: Vec<Vec<Option<String>>>) -> Sheet {
    Sheet { cells: rows }
}

fn standard_sheet(data: Vec<Vec<Option<String>>>) -> Sheet {
    let mut rows = vec![
        vec![cell("Some Title")],
        vec![
            cell("ID"),
            cell("Control Name"),
            cell("NIST Control Description text"),
            cell("NIST Discussion text"),
            cell("FedRAMP Assignment / Selection of parameters"),
            cell("Additional guidance"),
        ],
    ];
    rows.extend(data);
    sheet_rows(rows)
}

fn record_with(
    id_text: &str,
    high: Option<(&str, &str)>,
    moderate: Option<(&str, &str)>,
    low: Option<(&str, &str)>,
) -> Control {
    let mk = |p: Option<(&str, &str)>| {
        p.map(|(a, d)| Parameters { assignment: a.to_string(), additional: d.to_string() })
    };
    Control {
        id: ControlID::parse(id_text).unwrap(),
        name: String::new(),
        description: String::new(),
        discussion: String::new(),
        params_high: mk(high),
        params_moderate: mk(moderate),
        params_low: mk(low),
    }
}

#[test]
fn sheet_row_yields_single_baseline_record() {
    let sheet = standard_sheet(vec![vec![
        cell("AC-2"),
        cell("Access Enforcement"),
        cell("a description"),
        cell("a discussion"),
        cell("high-only assignment"),
        cell("extra guidance"),
    ]]);
    let parsed = Controls::parse(&sheet, Baselines::High);
    assert_eq!(parsed.len(), 1);
    let rec = parsed.record_at(0);
    assert!(!rec.id.is_empty());
    assert_eq!(rec.id.to_display_text(), "AC-2");
    assert_eq!(rec.name, "Access Enforcement");
    assert_eq!(rec.description, "a description");
    assert_eq!(rec.discussion, "a discussion");
    let high = rec.params_high.as_ref().expect("high slot populated");
    assert_eq!(high.assignment, "high-only assignment");
    assert_eq!(high.additional, "extra guidance");
    assert!(rec.params_moderate.is_none());
    assert!(rec.params_low.is_none());
}

#[test]
fn sheet_values_are_trimmed_and_headers_normalized() {
    let mut rows = vec![
        vec![cell("Title")],
        vec![cell("ID"), cell("Control \t Name"), cell("has Assignment / Selection inside")],
    ];
    rows.push(vec![cell("  AU-6  "), cell("  Audit Review  "), cell("  params  ")]);
    let parsed = Controls::parse(&sheet_rows(rows), Baselines::Moderate);
    assert_eq!(parsed.len(), 1);
    let rec = parsed.record_at(0);
    assert_eq!(rec.id.to_display_text(), "AU-6");
    assert_eq!(rec.name, "Audit Review");
    assert_eq!(rec.params_moderate.as_ref().unwrap().assignment, "params");
}

#[test]
fn unparseable_identifier_drops_row() {
    let sheet = standard_sheet(vec![
        vec![cell("nonsense"), cell("No Id Here")],
        vec![None, cell("Missing Id")],
        vec![cell("AC-3"), cell("Kept")],
    ]);
    let parsed = Controls::parse(&sheet, Baselines::Low);
    assert_eq!(parsed.len(), 1);
    assert_eq!(parsed.record_at(0).name, "Kept");
}

#[test]
fn later_row_overwrites_same_identifier() {
    let sheet = standard_sheet(vec![
        vec![cell("AC-2"), cell("First")],
        vec![cell("AC-2"), cell("Second")],
    ]);
    let parsed = Controls::parse(&sheet, Baselines::High);
    assert_eq!(parsed.len(), 1);
    assert_eq!(parsed.record_at(0).name, "Second");
}

#[test]
fn unrecognized_columns_are_ignored() {
    let mut rows = vec![
        vec![cell("Title")],
        vec![cell("ID"), cell("Whatever Else"), cell("Control Name")],
    ];
    rows.push(vec![cell("SC-7"), cell("junk"), cell("Boundary Protection")]);
    let parsed = Controls::parse(&sheet_rows(rows), Baselines::High);
    let rec = parsed.record_at(0);
    assert_eq!(rec.name, "Boundary Protection");
}

#[test]
fn empty_sheet_yields_no_records() {
    let parsed = Controls::parse(&sheet_rows(vec![]), Baselines::High);
    assert_eq!(parsed.len(), 0);
}

#[test]
fn whitespace_equivalent_parameters_are_not_distinct() {
    let rec = record_with("AC-2", Some(("Foo   Bar", "")), Some(("Foo Bar", "")), None);
    assert!(!rec.distinct_parameters());
}

#[test]
fn edge_whitespace_is_disregarded_by_the_variation_decision() {
    let rec = record_with("AC-2", Some(("  Foo   Bar ", "")), Some(("Foo Bar", "")), None);
    assert!(!rec.distinct_parameters());
}

#[test]
fn unicode_whitespace_is_normalized_too() {
    // a non-breaking space between the words, ordinary spaces around
    let rec = record_with("AC-2", Some(("Foo\u{a0}Bar", "")), Some((" Foo Bar", "")), None);
    assert!(!rec.distinct_parameters());
}

#[test]
fn differing_parameters_are_distinct() {
    let rec = record_with("AC-2", Some(("Foo", "")), Some(("Bar", "")), None);
    assert!(rec.distinct_parameters());
}

#[test]
fn absent_slots_are_left_out_of_the_variation_decision() {
    let rec = record_with("AC-2", Some(("Foo", "guide")), None, None);
    assert!(!rec.distinct_parameters());
    let none = record_with("AC-2", None, None, None);
    assert!(!none.distinct_parameters());
}

#[test]
fn flatten_collapses_whitespace_runs_and_trims_edges() {
    let p = Parameters {
        assignment: "a \t\t b\n\nc".to_string(),
        additional: "  x  y ".to_string(),
    };
    let f = p.flatten();
    assert_eq!(f.assignment, "a b c");
    assert_eq!(f.additional, "x y");
}

#[test]
fn merge_keys_cover_the_union_of_baselines() {
    let high = standard_sheet(vec![vec![
        cell("AC-2"),
        cell("Account Management"),
        cell("desc"),
        cell("disc"),
        cell("h-assign"),
        cell("h-add"),
    ]]);
    let moderate = standard_sheet(vec![
        vec![cell("AC-2"), cell("ignored name"), cell("ignored"), cell("ignored"), cell("m-assign"), cell("m-add")],
        vec![cell("AU-6"), cell("Audit Review"), cell("au desc"), cell("au disc"), cell("au-m"), cell("")],
    ]);
    let low = standard_sheet(vec![vec![
        cell("AU-6"),
        cell("ignored"),
        cell("ignored"),
        cell("ignored"),
        cell("au-l"),
        cell(""),
    ]]);
    let h = Controls::parse(&high, Baselines::High);
    let m = Controls::parse(&moderate, Baselines::Moderate);
    let l = Controls::parse(&low, Baselines::Low);
    let merged = merge_controls(&h, &m, &l);
    assert_eq!(merged.len(), 2);

    let ac2 = merged.get(&ControlID::parse("AC-2").unwrap()).expect("AC-2 present");
    assert_eq!(ac2.name, "Account Management");
    assert_eq!(ac2.description, "desc");
    assert_eq!(ac2.params_high.as_ref().unwrap().assignment, "h-assign");
    assert_eq!(ac2.params_moderate.as_ref().unwrap().assignment, "m-assign");
    assert!(ac2.params_low.is_none());

    // present only in Moderate and Low: still included, narrative empty
    let au6 = merged.get(&ControlID::parse("AU-6").unwrap()).expect("AU-6 present");
    assert_eq!(au6.name, "");
    assert_eq!(au6.description, "");
    assert_eq!(au6.discussion, "");
    assert!(au6.params_high.is_none());
    assert_eq!(au6.params_moderate.as_ref().unwrap().assignment, "au-m");
    assert_eq!(au6.params_low.as_ref().unwrap().assignment, "au-l");
}

#[test]
fn merged_records_come_out_in_identifier_order() {
    let high = standard_sheet(vec![
        vec![cell("AU-1"), cell("Later")],
        vec![cell("AC-2 (1)"), cell("Middle")],
        vec![cell("AC-2"), cell("First")],
    ]);
    let h = Controls::parse(&high, Baselines::High);
    let merged = merge_controls(&h, &Controls::new(), &Controls::new());
    assert_eq!(merged.len(), 3);
    assert_eq!(merged.record_at(0).id.to_display_text(), "AC-2");
    assert_eq!(merged.record_at(1).id.to_display_text(), "AC-2 (1)");
    assert_eq!(merged.record_at(2).id.to_display_text(), "AU-1");
}

#[test]
fn without_baseline_clears_exactly_one_slot() {
    let mut c = Controls::new();
    c.upsert(record_with("AC-2", Some(("h", "hh")), Some(("m", "mm")), Some(("l", "ll"))));
    let filtered = c.without_baseline(Baselines::Low);
    assert_eq!(filtered.len(), 1);
    let rec = filtered.record_at(0);
    assert!(rec.params_low.is_none());
    assert_eq!(rec.params_high.as_ref().unwrap().assignment, "h");
    assert_eq!(rec.params_moderate.as_ref().unwrap().assignment, "m");
    // the original set is untouched
    assert!(c.record_at(0).params_low.is_some());
}

#[test]
fn layout_of_shared_record_is_one_row_with_span_one() {
    let mut c = Controls::new();
    let mut rec = record_with("AC-2", Some(("same", "also same")), Some(("same", "also same")), None);
    rec.name = "A Name".to_string();
    c.upsert(rec);
    let rows = tabulate_controls(&c);
    assert_eq!(rows.len(), 1);
    let row = &rows[0];
    assert_eq!(row.class, "shared");
    assert_eq!(row.cells.len(), 10);
    for cellv in &row.cells {
        assert_eq!(cellv.rowspan, Some(1));
    }
    assert_eq!(row.cells[0].text, "AC-2");
    assert_eq!(row.cells[1].text, "\u{2713}");
    assert_eq!(row.cells[2].text, "\u{2713}");
    assert_eq!(row.cells[3].text, "");
    assert_eq!(row.cells[4].text, "A Name");
    // shared parameter cells come from the first populated slot
    assert_eq!(row.cells[7].text, "");
    assert_eq!(row.cells[8].text, "same");
    assert_eq!(row.cells[9].text, "also same");
}

#[test]
fn layout_of_distinct_record_is_four_rows_with_span_four() {
    let mut c = Controls::new();
    c.upsert(record_with("AC-2", Some(("h", "")), Some(("m", "")), None));
    let rows = tabulate_controls(&c);
    assert_eq!(rows.len(), 4);
    let shared = &rows[0];
    assert_eq!(shared.class, "shared");
    assert_eq!(shared.cells.len(), 7);
    for cellv in &shared.cells {
        assert_eq!(cellv.rowspan, Some(4));
    }
    assert_eq!(rows[1].class, "parameters High");
    assert_eq!(rows[1].cells.len(), 3);
    assert_eq!(rows[1].cells[0].text, "High");
    assert_eq!(rows[1].cells[1].text, "h");
    assert_eq!(rows[2].class, "parameters Moderate");
    assert_eq!(rows[2].cells[0].text, "Moderate");
    // the absent Low slot still gets an empty placeholder row
    assert_eq!(rows[3].class, "parameters Low");
    assert_eq!(rows[3].cells.len(), 0);
}

#[test]
fn name_separator_becomes_line_break_in_layout() {
    let mut c = Controls::new();
    let mut rec = record_with("AC-2", Some(("x", "")), None, None);
    rec.name = "Part One | Part Two".to_string();
    c.upsert(rec);
    let rows = tabulate_controls(&c);
    assert_eq!(rows[0].cells[4].text, "Part One\nPart Two");
}

#[test]
fn filtered_layout_never_marks_the_cleared_baseline() {
    let mut c = Controls::new();
    c.upsert(record_with("AC-2", Some(("h", "")), Some(("m", "")), Some(("l", ""))));
    let filtered = c.without_baseline(Baselines::Low);
    let rows = tabulate_controls(&filtered);
    // still distinct through High and Moderate: four rows
    assert_eq!(rows.len(), 4);
    // no Low presence marker on the shared row
    assert_eq!(rows[0].cells[3].text, "");
    // the Low detail row is an empty placeholder
    assert_eq!(rows[3].class, "parameters Low");
    assert_eq!(rows[3].cells.len(), 0);
}

#[test]
fn baseline_labels_match_the_tab_names() {
    assert_eq!(Baselines::High.as_str(), "High Baseline");
    assert_eq!(Baselines::Moderate.as_str(), "Moderate Baseline");
    assert_eq!(Baselines::Low.as_str(), "Low Baseline");
    assert_eq!(Baselines::High.short(), "High");
    assert_eq!(Baselines::Moderate.short(), "Moderate");
    assert_eq!(Baselines::Low.short(), "Low");
}
