use migjorn::diagnostic::{Diagnostic, Severity};
use migjorn::model::Model;

fn summary(m: &Model) -> Vec<(Severity, String, usize, usize)> {
    m.diagnostics()
        .iter()
        .map(|d: &Diagnostic| {
            (
                d.severity,
                String::from_utf8(d.message.clone()).unwrap(),
                d.span.start,
                d.span.end,
            )
        })
        .collect()
}

#[test]
fn a_clean_model_reports_nothing() {
    let m = Model::parse("t\n1 1 -1.0 -1 imp:n=1\n\n1 SO 5\n\nm1 1001 1\n");
    assert!(m.diagnostics().is_empty());
}

#[test]
fn a_second_definition_of_an_id_is_an_error() {
    let m = Model::parse("t\n1 0 -1\n1 0 -2\n\n1 SO 5\n\n");
    assert_eq!(
        summary(&m),
        vec![(Severity::Error, "duplicate cell id 1".to_string(), 0, 0)]
    );
    // the first definition is the one a lookup finds
    assert_eq!(m.cell(1).unwrap().slot(), 1);
}

#[test]
fn an_unknown_token_is_a_warning_spanning_it() {
    let src = "t\n1 0 -1\n\n1 SO 5\n\nprint @x\n";
    let m = Model::parse(src);
    assert_eq!(
        summary(&m),
        vec![(Severity::Warning, "unrecognized token `@x`".to_string(), 24, 26)]
    );
    assert_eq!(&src[24..26], "@x");
}

#[test]
fn a_cell_without_an_id_is_an_error_and_malformed() {
    let m = Model::parse("t\nx 0 -1\n\n1 SO 5\n\n");
    assert_eq!(
        summary(&m),
        vec![
            (Severity::Error, "cell card has no readable id".to_string(), 2, 9),
            (Severity::Warning, "cell is not well formed".to_string(), 2, 9),
        ]
    );
}

#[test]
fn a_surface_without_coefficients_is_malformed() {
    let m = Model::parse("t\n1 0 -1\n\n1 SO\n\n");
    assert_eq!(
        summary(&m),
        vec![(Severity::Warning, "surface 1 is not well formed".to_string(), 10, 15)]
    );
}

#[test]
fn a_material_entry_without_a_fraction_is_reported() {
    let m = Model::parse("t\n1 0 -1\n\n1 SO 5\n\nm1 1001\n");
    assert_eq!(
        summary(&m),
        vec![(Severity::Warning, "material 1 has an unreadable entry".to_string(), 18, 26)]
    );
}

#[test]
fn duplicates_come_before_card_reports() {
    let m = Model::parse("t\n1 0 -1\n\n1 SO 5\n2 SO\n\ntr3 0 0 0\ntr3 1 1 1\n");
    let s = summary(&m);
    assert_eq!(s.len(), 2);
    assert_eq!(s[0], (Severity::Error, "duplicate transform id 3".to_string(), 0, 0));
    assert_eq!(s[1].0, Severity::Warning);
    assert_eq!(s[1].1, "surface 2 is not well formed");
    assert_eq!((s[1].2, s[1].3), (17, 22));
}

#[test]
fn edits_leave_the_diagnostics_of_the_parse() {
    let mut m = Model::parse("t\n1 0 -1\n1 0 -2\n\n1 SO 5\n\n");
    assert_eq!(m.diagnostics().len(), 1);
    let s = m.cell(1).unwrap().slot();
    m.set_cell_id(s, 7).unwrap();
    assert_eq!(m.diagnostics().len(), 1);
}
