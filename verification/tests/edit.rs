use migjorn::edit::EditError;
use migjorn::model::Model;

const SRC: &str = "t\n1 1 -1.0 -1 imp:n=1\n2 0 1 imp:n=0\n\n1 SO 5\n\nm1 1001 1\n";

fn source(m: &Model) -> String {
    String::from_utf8(m.to_source()).unwrap()
}

fn slot_of_cell(m: &Model, id: i64) -> u32 {
    m.cell(id).unwrap().slot()
}

fn num(v: f64) -> String {
    format!("{v}")
}

fn read_f64(t: &[u8]) -> f64 {
    std::str::from_utf8(t).unwrap().parse::<f64>().unwrap()
}

fn density(m: &Model, id: i64) -> Option<f64> {
    m.cell(id).unwrap().density_text().map(read_f64)
}

fn surface_coeffs(m: &Model, id: i64) -> Vec<f64> {
    m.surface(id)
        .unwrap()
        .coeff_texts()
        .into_iter()
        .map(read_f64)
        .collect()
}

fn transform_coeffs(m: &Model, id: i64) -> Vec<f64> {
    m.transform(id)
        .unwrap()
        .value_texts()
        .into_iter()
        .map(read_f64)
        .collect()
}

fn material_entries(m: &Model, id: i64) -> Vec<(String, f64)> {
    m.material(id)
        .unwrap()
        .entry_texts()
        .into_iter()
        .map(|(z, f)| (String::from_utf8(z.to_vec()).unwrap(), read_f64(f)))
        .collect()
}

fn geometry_text(m: &Model, id: i64) -> String {
    String::from_utf8(m.cell(id).unwrap().geometry_text().to_vec()).unwrap()
}

#[test]
fn set_material_crosses_void_boundary_both_ways() {
    let mut m = Model::parse("t\n1 1 -1.0 -1 imp:n=1\n2 0 1 imp:n=0\n\n1 SO 5\n\nm1 1001 1\n");
    let s = slot_of_cell(&m, 2);

    m.set_cell_material(s, 5).unwrap();
    assert_eq!(m.cell(2).unwrap().material(), Some(5));
    assert!(!m.cell(2).unwrap().is_void());
    assert!(source(&m).contains("2 5 0 1 imp:n=0"));

    m.set_cell_material(s, 0).unwrap();
    assert!(m.cell(2).unwrap().is_void());
    assert_eq!(density(&m, 2), None);
    assert!(source(&m).contains("2 0 1 imp:n=0"));
}

#[test]
fn set_material_real_to_real_keeps_density() {
    let mut m = Model::parse("t\n1 1 -1.0 -1 imp:n=1\n\n1 SO 5\n\nm1 1001 1\n");
    let s = slot_of_cell(&m, 1);
    m.set_cell_material(s, 7).unwrap();
    assert_eq!(m.cell(1).unwrap().material(), Some(7));
    assert_eq!(density(&m, 1), Some(-1.0));
    assert!(source(&m).contains("1 7 -1.0 -1 imp:n=1"));
}

#[test]
fn set_density_replaces_only_the_density_field() {
    let mut m = Model::parse("t\n1 1 -1.0 -1 imp:n=1\n\n1 SO 5\n\nm1 1001 1\n");
    let s = slot_of_cell(&m, 1);
    m.set_cell_density(s, &num(-10.5)).unwrap();
    assert_eq!(density(&m, 1), Some(-10.5));
    assert!(source(&m).contains("1 1 -10.5 -1 imp:n=1"));
    let void = Model::parse("t\n1 0 -1 imp:n=1\n\n1 SO 5\n\nm1 1001 1\n");
    let mut void = void;
    let vs = slot_of_cell(&void, 1);
    assert!(void.set_cell_density(vs, &num(1.0)).is_err());
}

#[test]
fn set_param_preserves_the_rest_of_the_card() {
    let mut m = Model::parse("t\n1 1 -1.0 -1 imp:n=1 vol=3 $ keep\n\n1 SO 5\n\nm1 1001 1\n");
    let s = slot_of_cell(&m, 1);
    assert_eq!(m.set_cell_param(s, "imp:n", "2"), Ok(true));
    let out = source(&m);
    assert!(out.contains("imp:n=2"), "{out}");
    assert!(out.contains("vol=3"), "{out}");
    assert!(out.contains("$ keep"), "{out}");
    assert_eq!(m.set_cell_param(s, "tmp", "300"), Ok(false));
}

#[test]
fn read_after_write_sees_the_write() {
    let mut m = Model::parse("t\n1 1 -1.0 -1 imp:n=1\n\n1 SO 5\n\nm1 1001 1\n");
    let s = slot_of_cell(&m, 1);
    m.set_cell_material(s, 3).unwrap();
    assert_eq!(m.cell(1).unwrap().material(), Some(3));
}

#[test]
fn set_surface_coeff_and_coeffs() {
    let mut m = Model::parse("t\n1 0 -1 imp:n=1\n\n1 RPP -1 1 -2 2 -3 3\n\nm1 1001 1\n");
    let s = m.surface(1).unwrap().slot();
    m.set_surface_coeff(s, 0, &num(-5.0)).unwrap();
    assert_eq!(surface_coeffs(&m, 1)[0], -5.0);
    assert!(source(&m).contains("RPP -5 1 -2 2 -3 3"));

    let six: Vec<String> = [-1.0, 1.0, -2.0, 2.0, -3.0, 3.0].iter().map(|v| num(*v)).collect();
    let six: Vec<&str> = six.iter().map(|s| s.as_str()).collect();
    m.set_surface_coeffs(s, &six).unwrap();
    assert!(source(&m).contains("RPP -1 1 -2 2 -3 3"));

    let one = num(9.0);
    m.set_surface_coeffs(s, &[one.as_str()]).unwrap();
    assert_eq!(surface_coeffs(&m, 1), vec![9.0]);
}

#[test]
fn set_surface_transform_set_insert_remove() {
    let mut m = Model::parse("t\n1 0 -1 imp:n=1\n\n1 SO 5\n\nm1 1001 1\n");
    let s = m.surface(1).unwrap().slot();
    m.set_surface_transform(s, Some(4)).unwrap();
    assert_eq!(m.surface(1).unwrap().transform(), Some(4));
    assert!(source(&m).contains("1 4 SO 5"));
    m.set_surface_transform(s, Some(-4)).unwrap();
    assert_eq!(m.surface(1).unwrap().transform(), Some(-4));
    m.set_surface_transform(s, None).unwrap();
    assert_eq!(m.surface(1).unwrap().transform(), None);
    assert!(source(&m).contains("1 SO 5"));
}

#[test]
fn set_surface_reflective_inserts_and_removes_the_star() {
    let mut m = Model::parse("t\n1 0 -1 imp:n=1\n\n1 SO 5\n\nm1 1001 1\n");
    let s = m.surface(1).unwrap().slot();
    m.set_surface_reflective(s, true).unwrap();
    assert!(m.surface(1).unwrap().reflective());
    assert!(source(&m).contains("*1 SO 5"));
    m.set_surface_reflective(s, false).unwrap();
    assert!(!m.surface(1).unwrap().reflective());
    assert!(source(&m).contains("\n1 SO 5"));
}

#[test]
fn set_surface_reflective_clears_a_white_marker() {
    let mut m = Model::parse("t\n1 0 -1 imp:n=1\n\n+1 SO 5\n\nm1 1001 1\n");
    let s = m.surface(1).unwrap().slot();
    m.set_surface_reflective(s, true).unwrap();
    assert!(m.surface(1).unwrap().reflective());
    assert!(!m.surface(1).unwrap().white());
    assert!(source(&m).contains("*1 SO 5"));
}

#[test]
fn set_surface_white_inserts_and_removes_the_prefix() {
    let mut m = Model::parse("t\n1 0 -1 imp:n=1\n\n1 SO 5\n\nm1 1001 1\n");
    let s = m.surface(1).unwrap().slot();
    m.set_surface_white(s, true).unwrap();
    assert!(m.surface(1).unwrap().white());
    assert!(source(&m).contains("+1 SO 5"));
    m.set_surface_white(s, false).unwrap();
    assert!(!m.surface(1).unwrap().white());
    assert!(source(&m).contains("\n1 SO 5"));
}

#[test]
fn set_surface_white_clears_a_reflective_marker() {
    let mut m = Model::parse("t\n1 0 -1 imp:n=1\n\n*1 SO 5\n\nm1 1001 1\n");
    let s = m.surface(1).unwrap().slot();
    m.set_surface_white(s, true).unwrap();
    assert!(m.surface(1).unwrap().white());
    assert!(!m.surface(1).unwrap().reflective());
    assert!(source(&m).contains("+1 SO 5"));
}

#[test]
fn set_material_entry_fields() {
    let mut m = Model::parse("t\n1 1 -1.0 -1 imp:n=1\n\n1 SO 5\n\nm1 1001.31c 1 8016 2\n");
    let s = m.material(1).unwrap().slot();
    m.set_material_fraction(s, 1, &num(-0.5)).unwrap();
    m.set_material_zaid(s, 0, "1002.31c").unwrap();
    let entries = material_entries(&m, 1);
    assert_eq!(entries[0].0, "1002.31c");
    assert_eq!(entries[1].1, -0.5);
    assert!(source(&m).contains("m1 1002.31c 1 8016 -0.5"));
}

#[test]
fn set_transform_coeffs_replaces_the_list() {
    let mut m = Model::parse("t\n1 0 -1 imp:n=1\n\n1 SO 5\n\nm1 1001 1\ntr1 0 0 5\n");
    let s = m.transform(1).unwrap().slot();
    let vals: Vec<String> = [1.0, 2.0, 3.0].iter().map(|v| num(*v)).collect();
    let vals: Vec<&str> = vals.iter().map(|s| s.as_str()).collect();
    m.set_transform_coeffs(s, &vals).unwrap();
    assert_eq!(transform_coeffs(&m, 1), vec![1.0, 2.0, 3.0]);
    assert!(source(&m).contains("tr1 1 2 3"));
}

#[test]
fn wrong_kind_is_rejected() {
    let mut m = Model::parse("t\n1 1 -1.0 -1 imp:n=1\n\n1 SO 5\n\nm1 1001 1\n");
    let surf = m.surface(1).unwrap().slot();
    assert_eq!(m.set_cell_material(surf, 2), Err(EditError::WrongKind));
}

#[test]
fn set_cell_id_rewrites_the_token_and_the_index() {
    let mut m = Model::parse("t\n1 1 -1.0 -1 imp:n=1\n\n1 SO 5\n\nm1 1001 1\n");
    let s = slot_of_cell(&m, 1);
    m.set_cell_id(s, 501).unwrap();
    assert!(m.cell(1).is_none());
    assert_eq!(m.cell(501).unwrap().slot(), s);
    assert!(source(&m).contains("501 1 -1.0 -1 imp:n=1"));
}

#[test]
fn set_cell_id_does_not_clobber_a_first_wins_duplicate() {
    let mut m = Model::parse("t\n1 1 -1.0 -1 imp:n=1\n\n1 SO 5\n\nm1 1001 1\n");
    let original = slot_of_cell(&m, 1);
    let dup = m.add_cell("1 0 -1 imp:n=1").unwrap();
    assert_eq!(m.cell(1).unwrap().slot(), original);
    m.set_cell_id(dup, 501).unwrap();
    assert_eq!(m.cell(1).unwrap().slot(), original);
    assert_eq!(m.cell(501).unwrap().slot(), dup);
}

#[test]
fn set_cell_id_wrong_kind_is_rejected() {
    let mut m = Model::parse(SRC);
    let surf = m.surface(1).unwrap().slot();
    assert_eq!(m.set_cell_id(surf, 501), Err(EditError::WrongKind));
}

#[test]
fn set_cell_id_supports_the_clone_workflow() {
    let mut m = Model::parse("t\n1 1 -1.0 -1 imp:n=1 vol=3\n\n1 SO 5\n\nm1 1001 1\n");
    let source_text = String::from_utf8(m.cell(1).unwrap().text().to_vec()).unwrap();
    let clone_slot = m.add_cell(&source_text).unwrap();
    m.set_cell_id(clone_slot, 501).unwrap();

    assert!(m.cell(1).is_some());
    assert!(source(&m).contains("1 1 -1.0 -1 imp:n=1 vol=3"));
    assert_eq!(m.cell(501).unwrap().material(), Some(1));
    assert_eq!(density(&m, 501), Some(-1.0));
    m.set_cell_geometry(clone_slot, "-2").unwrap();
    assert_eq!(m.cell(501).unwrap().signed_surfaces(), vec![-2]);
    assert_eq!(m.cell(1).unwrap().signed_surfaces(), vec![-1]);
}

#[test]
fn set_cell_id_leaves_existing_references_dangling() {
    let mut m = Model::parse("t\n1 0 -1 imp:n=1\n2 0 1 #1 imp:n=1\n\n1 SO 5\n\nm1 1001 1\n");
    let s = slot_of_cell(&m, 1);
    m.set_cell_id(s, 501).unwrap();
    assert_eq!(m.cell(2).unwrap().cell_refs(), vec![1]);
    assert!(m.cell(1).is_none());
    assert!(!m.validate().is_empty());
}

#[test]
fn set_surface_id_rewrites_the_token_and_the_index() {
    let mut m = Model::parse("t\n1 0 -1 imp:n=1\n\n1 SO 5\n\nm1 1001 1\n");
    let s = m.surface(1).unwrap().slot();
    m.set_surface_id(s, 501).unwrap();
    assert!(m.surface(1).is_none());
    assert_eq!(m.surface(501).unwrap().slot(), s);
    assert!(source(&m).contains("501 SO 5"));
}

#[test]
fn set_surface_id_preserves_a_leading_white_prefix() {
    let mut m = Model::parse("t\n1 0 -1 imp:n=1\n\n+1 SO 5\n\nm1 1001 1\n");
    let s = m.surface(1).unwrap().slot();
    m.set_surface_id(s, 501).unwrap();
    assert!(m.surface(501).unwrap().white());
    assert!(source(&m).contains("+501 SO 5"));
}

#[test]
fn set_surface_id_does_not_clobber_a_first_wins_duplicate() {
    let mut m = Model::parse("t\n1 0 -1 imp:n=1\n\n1 SO 5\n\nm1 1001 1\n");
    let original = m.surface(1).unwrap().slot();
    let dup = m.add_surface("1 PX 3").unwrap();
    m.set_surface_id(dup, 501).unwrap();
    assert_eq!(m.surface(1).unwrap().slot(), original);
    assert_eq!(m.surface(501).unwrap().slot(), dup);
}

#[test]
fn set_surface_id_wrong_kind_is_rejected() {
    let mut m = Model::parse(SRC);
    let s = slot_of_cell(&m, 1);
    assert_eq!(m.set_surface_id(s, 501), Err(EditError::WrongKind));
}

#[test]
fn set_material_id_rewrites_the_name_token_and_the_index() {
    let mut m = Model::parse("t\n1 1 -1.0 -1 imp:n=1\n\n1 SO 5\n\nM1 1001 1\n");
    let s = m.material(1).unwrap().slot();
    m.set_material_id(s, 501).unwrap();
    assert!(m.material(1).is_none());
    assert_eq!(m.material(501).unwrap().slot(), s);
    assert!(source(&m).contains("M501 1001 1"));
}

#[test]
fn set_material_id_does_not_clobber_a_first_wins_duplicate() {
    let mut m = Model::parse("t\n1 1 -1.0 -1 imp:n=1\n\n1 SO 5\n\nm1 1001 1\n");
    let original = m.material(1).unwrap().slot();
    let dup = m.add_material("m1 8016 1").unwrap();
    m.set_material_id(dup, 501).unwrap();
    assert_eq!(m.material(1).unwrap().slot(), original);
    assert_eq!(m.material(501).unwrap().slot(), dup);
}

#[test]
fn set_material_id_leaves_a_referencing_cell_dangling() {
    let mut m = Model::parse("t\n1 1 -1.0 -1 imp:n=1\n\n1 SO 5\n\nm1 1001 1\n");
    let s = m.material(1).unwrap().slot();
    m.set_material_id(s, 501).unwrap();
    assert_eq!(m.cell(1).unwrap().material(), Some(1));
    assert!(!m.validate().is_empty());
}

#[test]
fn set_material_id_wrong_kind_is_rejected() {
    let mut m = Model::parse(SRC);
    let s = slot_of_cell(&m, 1);
    assert_eq!(m.set_material_id(s, 501), Err(EditError::WrongKind));
}

#[test]
fn set_transform_id_rewrites_the_name_token_and_the_index() {
    let mut m = Model::parse("t\n1 0 -1 imp:n=1\n\n1 SO 5\n\nm1 1001 1\n*tr1 0 0 5\n");
    let s = m.transform(1).unwrap().slot();
    m.set_transform_id(s, 501).unwrap();
    assert!(m.transform(1).is_none());
    assert_eq!(m.transform(501).unwrap().slot(), s);
    assert!(source(&m).contains("*tr501 0 0 5"));
}

#[test]
fn set_transform_id_does_not_clobber_a_first_wins_duplicate() {
    let mut m = Model::parse("t\n1 0 -1 imp:n=1\n\n1 SO 5\n\nm1 1001 1\ntr1 0 0 5\n");
    let original = m.transform(1).unwrap().slot();
    let dup = m.add_transform("tr1 0 0 9").unwrap();
    m.set_transform_id(dup, 501).unwrap();
    assert_eq!(m.transform(1).unwrap().slot(), original);
    assert_eq!(m.transform(501).unwrap().slot(), dup);
}

#[test]
fn set_transform_id_wrong_kind_is_rejected() {
    let mut m = Model::parse(SRC);
    let s = slot_of_cell(&m, 1);
    assert_eq!(m.set_transform_id(s, 501), Err(EditError::WrongKind));
}

#[test]
fn add_cell_appends_and_is_visible() {
    let mut m = Model::parse(SRC);
    let before = m.num_cells();
    m.add_cell("3 1 -1.0 -1 imp:n=1").unwrap();
    assert_eq!(m.num_cells(), before + 1);
    assert_eq!(m.cell(3).unwrap().id(), Some(3));
    assert!(source(&m).contains("3 1 -1.0 -1 imp:n=1"));
    assert!(source(&m).contains("2 0 1 imp:n=0\n3 1 -1.0 -1 imp:n=1\n\n1 SO 5"));
}

#[test]
fn add_cell_after_lands_right_after_the_anchor() {
    let mut m = Model::parse(SRC);
    m.add_cell_after(1, "3 0 -2 imp:n=1").unwrap();
    assert!(
        source(&m).contains("1 1 -1.0 -1 imp:n=1\n3 0 -2 imp:n=1\n2 0 1 imp:n=0"),
        "{}",
        source(&m)
    );
}

#[test]
fn add_cell_after_is_indexed_immediately() {
    let mut m = Model::parse(SRC);
    m.add_cell_after(1, "3 0 -2 imp:n=1").unwrap();
    assert_eq!(m.cell(3).unwrap().id(), Some(3));
    assert_eq!(m.num_cells(), 3);
}

#[test]
fn add_cell_after_missing_anchor_is_rejected() {
    let mut m = Model::parse(SRC);
    assert_eq!(
        m.add_cell_after(999, "3 0 -2 imp:n=1"),
        Err(EditError::NoSuchField)
    );
}

#[test]
fn add_cell_after_supports_placing_a_clone_next_to_its_source() {
    let mut m = Model::parse(
        "t\n1 1 -1.0 -1 imp:n=1\n2 0 1 imp:n=0\n3 0 1 imp:n=0\n\n1 SO 5\n\nm1 1001 1\n",
    );
    let source_text = String::from_utf8(m.cell(1).unwrap().text().to_vec()).unwrap();
    let clone_slot = m.add_cell_after(1, &source_text).unwrap();
    m.set_cell_id(clone_slot, 501).unwrap();
    assert!(
        source(&m).contains("1 1 -1.0 -1 imp:n=1\n501 1 -1.0 -1 imp:n=1\n2 0 1 imp:n=0"),
        "{}",
        source(&m)
    );
}

#[test]
fn remove_cell_by_id() {
    let mut m = Model::parse(SRC);
    assert!(m.remove_cell(2));
    assert!(m.cell(2).is_none());
    assert_eq!(m.num_cells(), 1);
    assert!(!m.remove_cell(999));
}

#[test]
fn add_then_remove_is_byte_identity() {
    let mut m = Model::parse(SRC);
    let src = m.to_source();
    m.add_cell("42 0 -1 imp:n=1").unwrap();
    assert!(m.remove_cell(42));
    assert_eq!(m.to_source(), src);
}

#[test]
fn interleaved_edits_and_reads_stay_consistent() {
    let mut m = Model::parse(SRC);
    m.add_cell("3 0 -1 imp:n=1").unwrap();
    assert!(m.cell(3).unwrap().is_void());
    let s = m.cell(3).unwrap().slot();
    m.set_cell_material(s, 1).unwrap();
    assert_eq!(m.cell(3).unwrap().material(), Some(1));
    assert!(m.remove_cell(3));
    assert!(m.cell(3).is_none());
}

#[test]
fn removed_handle_fails_cleanly() {
    let mut m = Model::parse(SRC);
    let view = m.cell(2).unwrap();
    let slot = view.slot();
    assert!(m.remove_cell(2));
    assert!(m.cst().card(slot).is_none());
}

#[test]
fn add_surface_and_material_index_immediately() {
    let mut m = Model::parse(SRC);
    m.add_surface("2 PX 3").unwrap();
    assert_eq!(m.surface(2).unwrap().kind(), Some(&b"PX"[..]));
    assert!(source(&m).contains("1 SO 5\n2 PX 3\n\nm1 1001 1"));

    m.add_material("m2 8016 1").unwrap();
    assert_eq!(m.material(2).unwrap().id(), Some(2));
    assert!(source(&m).contains("m2 8016 1"));
}

#[test]
fn remove_surface_material_transform() {
    let mut m = Model::parse("t\n1 0 -1 imp:n=1\n\n1 SO 5\n2 PX 3\n\nm1 1001 1\ntr1 0 0 5\n");
    assert!(m.remove_surface(2));
    assert!(m.surface(2).is_none());
    assert!(m.remove_material(1));
    assert!(m.material(1).is_none());
    assert!(m.remove_transform(1));
    assert!(m.transform(1).is_none());
    assert!(!m.remove_transform(1));
}

#[test]
fn add_param_lands_before_a_trailing_comment() {
    let mut m = Model::parse("t\n1 0 -1 imp:n=1 $ keep\n\n1 SO 5\n\nm1 1001 1\n");
    let s = slot_of_cell(&m, 1);
    m.add_cell_param(s, "vol=3").unwrap();
    assert!(
        source(&m).contains("1 0 -1 imp:n=1 vol=3 $ keep"),
        "{}",
        source(&m)
    );
    assert_eq!(m.cell(1).unwrap().param(b"vol").unwrap().value, b"3".to_vec());
}

#[test]
fn add_param_to_a_void_cell_without_params() {
    let mut m = Model::parse("t\n2 0 1\n\n1 SO 5\n\nm1 1001 1\n");
    let s = slot_of_cell(&m, 2);
    m.add_cell_param(s, "imp:n=1").unwrap();
    assert!(source(&m).contains("2 0 1 imp:n=1"));
}

#[test]
fn remove_param_drops_key_and_value() {
    let mut m = Model::parse("t\n1 0 -1 imp:n=1 vol=3 $ keep\n\n1 SO 5\n\nm1 1001 1\n");
    let s = slot_of_cell(&m, 1);
    assert_eq!(m.remove_cell_param(s, "vol"), Ok(true));
    let out = source(&m);
    assert!(out.contains("1 0 -1 imp:n=1 $ keep"), "{out}");
    assert!(!out.contains("vol=3"), "{out}");
    assert_eq!(m.remove_cell_param(s, "nope"), Ok(false));
}

#[test]
fn append_comment_goes_before_the_newline() {
    let mut m = Model::parse("t\n1 0 -1 imp:n=1\n\n1 SO 5\n\nm1 1001 1\n");
    let s = slot_of_cell(&m, 1);
    m.append_cell_comment(s, "added shim").unwrap();
    assert!(
        source(&m).contains("1 0 -1 imp:n=1 $ added shim\n"),
        "{}",
        source(&m)
    );
}

#[test]
fn append_inline_comment_works_on_any_card_kind() {
    let mut m = Model::parse("t\n1 0 -1 imp:n=1\n\n1 SO 5\n\nm1 1001 1\n");
    let surf = m.surface(1).unwrap().slot();
    m.append_inline_comment(surf, "added shim").unwrap();
    assert!(source(&m).contains("1 SO 5 $ added shim\n"), "{}", source(&m));

    let mat = m.material(1).unwrap().slot();
    m.append_inline_comment(mat, "$ already prefixed").unwrap();
    assert!(
        source(&m).contains("m1 1001 1 $ already prefixed\n"),
        "{}",
        source(&m)
    );
}

#[test]
fn add_normalises_a_trailing_newline() {
    let mut m = Model::parse(SRC);
    m.add_cell("7 0 -1 imp:n=1\n").unwrap();
    assert!(source(&m).contains("7 0 -1 imp:n=1\n\n1 SO 5"));
    assert!(m.remove_cell(7));
    assert_eq!(source(&m), SRC);
}

#[test]
fn title_reads_the_positional_title_card() {
    assert_eq!(Model::parse(SRC).title(), Some(&b"t"[..]));
}

#[test]
fn title_is_none_when_absent() {
    assert_eq!(Model::parse("").title(), None);
}

#[test]
fn title_after_leading_message_block() {
    let m = Model::parse("MESSAGE: outp=o\n\nMy Title\n1 0 -1 imp:n=1\n\n1 SO 5\n\nm1 1001 1\n");
    assert_eq!(m.title(), Some(&b"My Title"[..]));
}

#[test]
fn set_title_replaces_existing() {
    let mut m = Model::parse(SRC);
    m.set_title("New Title");
    assert_eq!(m.title(), Some(&b"New Title"[..]));
    assert!(source(&m).starts_with("New Title\n"));
}

#[test]
fn set_title_creates_at_front_when_absent() {
    let mut m = Model::parse("");
    m.set_title("Fresh");
    assert_eq!(m.title(), Some(&b"Fresh"[..]));
    assert_eq!(source(&m), "Fresh\n");
}

#[test]
fn set_title_inserts_after_leading_message_and_blank() {
    let mut m = Model::parse("MESSAGE: outp=o\n\n");
    m.set_title("New Title");
    assert_eq!(source(&m), "MESSAGE: outp=o\n\nNew Title\n");
}

#[test]
fn set_title_inserts_after_a_multiline_leading_message_block() {
    let mut m = Model::parse("MESSAGE: outp=o\nrun continues\n\n");
    m.set_title("New Title");
    assert_eq!(source(&m), "MESSAGE: outp=o\nrun continues\n\nNew Title\n");
}

#[test]
fn add_transform_is_indexed_immediately() {
    let mut m = Model::parse(SRC);
    m.add_transform("tr2 0 0 5").unwrap();
    assert_eq!(transform_coeffs(&m, 2), vec![0.0, 0.0, 5.0]);
    assert!(source(&m).contains("tr2 0 0 5"));
}

#[test]
fn add_transform_then_remove_is_byte_identity() {
    let mut m = Model::parse(SRC);
    let src = m.to_source();
    m.add_transform("tr9 0 0 1").unwrap();
    assert!(m.remove_transform(9));
    assert_eq!(m.to_source(), src);
}

#[test]
fn data_cards_is_a_superset_including_sdef() {
    let m = Model::parse("t\n1 0 -1 imp:n=1\n\n1 SO 5\n\nm1 1001 1\nsdef pos=0 0 0\n");
    let names: Vec<Option<&[u8]>> = m.data_cards().iter().map(|d| d.name()).collect();
    assert_eq!(names, vec![Some(&b"m1"[..]), Some(&b"sdef"[..])]);
    let all = m.data_cards();
    let sdef = all.iter().find(|d| d.name() == Some(&b"sdef"[..])).unwrap();
    assert_eq!(sdef.particle(), None);
    assert!(!sdef.starred());
    assert!(sdef.text().starts_with(b"sdef pos=0 0 0"));
}

#[test]
fn add_data_card_appends_a_generic_card() {
    let mut m = Model::parse(SRC);
    let slot = m.add_data_card("sdef pos=0 0 0").unwrap();
    assert_eq!(m.data_card_at(slot).unwrap().name(), Some(&b"sdef"[..]));
    assert!(source(&m).contains("sdef pos=0 0 0"));
}

#[test]
fn add_data_card_after_removing_every_data_card() {
    let mut m = Model::parse(SRC);
    let slots: Vec<u32> = m.data_cards().iter().map(|c| c.slot()).collect();
    for slot in slots {
        assert!(m.remove_data_card(slot));
    }
    let slot = m.add_data_card("sdef pos=0 0 0").unwrap();
    assert_eq!(m.data_card_at(slot).unwrap().name(), Some(&b"sdef"[..]));
    assert!(source(&m).ends_with("1 SO 5\n\nsdef pos=0 0 0\n"));
}

#[test]
fn add_cell_after_removing_every_cell() {
    let mut m = Model::parse(SRC);
    assert!(m.remove_cell(1));
    assert!(m.remove_cell(2));
    let slot = m.add_cell("3 0 -1 imp:n=1").unwrap();
    assert!(m.cell_at(slot).is_some());
    assert!(source(&m).starts_with("t\n3 0 -1 imp:n=1\n\n1 SO 5"));
}

#[test]
fn add_surface_after_removing_every_surface() {
    let mut m = Model::parse(SRC);
    assert!(m.remove_surface(1));
    let slot = m.add_surface("2 PX 3").unwrap();
    assert!(m.surface_at(slot).is_some());
    assert!(source(&m).contains("2 0 1 imp:n=0\n\n2 PX 3\n\nm1 1001 1"));
}

#[test]
fn add_data_card_then_remove_is_byte_identity() {
    let mut m = Model::parse(SRC);
    let src = m.to_source();
    let slot = m.add_data_card("mode n").unwrap();
    assert!(m.remove_data_card(slot));
    assert_eq!(m.to_source(), src);
}

#[test]
fn set_data_card_text_replaces_the_whole_card() {
    let mut m = Model::parse(SRC);
    let slot = m.add_data_card("sdef pos=0 0 0").unwrap();
    m.set_data_card_text(slot, "sdef pos=1 1 1").unwrap();
    assert_eq!(m.data_card_at(slot).unwrap().text(), b"sdef pos=1 1 1\n");
    assert!(source(&m).contains("sdef pos=1 1 1"));
    assert!(!source(&m).contains("sdef pos=0 0 0"));
}

#[test]
fn set_data_card_text_wrong_kind_errors() {
    let mut m = Model::parse(SRC);
    let cell_slot = m.cell(1).unwrap().slot();
    assert_eq!(
        m.set_data_card_text(cell_slot, "sdef pos=0 0 0"),
        Err(EditError::WrongKind)
    );
}

#[test]
fn remove_data_card_by_slot() {
    let mut m = Model::parse(SRC);
    let slot = m.add_data_card("sdef pos=0 0 0").unwrap();
    assert!(m.remove_data_card(slot));
    assert!(m.data_card_at(slot).is_none());
    assert!(!m.remove_data_card(slot));
}

#[test]
fn remove_data_card_cleans_up_material_index() {
    let mut m = Model::parse(SRC);
    let slot = m.add_material("m2 8016 1").unwrap();
    assert!(m.material(2).is_some());
    assert!(m.remove_data_card(slot));
    assert!(m.material(2).is_none());
}

#[test]
fn set_geometry_term_replaces_a_surface() {
    let mut m = Model::parse("t\n1 0 -1 2 -3 imp:n=1\n\n1 SO 5\n2 SO 6\n3 SO 7\n\nm1 1001 1\n");
    let s = slot_of_cell(&m, 1);
    m.set_geometry_term(s, 1, "-4").unwrap();
    assert_eq!(m.cell(1).unwrap().signed_surfaces(), vec![-1, -4, -3]);
    assert!(source(&m).contains("1 0 -1 -4 -3 imp:n=1"));
}

#[test]
fn set_geometry_term_replaces_a_whole_complement() {
    let mut m = Model::parse("t\n1 0 -1 #2\n2 0 1 imp:n=1\n\n1 SO 5\n\nm1 1001 1\n");
    let s = slot_of_cell(&m, 1);
    m.set_geometry_term(s, 1, "#3").unwrap();
    assert_eq!(m.cell(1).unwrap().cell_refs(), vec![3]);
    assert!(source(&m).contains("1 0 -1 #3"));
}

#[test]
fn set_geometry_term_rejects_out_of_range_position() {
    let mut m = Model::parse(SRC);
    let s = slot_of_cell(&m, 1);
    assert_eq!(m.set_geometry_term(s, 99, "5"), Err(EditError::NoSuchField));
}

#[test]
fn set_geometry_term_wrong_kind_is_rejected() {
    let mut m = Model::parse(SRC);
    let surf = m.surface(1).unwrap().slot();
    assert_eq!(m.set_geometry_term(surf, 0, "1"), Err(EditError::WrongKind));
}

#[test]
fn insert_geometry_term_wraps_and_hashes_a_cell() {
    let mut m = Model::parse(
        "t\n1 0 1 2 3 imp:n=1\n2 0 -1 imp:n=1\n\n1 SO 5\n2 SO 6\n3 SO 7\n\nm1 1001 1\n",
    );
    let s = slot_of_cell(&m, 1);
    let n = m.cell(1).unwrap().geometry().len();
    m.insert_geometry_term(s, 0, "(").unwrap();
    m.insert_geometry_term(s, n + 1, ")").unwrap();
    m.insert_geometry_term(s, n + 2, "#2").unwrap();
    let out = source(&m);
    assert!(out.contains("1 0 ( 1 2 3 ) #2 imp:n=1"), "{out}");
    assert_eq!(m.cell(1).unwrap().cell_refs(), vec![2]);
}

#[test]
fn insert_geometry_term_appends_a_union_when_position_equals_len() {
    let mut m = Model::parse("t\n1 0 -1 imp:n=1\n\n1 SO 5\n2 SO 6\n\nm1 1001 1\n");
    let s = slot_of_cell(&m, 1);
    let n = m.cell(1).unwrap().geometry().len();
    m.insert_geometry_term(s, n, ": 2").unwrap();
    assert_eq!(m.cell(1).unwrap().signed_surfaces(), vec![-1, 2]);
    assert!(source(&m).contains("1 0 -1 : 2 imp:n=1"));
}

#[test]
fn insert_geometry_term_into_an_empty_geometry() {
    let mut m = Model::parse("t\n2 0 imp:n=1\n\n1 SO 5\n\nm1 1001 1\n");
    let s = slot_of_cell(&m, 2);
    assert_eq!(m.cell(2).unwrap().geometry().len(), 0);
    m.insert_geometry_term(s, 0, "-1").unwrap();
    assert_eq!(m.cell(2).unwrap().signed_surfaces(), vec![-1]);
    assert!(source(&m).contains("2 0 -1 imp:n=1"));
}

#[test]
fn insert_geometry_term_rejects_position_past_the_end() {
    let mut m = Model::parse(SRC);
    let s = slot_of_cell(&m, 1);
    let n = m.cell(1).unwrap().geometry().len();
    assert_eq!(m.insert_geometry_term(s, n + 1, "2"), Err(EditError::NoSuchField));
}

#[test]
fn insert_geometry_term_wrong_kind_is_rejected() {
    let mut m = Model::parse(SRC);
    let surf = m.surface(1).unwrap().slot();
    assert_eq!(m.insert_geometry_term(surf, 0, "("), Err(EditError::WrongKind));
}

#[test]
fn geometry_text_reads_the_exact_source() {
    let m = Model::parse("t\n1 0 -1  2   #3\n2 0 1 imp:n=1\n\n1 SO 5\n2 SO 6\n\nm1 1001 1\n");
    assert_eq!(geometry_text(&m, 1), "-1  2   #3");
}

#[test]
fn geometry_text_is_empty_for_an_empty_geometry() {
    let m = Model::parse("t\n2 0 imp:n=1\n\n1 SO 5\n\nm1 1001 1\n");
    assert_eq!(geometry_text(&m, 2), "");
}

#[test]
fn set_cell_geometry_replaces_the_whole_expression() {
    let mut m = Model::parse("t\n1 0 -1 imp:n=1 vol=3\n\n1 SO 5\n2 SO 6\n3 SO 7\n\nm1 1001 1\n");
    let s = slot_of_cell(&m, 1);
    m.set_cell_geometry(s, "(1 2) : 3").unwrap();
    assert_eq!(geometry_text(&m, 1), "(1 2) : 3");
    assert_eq!(m.cell(1).unwrap().signed_surfaces(), vec![1, 2, 3]);
    let out = source(&m);
    assert!(out.contains("1 0 (1 2) : 3 imp:n=1 vol=3"), "{out}");
}

#[test]
fn set_cell_geometry_unites_two_cells() {
    let mut m = Model::parse(
        "t\n1 0 -1 -2 imp:n=1\n2 0 -3 imp:n=1\n3 0 1 imp:n=1\n\n1 SO 5\n2 SO 6\n3 SO 7\n\nm1 1001 1\n",
    );
    let a = geometry_text(&m, 1);
    let b = geometry_text(&m, 2);
    let s = slot_of_cell(&m, 3);
    m.set_cell_geometry(s, &format!("({a}) : ({b})")).unwrap();
    assert_eq!(geometry_text(&m, 3), "(-1 -2) : (-3)");
    assert_eq!(m.cell(3).unwrap().signed_surfaces(), vec![-1, -2, -3]);
}

#[test]
fn set_cell_geometry_fills_in_an_empty_geometry() {
    let mut m = Model::parse("t\n2 0 imp:n=1\n\n1 SO 5\n\nm1 1001 1\n");
    let s = slot_of_cell(&m, 2);
    m.set_cell_geometry(s, "-1").unwrap();
    assert_eq!(m.cell(2).unwrap().signed_surfaces(), vec![-1]);
    assert!(source(&m).contains("2 0 -1 imp:n=1"));
}

#[test]
fn set_cell_geometry_wrong_kind_is_rejected() {
    let mut m = Model::parse(SRC);
    let surf = m.surface(1).unwrap().slot();
    assert_eq!(m.set_cell_geometry(surf, "-1"), Err(EditError::WrongKind));
}

#[test]
fn remove_data_card_respects_duplicate_id_first_wins() {
    let mut m = Model::parse(SRC);
    let first = m.material(1).unwrap().slot();
    let dup = m.add_material("m1 8016 1").unwrap();
    assert_ne!(first, dup);
    assert_eq!(m.material(1).unwrap().slot(), first);
    assert!(m.remove_data_card(dup));
    assert_eq!(m.material(1).unwrap().slot(), first);
}

#[test]
fn set_material_read_back_own_law_example() {
    let mut m = Model::parse("t\n1 1 -1.0 -1 imp:n=1\n\n1 SO 5\n\nm1 1001 1\n");
    let s = slot_of_cell(&m, 1);
    let before = m.cell(1).unwrap().signed_surfaces();
    m.set_cell_material(s, 42).unwrap();
    let c = m.cell(1).unwrap();
    assert_eq!(c.material(), Some(42));
    assert_eq!(c.id(), Some(1));
    assert_eq!(c.signed_surfaces(), before);
    assert_eq!(density(&m, 1), Some(-1.0));
}
