use migjorn::model::Model;

#[test]
fn crate_example_reads_material_and_surface_kind() {
    let m = Model::parse("t\n1 1 -1.0 -1 imp:n=1\n\n1 SO 5\n\nm1 1001 1\n");
    assert_eq!(m.cell(1).unwrap().material(), Some(1));
    assert_eq!(m.surface(1).unwrap().kind(), Some(&b"SO"[..]));
}

#[test]
fn signed_surfaces_and_cell_refs_in_file_order() {
    let m = Model::parse("t\n5 1 -2.0 (-1 : -2) 3 #4 #(5 -6) imp:n=1\n\n1 SO 5\n\nm1 1001 1\n");
    let c = m.cell(5).unwrap();
    assert_eq!(c.signed_surfaces(), vec![-1, -2, 3, 5, -6]);
    assert_eq!(c.cell_refs(), vec![4]);
    let m2 = Model::parse("t\n9 LIKE 3 BUT imp:n=1\n\n1 SO 5\n\nm1 1001 1\n");
    assert_eq!(m2.cell(9).unwrap().cell_refs(), vec![3]);
}

#[test]
fn universe_is_the_u_parameter() {
    let m = Model::parse("t\n1 0 -1 imp:n=1 u=5\n2 0 1 imp:n=1\n\n1 SO 5\n\nm1 1001 1\n");
    assert_eq!(m.cell(1).unwrap().universe(), Some(5));
    assert_eq!(m.cell(2).unwrap().universe(), None);
}

#[test]
fn a_plus_marks_a_white_boundary() {
    let m = Model::parse("t\n1 0 -1 imp:n=1\n\n+1 SO 5\n\nm1 1001 1\n");
    let s = m.surface(1).unwrap();
    assert!(s.white());
    assert!(!s.reflective());
    assert_eq!(s.id(), Some(1));
}
