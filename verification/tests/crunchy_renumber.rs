use migjorn::crunchy::cst::parse;
use migjorn::crunchy::renumber::{
    renumber_cells, renumber_materials, renumber_surfaces, renumber_transforms,
};

fn text(v: Vec<u8>) -> String {
    String::from_utf8(v).unwrap()
}

#[test]
fn renumber_surfaces_updates_defs_and_refs() {
    let src = "title\n1 0 -1 2 #(3) imp:n=1\n\n1 SO 5\n2 PX 0\n3 PY 0\n\nm1 1001 1\n";
    let mut tree = parse(src).tree;
    renumber_surfaces(&mut tree, |id| id + 1000);
    let out = text(tree.to_source());
    assert!(out.contains("1001 SO 5"));
    assert!(out.contains("1002 PX 0"));
    assert!(out.contains("1003 PY 0"));
    assert!(out.contains("1 0 -1001 1002 #(1003) imp:n=1"));
}

#[test]
fn renumber_cells_updates_defs_and_complements() {
    let src = "title\n1 0 -1 imp:n=1\n2 0 1 #1 imp:n=1\n7 LIKE 1 BUT imp:n=2\n\n1 SO 5\n\nm1 1001 1\n";
    let mut tree = parse(src).tree;
    renumber_cells(&mut tree, |id| id + 500);
    let out = text(tree.to_source());
    assert!(out.contains("501 0 -1 imp:n=1"));
    assert!(out.contains("502 0 1 #501 imp:n=1"));
    assert!(out.contains("507 LIKE 501 BUT imp:n=2"));
}

#[test]
fn renumber_is_otherwise_lossless() {
    let src = "title\nc keep me\n1 0 -1   2  imp:n=1 $ trailing\n\n1 SO 5\n2 PX 0\n\nm1 1001 1\n";
    let mut tree = parse(src).tree;
    renumber_surfaces(&mut tree, |id| id + 10);
    let out = text(tree.to_source());
    assert!(out.contains("c keep me"));
    assert!(out.contains("$ trailing"));
    assert!(out.contains("1 0 -11   12  imp:n=1"));
    assert!(out.contains("11 SO 5"));
}

#[test]
fn renumber_materials_updates_defs_refs_and_mt() {
    let src = "title\n1 5 -1.0 -1 imp:n=1\n2 0 1 imp:n=1\n\n1 SO 5\n\nm5 1001 1\nmt5 lwtr.10t\n";
    let mut tree = parse(src).tree;
    renumber_materials(&mut tree, |id| id + 100);
    let out = text(tree.to_source());
    assert!(out.contains("m105 1001 1"));
    assert!(out.contains("mt105 lwtr.10t"));
    assert!(out.contains("1 105 -1.0 -1 imp:n=1"));
    assert!(out.contains("2 0 1 imp:n=1"));
}

#[test]
fn renumber_transforms_updates_defs_and_surface_field() {
    let src = "title\n1 0 -1\n\n1 3 PZ 50\n2 -3 SO 5\n\nm1 1001 1\ntr3 0 0 5\n*tr7 0 0 0\n";
    let mut tree = parse(src).tree;
    renumber_transforms(&mut tree, |id| id + 10);
    let out = text(tree.to_source());
    assert!(out.contains("tr13 0 0 5"));
    assert!(out.contains("*tr17 0 0 0"));
    assert!(out.contains("1 13 PZ 50"));
    assert!(out.contains("2 -13 SO 5"));
}

#[test]
fn renumber_materials_is_lossless_elsewhere() {
    let src = "title\n1 5 -1.0 -1 imp:n=1 $ keep\n\n1 SO 5\n\nm5 1001 1\n";
    let mut tree = parse(src).tree;
    renumber_materials(&mut tree, |id| id + 1);
    let out = text(tree.to_source());
    assert!(out.contains("$ keep"));
    assert!(out.contains("1 6 -1.0 -1 imp:n=1"));
    assert!(out.contains("m6 1001 1"));
}

#[test]
fn extreme_numbers_outside_the_geometry_do_not_stop_a_renumbering() {
    let src = "title\n1 0 -1 u=-9223372036854775808\n\n1 SO -9223372036854775808\n\nm1 1001 1\n";
    let mut tree = parse(src).tree;
    renumber_surfaces(&mut tree, |id| id + 10);
    let out = text(tree.to_source());
    assert!(out.contains("1 0 -11 u=-9223372036854775808"));
    assert!(out.contains("11 SO -9223372036854775808"));
}
