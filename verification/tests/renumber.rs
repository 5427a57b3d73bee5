use migjorn::model::Model;
use migjorn::renumber::Renumbering;
use migjorn::report::renumber_report;

const SRC: &str = "t\n1 1 -1.0 -1 imp:n=1\n2 0 1 imp:n=0\n\n1 SO 5\n\nm1 1001 1\n";

fn source(m: &Model) -> String {
    String::from_utf8(m.to_source()).unwrap()
}

#[test]
fn renumber_surfaces_moves_defs_and_senses() {
    let mut m = Model::parse(SRC);
    m.renumber_surfaces(|i| i + 100);
    let out = source(&m);
    assert!(out.contains("101 SO 5"), "{out}");
    assert!(out.contains("-101 imp:n=1"), "{out}");
    assert!(m.surface(101).is_some());
    assert!(m.surface(1).is_none());
}

#[test]
fn renumber_cells_moves_defs_and_complements() {
    let mut m = Model::parse("t\n1 0 -1 imp:n=1\n2 0 1 #1 imp:n=1\n\n1 SO 5\n\nm1 1001 1\n");
    m.renumber_cells(|i| if i == 1 { 501 } else { i });
    let out = source(&m);
    assert!(out.contains("501 0 -1"), "{out}");
    assert!(out.contains("#501"), "{out}");
    assert!(m.cell(501).is_some());
}

#[test]
fn renumber_is_lossless_under_identity() {
    let mut m = Model::parse(SRC);
    let src = source(&m);
    m.renumber_surfaces(|i| i);
    assert_eq!(source(&m), src);
    m.renumber_cells(|i| i);
    assert_eq!(source(&m), src);
}

#[test]
fn renumber_materials_moves_def_and_cell_field() {
    let mut m = Model::parse(SRC);
    m.renumber_materials(|i| if i == 1 { 7 } else { i });
    let out = source(&m);
    assert!(out.contains("1 7 -1.0 -1"), "{out}");
    assert!(out.contains("m7 1001 1"), "{out}");
    assert!(out.contains("2 0 1"), "{out}");
    assert!(m.material(7).is_some());
}

#[test]
fn renumber_transforms_moves_def_and_surface_field() {
    let mut m =
        Model::parse("t\n1 0 -1 imp:n=1\n\n1 3 SO 5\n2 -3 PX 1\n\nm1 1001 1\ntr3 0 0 5\n");
    m.renumber_transforms(|i| i + 10);
    let out = source(&m);
    assert!(out.contains("tr13 0 0 5"), "{out}");
    assert!(out.contains("1 13 SO 5"), "{out}");
    assert!(out.contains("2 -13 PX 1"), "{out}");
    assert!(m.transform(13).is_some());
}

#[test]
fn renumber_universes_moves_u_and_fill() {
    let mut m = Model::parse(
        "t\n1 0 -1 u=2 imp:n=1\n2 0 -2 fill=2 imp:n=1\n\n1 SO 5\n2 SO 9\n\nm1 1001 1\n",
    );
    m.renumber_universes(|i| i + 40);
    let out = source(&m);
    assert!(out.contains("u=42"), "{out}");
    assert!(out.contains("fill=42"), "{out}");
}

#[test]
fn renumber_tallies_moves_the_family() {
    let mut m = Model::parse(
        "t\n1 0 -1 imp:n=1\n\n1 SO 5\n\nm1 1001 1\nf4:n 1\nfc4 a comment\ne4 1 10\n",
    );
    m.renumber_tallies(|i| if i == 4 { 14 } else { i });
    let out = source(&m);
    assert!(out.contains("f14:n 1"), "{out}");
    assert!(out.contains("fc14 a comment"), "{out}");
    assert!(out.contains("e14 1 10"), "{out}");
}

#[test]
fn offset_helpers_shift_everything() {
    let mut m = Model::parse(SRC);
    m.offset_surfaces(1000);
    assert!(source(&m).contains("1001 SO 5"));
    assert!(source(&m).contains("-1001 imp:n=1"));
    m.offset_cells(50);
    assert!(m.cell(51).is_some());
    assert!(m.cell(52).is_some());
}

#[test]
fn renumber_keeps_white_prefix_and_lattice_fill() {
    let mut m = Model::parse(
        "t\n1 0 -1 fill=0:1 0:0 0:0 2 3 imp:n=1\n\n+1 SO 5\n\nm1 1001 1\n",
    );
    m.renumber_surfaces(|i| i + 1);
    m.renumber_universes(|i| i + 100);
    let out = source(&m);
    assert!(out.contains("+2 SO 5"), "{out}");
    assert!(out.contains("-2 fill=0:1 0:0 0:0 2 3"), "{out}");
}

#[test]
fn identity_keeps_a_non_canonical_id() {
    let src = "t\n1 0 -007 imp:n=1\n\n007 SO 5\n\nm1 1001 1\n";
    let mut m = Model::parse(src);
    m.renumber_surfaces(|i| i);
    assert_eq!(source(&m), src);
    m.renumber_surfaces(|i| i + 1);
    let out = source(&m);
    assert!(out.contains("1 0 -8 imp:n=1"), "{out}");
    assert!(out.contains("\n8 SO 5"), "{out}");
}

#[test]
fn renumber_report_checks_a_shifted_model() {

    let src = "t\n1 0 -1 2 #(3) imp:n=1\n2 0 1 imp:n=1\n\n1 SO 5\n2 PX 0\n3 PY 0\n\n";
    let before = Model::parse(src);
    let mut m = Model::parse(src);
    assert!(m.has_room(Renumbering::Surfaces));
    assert!(m.can_offset(Renumbering::Surfaces, 1000));
    assert!(!m.can_offset(Renumbering::Surfaces, i64::MAX));
    m.offset_surfaces(1000);
    let out = String::from_utf8(m.to_source()).unwrap();
    let after = Model::parse(&out);
    let r = renumber_report(&before, &after);
    assert_eq!((r.cards_before, r.cards_after), (8, 8));
    assert_eq!(r.tokens_before, r.tokens_after);
    assert_eq!((r.surfaces_before, r.surfaces_after), (3, 3));
    assert_eq!(r.surface_refs, 4);
    assert_eq!(r.dangling, 0);
    assert_eq!(r.min_surface, Some(1001));
    // a reference left behind dangles
    let broken = Model::parse("t\n1 0 -9 imp:n=1\n\n1 SO 5\n\n");
    let r2 = renumber_report(&before, &broken);
    assert_eq!(r2.dangling, 1);
    assert_eq!(r2.min_surface, Some(9));
}
