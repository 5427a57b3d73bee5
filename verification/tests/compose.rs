use migjorn::compose::{Collision, IdKind, Problem};
use migjorn::model::Model;

#[test]
fn universe_ids_are_distinct_and_sorted() {
    let m = Model::parse(
        "t\n1 0 -1 u=5 imp:n=1\n2 0 -2 u=2 imp:n=1\n3 0 -3 u=5 imp:n=1\n4 0 -4 imp:n=1\n\n1 SO 5\n2 SO 6\n3 SO 7\n4 SO 8\n\nm1 1001 1\n",
    );
    assert_eq!(m.universe_ids(), vec![2, 5]);
}

#[test]
fn validate_flags_dangling_references() {
    let m = Model::parse("t\n1 3 -1.0 -9 imp:n=1\n\n1 4 SO 5\n\nm1 1001 1\n");
    let problems = m.validate();
    assert!(
        problems.contains(&Problem::UndefinedSurface { cell: 1, surface: 9 }),
        "{problems:?}"
    );
    assert!(
        problems.contains(&Problem::UndefinedMaterial { cell: 1, material: 3 }),
        "{problems:?}"
    );
    assert!(
        problems.contains(&Problem::UndefinedTransform { surface: 1, transform: 4 }),
        "{problems:?}"
    );
    assert!(problems
        .iter()
        .any(|p| String::from_utf8(p.message()).unwrap() == "cell 1: references undefined surface 9"));
}

#[test]
fn validate_is_clean_on_a_consistent_model() {
    let m = Model::parse("t\n1 1 -1.0 -1 imp:n=1\n2 0 1 imp:n=0\n\n1 SO 5\n\nm1 1001 1\n");
    assert_eq!(m.validate(), Vec::<Problem>::new());
}

#[test]
fn validate_reports_cells_universes_and_sorts() {
    let m = Model::parse(
        "t\n2 0 -1 #7 fill=4 imp:n=1\n1 0 -3 -2 imp:n=1\n\n1 SO 5\n\nm1 1001 1\n",
    );
    let problems = m.validate();
    assert_eq!(
        problems,
        vec![
            Problem::UndefinedSurface { cell: 1, surface: 2 },
            Problem::UndefinedSurface { cell: 1, surface: 3 },
            Problem::UndefinedCell { cell: 2, referenced: 7 },
            Problem::UndefinedUniverse { cell: 2, universe: 4 },
        ]
    );
    assert_eq!(
        String::from_utf8(problems[3].message()).unwrap(),
        "cell 2: fill references undefined universe 4"
    );
}

#[test]
fn a_fill_of_universe_zero_is_always_valid() {
    let m = Model::parse("t\n1 0 -1 fill=0 imp:n=1\n\n1 SO 5\n\nm1 1001 1\n");
    assert!(m.validate().is_empty());
}

#[test]
fn extract_universe_pulls_cells_and_their_dependencies() {
    let m = Model::parse(
        "t\n\
         1 1 -1.0 -1 u=5 imp:n=1\n\
         2 0 -2 u=7 imp:n=1\n\
         \n\
         1 SO 5\n\
         2 SO 6\n\
         \n\
         m1 1001 1\nm2 8016 1\n",
    );
    let u5 = m.extract_universe(5);
    assert_eq!(u5.num_cells(), 1);
    assert!(u5.cell(1).is_some());
    assert!(u5.surface(1).is_some());
    assert!(u5.surface(2).is_none());
    assert!(u5.material(1).is_some());
    assert!(u5.material(2).is_none());
}

#[test]
fn extract_level0_takes_only_rootless_cells() {
    let m = Model::parse("t\n1 0 -1 imp:n=1\n2 0 -2 u=5 imp:n=1\n\n1 SO 5\n2 SO 6\n\nm1 1001 1\n");
    let root = m.extract_level0();
    assert_eq!(root.num_cells(), 1);
    assert!(root.cell(1).is_some());
    assert!(root.cell(2).is_none());
    assert!(root.surface(1).is_some());
    assert!(root.surface(2).is_none());
}

#[test]
fn extract_universe_does_not_recurse_into_filled_sub_universes() {
    let m = Model::parse(
        "t\n\
         1 0 -1 u=5 fill=7 imp:n=1\n\
         2 0 -2 u=7 imp:n=1\n\
         \n\
         1 SO 5\n2 SO 6\n\
         \nm1 1001 1\n",
    );
    let u5 = m.extract_universe(5);
    assert_eq!(u5.num_cells(), 1);
    assert!(u5.cell(1).is_some());
    assert!(u5.cell(2).is_none());
    assert!(u5.surface(2).is_none());
}

#[test]
fn extract_level0_does_not_recurse_into_filled_sub_universes() {
    let m = Model::parse(
        "t\n\
         1 0 -1 fill=5 imp:n=1\n\
         2 0 -2 u=5 imp:n=1\n\
         \n\
         1 SO 5\n2 SO 6\n\
         \nm1 1001 1\n",
    );
    let root = m.extract_level0();
    assert_eq!(root.num_cells(), 1);
    assert!(root.cell(1).is_some());
    assert!(root.cell(2).is_none());
    assert!(root.surface(2).is_none());
}

#[test]
fn extract_keeps_transforms_of_kept_surfaces() {
    let m = Model::parse(
        "title\n1 0 -1 u=3 imp:n=1\n2 0 -2 imp:n=1\n\n1 -4 SO 5\n2 5 SO 6\n\ntr4 0 0 1\ntr5 0 0 2\n",
    );
    let u3 = m.extract_universe(3);
    let out = String::from_utf8(u3.to_source()).unwrap();
    assert_eq!(out, "title\n1 0 -1 u=3 imp:n=1\n\n1 -4 SO 5\n\ntr4 0 0 1\n");
}

fn text(m: &Model) -> String {
    String::from_utf8(m.to_source()).unwrap()
}

#[test]
fn clear_data_cards_keeps_title_cells_surfaces_and_drops_data() {
    let m = Model::parse("t\n1 1 -1.0 -1 imp:n=1\n2 0 -2 imp:n=1\n\n1 SO 5\n2 SO 6\n\nm1 1001 1\n");
    let cleared = m.clear_data_cards();
    assert_eq!(cleared.num_cells(), 2);
    assert!(cleared.cell(1).is_some());
    assert!(cleared.surface(1).is_some());
    assert!(cleared.surface(2).is_some());
    assert!(cleared.material(1).is_none());
    let out = text(&cleared);
    assert!(out.starts_with("t\n"));
    assert!(!out.contains("m1 1001 1"));

    let data_only = Model::parse("data only\n\n\nm1 1001 1\n");
    let mut cleared = cleared;
    cleared.merge(vec![data_only]).unwrap();
    assert!(cleared.material(1).is_some());
    assert!(text(&cleared).contains("2 SO 6\n\nm1 1001 1\n"));
}

#[test]
fn clear_data_cards_keeps_trailing_block_comments() {
    let src = "t\n1 0 -1 imp:n=1\nc TRAILING CELL NOTE\n\n\
               1 SO 10\nc TRAILING SURFACE NOTE\n\nM1 1001 1\n";
    let m = Model::parse(src);
    assert_eq!(text(&m), src);
    let cleared = m.clear_data_cards();
    assert!(text(&cleared).contains("TRAILING CELL NOTE"));
    assert!(text(&cleared).contains("TRAILING SURFACE NOTE"));
}

#[test]
fn clear_data_cards_synthesizes_a_title_when_absent() {
    let cleared = Model::parse("").clear_data_cards();
    assert_eq!(text(&cleared), "cleared\n\n\n");
}

#[test]
fn merged_component_comments_survive() {
    let filler =
        Model::parse("f\n100 0 -100 imp:n=1 u=1\nc FILLER NOTE\n\n100 SO 3\n\nM2 1001 1\n");
    let mut host = Model::parse("h\n1 0 -1 imp:n=1\n\n1 SO 10\n\nM1 1001 1\n").clear_data_cards();
    host.merge(vec![filler.clear_data_cards()]).unwrap();
    assert!(text(&host).contains("FILLER NOTE"));
}

#[test]
fn merge_combines_disjoint_models() {
    let mut a = Model::parse("t\n1 1 -1.0 -1 imp:n=1\n\n1 SO 5\n\nm1 1001 1\n");
    let b = Model::parse("t\n2 2 -2.0 -2 imp:n=1\n\n2 SO 6\n\nm2 8016 1\n");
    assert!(a.merge(vec![b]).is_ok());
    assert_eq!(a.num_cells(), 2);
    assert!(a.cell(2).is_some());
    assert!(a.surface(2).is_some());
    assert!(a.material(2).is_some());
    let out = text(&a);
    assert!(out.contains("1 SO 5"));
    assert!(out.contains("2 SO 6"));
    assert_eq!(
        out,
        "t\n1 1 -1.0 -1 imp:n=1\n2 2 -2.0 -2 imp:n=1\n\n1 SO 5\n2 SO 6\n\nm1 1001 1\nm2 8016 1\n"
    );
}

#[test]
fn merge_rejects_id_collisions_without_mutating() {
    let mut a = Model::parse("t\n1 1 -1.0 -1 imp:n=1\n\n1 SO 5\n\nm1 1001 1\n");
    let before = text(&a);
    let b = Model::parse("t\n1 2 -2.0 -2 imp:n=1\n\n2 SO 6\n\nm2 8016 1\n");
    let err = a.merge(vec![b]).unwrap_err();
    assert!(
        err.contains(&Collision { kind: IdKind::Cell, id: 1, models: vec![0, 1] }),
        "{err:?}"
    );
    assert_eq!(String::from_utf8(err[0].message()).unwrap(), "duplicate cell id 1 (models 0, 1)");
    assert_eq!(text(&a), before);
    assert_eq!(a.num_cells(), 1);
}
