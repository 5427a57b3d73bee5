use migjorn::crunchy::cell::{parse_cell, scan_cell_refs, Cell, RefKind};
use migjorn::crunchy::cst::{parse, GreenTree};
use migjorn::crunchy::geom::{GeomExpr, SurfaceRef};
use migjorn::crunchy::syntax_kind::SyntaxKind;

fn model(cell_line: &str) -> GreenTree {
    let src = format!("title\n{cell_line}\n\n1 PX 0\n\nm1 1001 1\n");
    parse(&src).tree
}

fn first_cell(t: &GreenTree) -> Cell {
    let ci = t
        .cards()
        .iter()
        .position(|c| c.kind == SyntaxKind::CELL_CARD)
        .unwrap();
    parse_cell(t, ci).unwrap()
}

fn surface_refs(c: &Cell) -> Vec<SurfaceRef> {
    match &c.geometry {
        Some(g) => g.for_each_surface_ref(),
        None => Vec::new(),
    }
}

fn cell_ref_ids(c: &Cell) -> Vec<i64> {
    let mut out: Vec<i64> = match &c.geometry {
        Some(g) => g.for_each_cell_ref().iter().map(|r| r.id).collect(),
        None => Vec::new(),
    };
    if let Some(l) = c.like {
        out.push(l.id);
    }
    out
}

fn signed(g: &GeomExpr) -> Vec<i64> {
    g.for_each_surface_ref()
        .iter()
        .map(|r| if r.negative { -r.id } else { r.id })
        .collect()
}

fn density(t: &GreenTree, c: &Cell) -> Option<f64> {
    c.density_token
        .map(|k| std::str::from_utf8(t.token_text(k)).unwrap().parse::<f64>().unwrap())
}

#[test]
fn void_and_material_cells() {
    let t = model("1 1 -1.0 -1 imp:n=1");
    let c = first_cell(&t);
    assert_eq!(c.id, 1);
    assert_eq!(c.material, Some(1));
    assert_eq!(density(&t, &c), Some(-1.0));
    assert!(c.well_formed);

    let t = model("2 0 1 imp:n=0");
    let c = first_cell(&t);
    assert_eq!(c.material, Some(0));
    assert_eq!(density(&t, &c), None);
}

#[test]
fn surface_refs_with_sense() {
    let t = model("1 0 -1 2 -3");
    let refs = surface_refs(&first_cell(&t));
    assert_eq!(
        refs,
        vec![
            SurfaceRef { token: refs[0].token, id: 1, negative: true },
            SurfaceRef { token: refs[1].token, id: 2, negative: false },
            SurfaceRef { token: refs[2].token, id: 3, negative: true },
        ]
    );
}

#[test]
fn union_and_intersection() {
    let t = model("1 0 1 -2 : 3");
    let g = first_cell(&t).geometry.unwrap();
    match g {
        GeomExpr::Union(parts) => assert_eq!(parts.len(), 2),
        other => panic!("expected union, got {other:?}"),
    }
}

#[test]
fn cell_complement_and_region_complement() {
    let t = model("5 0 #3 #(1 -2) imp:n=1");
    let c = first_cell(&t);
    let cell_refs = cell_ref_ids(&c);
    assert_eq!(cell_refs.len(), 1);
    assert_eq!(cell_refs[0], 3);
    let s: Vec<_> = surface_refs(&c).iter().map(|r| r.id).collect();
    assert_eq!(s, vec![1, 2]);
}

#[test]
fn nested_parentheses() {
    let t = model("1 0 (1 : (2 3)) -4");
    let c = first_cell(&t);
    assert!(c.well_formed, "nested parens must parse");
    let ids: Vec<_> = surface_refs(&c).iter().map(|r| r.id).collect();
    assert_eq!(ids, vec![1, 2, 3, 4]);
}

#[test]
fn scan_matches_tree_walk() {
    let t = model("5 1 -2.0 (-1 : -2) 3 #4 #(5 -6) imp:n=1");
    let c = first_cell(&t);
    let tree_surface: Vec<_> = surface_refs(&c).iter().map(|r| (r.id, r.negative)).collect();
    let tree_cell = cell_ref_ids(&c);

    let mut scan_surface = Vec::new();
    let mut scan_cell = Vec::new();
    let mut ids = Vec::new();
    for (kind, _tok, val) in scan_cell_refs(&t, c.card_index) {
        match kind {
            RefKind::CellId => ids.push(val),
            RefKind::SurfaceRef { negative } => scan_surface.push((val, negative)),
            RefKind::CellRef => scan_cell.push(val),
        }
    }
    assert_eq!(ids, vec![5]);
    assert_eq!(scan_surface, tree_surface);
    assert_eq!(scan_cell, tree_cell);
}

#[test]
fn like_but_form() {
    let t = model("9 LIKE 3 BUT mat=2 rho=-1.0");
    let c = first_cell(&t);
    assert_eq!(c.id, 9);
    assert_eq!(c.like.unwrap().id, 3);
    assert!(c.geometry.is_none());
    assert_eq!(cell_ref_ids(&c)[0], 3);
}

#[test]
fn intersect_surface_ands_with_region() {
    let t = model("1 0 -1 : 2");
    let mut g = first_cell(&t).geometry.unwrap();
    g.intersect_surface(3, true);
    assert_eq!(signed(&g), vec![-1, 2, -3]);
}

#[test]
fn remove_surface_simplifies() {
    let t = model("1 0 -1 2 -3");
    let mut g = first_cell(&t).geometry.unwrap();
    assert!(g.remove_surface(2));
    assert_eq!(signed(&g), vec![-1, -3]);
    assert!(!g.remove_surface(99));
    assert_eq!(signed(&g), vec![-1, -3]);
}

#[test]
fn remove_last_surface_empties_geometry() {
    let t = model("1 0 -1");
    let mut g = first_cell(&t).geometry.unwrap();
    assert!(g.remove_surface(1));
    assert!(g.is_empty());
}

#[test]
fn add_and_remove_cell_complement() {
    let t = model("1 0 -1 2");
    let mut g = first_cell(&t).geometry.unwrap();
    g.intersect_cell_complement(7);
    let ids: Vec<i64> = g.for_each_cell_ref().iter().map(|r| r.id).collect();
    assert_eq!(ids, vec![7]);
    assert!(g.remove_cell_complement(7));
    assert!(g.for_each_cell_ref().is_empty());
}

#[test]
fn extreme_numbers_outside_surface_positions_still_parse() {
    let t = model("1 0 -2 u=-9223372036854775808");
    let c = first_cell(&t);
    assert_eq!(c.id, 1);
    assert_eq!(surface_refs(&c).iter().map(|r| r.id).collect::<Vec<_>>(), vec![2]);
    let t2 = model("-9223372036854775808 0 -2 #-9223372036854775808");
    let c2 = first_cell(&t2);
    assert_eq!(c2.id, i64::MIN);
    assert_eq!(cell_ref_ids(&c2), vec![i64::MIN]);
}

#[test]
fn cell_refs_list_the_like_base_then_complements() {
    let t = model("5 0 -1 #4 #(2 -3) imp:n=1");
    let c = first_cell(&t);
    assert_eq!(c.surface_refs().iter().map(|r| r.id).collect::<Vec<_>>(), vec![1, 2, 3]);
    assert_eq!(c.cell_refs().iter().map(|r| r.id).collect::<Vec<_>>(), vec![4]);
    let t2 = model("9 LIKE 3 BUT imp:n=1");
    let c2 = first_cell(&t2);
    assert_eq!(c2.cell_refs().iter().map(|r| r.id).collect::<Vec<_>>(), vec![3]);
    assert!(c2.surface_refs().is_empty());
}

#[test]
fn scan_safety_looks_only_at_surface_positions() {
    use_scan_safe("1 0 -2 u=-9223372036854775808", true);
    use_scan_safe("1 0 -9223372036854775808 imp:n=1", false);
    use_scan_safe("1 0 #-9223372036854775808 imp:n=1", true);
}

fn use_scan_safe(line: &str, expected: bool) {
    let t = model(line);
    let ci = t
        .cards()
        .iter()
        .position(|c| c.kind == SyntaxKind::CELL_CARD)
        .unwrap();
    assert_eq!(migjorn::crunchy::cell::scan_safe(&t, ci), expected);
}
