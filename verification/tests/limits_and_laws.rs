use migjorn::card::Card;
use migjorn::crunchy::cst::{parse, try_parse};
use migjorn::crunchy::renumber::{can_renumber, renumber_cells, renumber_surfaces};
use migjorn::crunchy::syntax_kind::SyntaxKind;
use migjorn::kind::CardKind;
use migjorn::model::{Family, Model};

const DECK: &str = "title\n1 1 -1.0 -1 imp:n=1\n2 0 1 imp:n=0\n\n1 SO 5\n\nm1 1001.31c 1\n";

#[test]
fn model_try_parse_bytes_reads_an_ordinary_file() {
    let m = Model::try_parse_bytes(DECK.as_bytes()).expect("an ordinary file parses");
    assert_eq!(m.to_source(), DECK.as_bytes().to_vec());
    let empty = Model::try_parse_bytes(b"").expect("the empty file parses");
    assert_eq!(empty.to_source(), Vec::<u8>::new());
}

#[test]
fn tree_try_parse_reads_an_ordinary_file() {
    let p = try_parse(DECK).expect("an ordinary file parses");
    assert_eq!(p.tree.to_source(), DECK.as_bytes().to_vec());
    assert!(!p.tree.is_edited());
}

#[test]
fn edits_leave_the_tree_edited() {
    let mut p = parse(DECK);
    assert!(!p.tree.is_edited());
    p.tree.set_token_text(0, "title");
    assert!(p.tree.is_edited());
    p.tree.set_token_int(0, 7);
    assert!(p.tree.is_edited());
    p.tree.set_token_bytes(0, b"title".to_vec());
    assert!(p.tree.is_edited());
    // The text is the original again, but the tree still reports the edit.
    assert_eq!(p.tree.to_source(), DECK.as_bytes().to_vec());
}

#[test]
fn batch_of_edits_equals_edits_one_at_a_time_on_a_longer_batch() {
    let src = "3 1 -2.5 (1 -2 3) : (-4 5) #7 imp:n=1\n";
    let mut batch = Card::new(CardKind::Cell, src.as_bytes().to_vec());
    let mut one = Card::new(CardKind::Cell, src.as_bytes().to_vec());
    let n = batch.tokens().len();
    let edits: Vec<(usize, String)> = (0..n)
        .filter(|&i| batch.tokens()[i].kind == migjorn::kind::SyntaxKind::Number)
        .map(|i| (i, format!("{}0", String::from_utf8_lossy(batch.token_text(i)))))
        .collect();
    assert!(edits.len() > 5);
    let bytes: Vec<(usize, &[u8])> = edits.iter().map(|(i, s)| (*i, s.as_bytes())).collect();
    batch.rewrite_tokens(&bytes);
    for (i, s) in &edits {
        one.set_token_text(*i, s);
    }
    assert_eq!(batch.text(), one.text());
    assert_eq!(batch.tokens(), one.tokens());
}

#[test]
fn can_renumber_accepts_an_ordinary_deck() {
    let p = parse(DECK);
    assert!(can_renumber(&p.tree));
}

#[test]
fn can_renumber_refuses_a_cell_without_its_density() {
    let p = parse("title\n1 5\n\n1 SO 5\n\n");
    assert!(p
        .tree
        .cards()
        .iter()
        .any(|c| c.kind == SyntaxKind::CELL_CARD));
    assert!(!can_renumber(&p.tree));
}

#[test]
fn renumbering_the_tree_shifts_definitions_and_references() {
    let mut p = parse(DECK);
    assert!(can_renumber(&p.tree));
    renumber_surfaces(&mut p.tree, |id| id + 100);
    renumber_cells(&mut p.tree, |id| id + 10);
    let out = String::from_utf8(p.tree.to_source()).unwrap();
    assert_eq!(out, "title\n11 1 -1.0 -101 imp:n=1\n12 0 101 imp:n=0\n\n101 SO 5\n\nm1 1001.31c 1\n");
}

#[test]
fn id_lookups_agree_before_and_after_edits_and_reindexing() {
    let mut m = Model::parse("t\n1 0 -3 imp:n=1\n\n3 PX 0\n3 PY 1\n\n");
    let first = m.find_definition(Family::Surface, 3).expect("surface 3 is defined");
    let second = m.find_definition(Family::Cell, 1).expect("cell 1 is defined");
    assert_ne!(first, second);
    // Two surfaces define 3: the first in the file wins.
    assert_eq!(m.card(first).unwrap().text(), b"3 PX 0\n");
    assert_eq!(m.find_definition(Family::Surface, 4), None);
    assert_eq!(m.find_definition(Family::Data, 3), None);

    // An edit drops the index; lookups still answer for the current cards.
    m.set_surface_id(first, 5).unwrap();
    assert_eq!(m.find_definition(Family::Surface, 5), Some(first));
    let other = m.find_definition(Family::Surface, 3).expect("the second surface 3 remains");
    assert_eq!(m.card(other).unwrap().text(), b"3 PY 1\n");

    // Rebuilding the index gives the same answers.
    m.reindex();
    assert_eq!(m.find_definition(Family::Surface, 5), Some(first));
    assert_eq!(m.find_definition(Family::Surface, 3), Some(other));
    assert_eq!(m.find_definition(Family::Cell, 1), Some(second));
}
