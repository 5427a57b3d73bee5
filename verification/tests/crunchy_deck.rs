use migjorn::crunchy::deck::Deck;

const DECK: &str = "\
title
1 1 -1.0 -1 imp:n=1
2 0 1 imp:n=0

1 SO 5

m1 1001.31c 1
tr1 0 0 5
sdef pos=0 0 0
";

#[test]
fn deck_facade_iterators_and_roundtrip() {
    let d = Deck::parse(DECK);
    assert_eq!(d.cells().len(), 2);
    assert_eq!(d.surfaces().len(), 1);
    assert_eq!(d.materials().len(), 1);
    assert_eq!(d.transforms().len(), 1);
    // sdef + m1 + tr1 are all data cards.
    assert_eq!(d.data_cards().len(), 3);
    assert!(d.diagnostics().is_empty());
    assert_eq!(d.to_source(), DECK.as_bytes().to_vec());
}

#[test]
fn deck_index_lookups() {
    let d = Deck::parse(DECK);
    let idx = d.index();
    assert_eq!(idx.cells.len(), 2);
    assert!(idx.cells.contains_key(&1));
    assert!(idx.cells.contains_key(&2));
    assert!(idx.surfaces.contains_key(&1));
    assert!(idx.materials.contains_key(&1));
    assert!(idx.transforms.contains_key(&1));
}

#[test]
fn deck_facade_renumber() {
    let mut d = Deck::parse(DECK);
    d.renumber_surfaces(|id| id + 100);
    let out = String::from_utf8(d.to_source()).unwrap();
    assert!(out.contains("101 SO 5"));
    assert!(out.contains("-101 imp:n=1"));
}

#[test]
fn deck_index_maps_ids_to_card_positions() {
    let d = Deck::parse("t\n7 0 -3 imp:n=1\n\n3 PX 0\n3 PY 1\n\nm4 1001 1\n");
    let idx = d.index();
    assert_eq!(idx.cell(7), Some(1));
    // built in card order: a second definition takes the id over
    assert_eq!(idx.surface(3), Some(3));
    assert_eq!(idx.material(4), Some(4));
    assert_eq!(idx.transform(1), None);
}
