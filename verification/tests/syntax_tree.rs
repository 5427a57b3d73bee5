use migjorn::card::Card;
use migjorn::cst::Cst;
use migjorn::kind::{CardKind, SyntaxKind};

fn cell(text: &str) -> Card {
    Card::new(CardKind::Cell, text.as_bytes().to_vec())
}

fn new_card(kind: CardKind, text: &str) -> Card {
    Cst::new_card(kind, text.to_owned())
}

fn source(cst: &Cst) -> String {
    String::from_utf8(cst.to_source()).unwrap()
}

#[test]
fn set_token_text_shifts_following_spans() {
    let mut c = cell("1 1 -1.0 -1 imp:n=1 $ fuel\n");
    c.set_token_text(1, "22");
    assert_eq!(c.text(), b"1 22 -1.0 -1 imp:n=1 $ fuel\n");
    assert_eq!(c.token_text(2), b"-1.0");
    assert_eq!(c.token_text(3), b"-1");
    assert_eq!(c.tokens().last().unwrap().kind, SyntaxKind::Comment);
    assert_eq!(c.token_text(c.tokens().len() - 1), b"$ fuel");
}

#[test]
fn rewrite_tokens_matches_repeated_single_edits() {
    let src = "2 0 (1 : (2 3)) -4 imp:n=1\n";
    let mut batch = cell(src);
    let mut one_by_one = cell(src);

    let edits: Vec<(usize, &str)> = vec![(3, "101"), (6, "102"), (7, "103"), (10, "-104")];
    let bytes: Vec<(usize, &[u8])> = edits.iter().map(|(i, s)| (*i, s.as_bytes())).collect();
    batch.rewrite_tokens(&bytes);
    for &(i, s) in &edits {
        one_by_one.set_token_text(i, s);
    }

    assert_eq!(batch.text(), one_by_one.text());
    assert_eq!(batch.text(), b"2 0 (101 : (102 103)) -104 imp:n=1\n");
    assert_eq!(batch.tokens(), one_by_one.tokens());
    assert_eq!(batch.token_text(10), b"-104");
}

#[test]
fn splice_relexes_only_this_card() {
    let mut c = cell("2 0 1 imp:n=0\n");
    let t = c.tokens()[1];
    let at = (t.start as usize)..((t.start + t.len) as usize);
    c.splice(at, "5 0");
    assert_eq!(c.text(), b"2 5 0 1 imp:n=0\n");
    assert_eq!(c.token_text(1), b"5");
    assert_eq!(c.token_text(2), b"0");
    assert_eq!(c.token_text(3), b"1");
}

const SRC: &str = "Minimal valid model\n\
                   1 1 -1.0 -1 imp:n=1 $ fuel sphere\n\
                   2 0 1 imp:n=0\n\
                   \n\
                   1 SO 5\n\
                   \n\
                   m1 1001.31c 1\n";

#[test]
fn round_trips_and_classifies_blocks() {
    let cst = Cst::parse(SRC);
    assert_eq!(source(&cst), SRC);
    let kinds: Vec<CardKind> = cst.cards().iter().map(|c| c.kind()).collect();
    assert_eq!(
        kinds,
        vec![
            CardKind::Title,
            CardKind::Cell,
            CardKind::Cell,
            CardKind::Blank,
            CardKind::Surface,
            CardKind::Blank,
            CardKind::Data,
        ]
    );
}

#[test]
fn slots_survive_edits_to_other_cards() {
    let mut cst = Cst::parse(SRC);
    let second_cell = cst.at(2).unwrap().slot();
    let new = new_card(CardKind::Cell, "3 0 -1 imp:n=1\n");
    cst.insert_at(1, new);
    assert_eq!(cst.card(second_cell).unwrap().text(), b"2 0 1 imp:n=0\n");
    assert_eq!(cst.position_of(second_cell), Some(3));
}

#[test]
fn insert_then_remove_is_byte_identity() {
    let mut cst = Cst::parse(SRC);
    let at = cst.end_of_block(CardKind::Cell).unwrap();
    let slot = cst.insert_at(at, new_card(CardKind::Cell, "42 0 -1 imp:n=1\n"));
    assert!(source(&cst).contains("42 0 -1 imp:n=1"));
    assert!(cst.remove_slot(slot));
    assert_eq!(source(&cst), SRC);
    assert!(cst.card(slot).is_none());
}

#[test]
fn insert_many_at_batches_in_order() {
    let mut cst = Cst::parse(SRC);
    let at = cst.end_of_block(CardKind::Cell).unwrap();
    let cards: Vec<Card> = (10..13)
        .map(|n| new_card(CardKind::Cell, &format!("{n} 0 -1 imp:n=1\n")))
        .collect();
    let slots = cst.insert_many_at(at, cards);

    assert_eq!(slots.len(), 3);
    let mut sorted = slots.clone();
    sorted.sort_unstable();
    sorted.dedup();
    assert_eq!(sorted.len(), 3);

    for (offset, slot) in slots.iter().enumerate() {
        assert_eq!(cst.position_of(*slot), Some(at + offset));
        assert_eq!(cst.card(*slot).unwrap().kind(), CardKind::Cell);
    }
    assert_eq!(cst.card(slots[0]).unwrap().text(), b"10 0 -1 imp:n=1\n");
    assert_eq!(cst.card(slots[2]).unwrap().text(), b"12 0 -1 imp:n=1\n");

    let mut expected = Cst::parse(SRC);
    for n in 10..13 {
        let at = expected.end_of_block(CardKind::Cell).unwrap();
        expected.insert_at(at, new_card(CardKind::Cell, &format!("{n} 0 -1 imp:n=1\n")));
    }
    assert_eq!(cst.to_source(), expected.to_source());
}

#[test]
fn insert_many_at_with_empty_iter_is_a_no_op() {
    let mut cst = Cst::parse(SRC);
    let at = cst.end_of_block(CardKind::Cell).unwrap();
    let slots = cst.insert_many_at(at, Vec::new());
    assert!(slots.is_empty());
    assert_eq!(source(&cst), SRC);
}

#[test]
fn removed_slots_are_never_reused() {
    let mut cst = Cst::parse(SRC);
    let a = cst.push(new_card(CardKind::Data, "nps 1e6\n"));
    cst.remove_slot(a);
    let b = cst.push(new_card(CardKind::Data, "print\n"));
    assert_ne!(a, b);
    assert!(cst.card(a).is_none());
}

#[test]
fn a_batch_of_edits_is_its_edits_in_order() {
    let mut batch = migjorn::card::Card::new(migjorn::kind::CardKind::Cell, b"1 0 -1\n".to_vec());
    let mut one_by_one = migjorn::card::Card::new(migjorn::kind::CardKind::Cell, b"1 0 -1\n".to_vec());
    let edits: Vec<(usize, &[u8])> = vec![(0, &b"100"[..]), (2, &b"-22"[..])];
    batch.rewrite_tokens(&edits);
    one_by_one.set_token_bytes(0, b"100");
    one_by_one.set_token_bytes(2, b"-22");
    assert_eq!(batch.text(), &b"100 0 -22\n"[..]);
    assert_eq!(batch.text(), one_by_one.text());
}
