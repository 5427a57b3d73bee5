use migjorn::crunchy::cst::{parse, Parsed};
use migjorn::crunchy::syntax_kind::SyntaxKind;

fn kinds(p: &Parsed) -> Vec<SyntaxKind> {
    p.tree.cards().iter().map(|c| c.kind).collect()
}

fn source(p: &Parsed) -> String {
    String::from_utf8(p.tree.to_source()).unwrap()
}

#[test]
fn roundtrips_full_deck() {
    let src = "\u{feff}Test title\n1 0 -1 imp:n=1 $ void\n2 0 1\n\n1 PX 0.0\n2 SO 5\n\nm1 1001 1\n";
    let p = parse(src);
    assert_eq!(source(&p), src);
}

#[test]
fn splits_blocks_into_cards() {
    let src = "title\n1 0 -1\n2 0 1\n\n10 PX 0\n11 PY 0\n\nsdef pos=0 0 0\n";
    let p = parse(src);
    assert_eq!(
        kinds(&p),
        vec![
            SyntaxKind::TITLE_CARD,
            SyntaxKind::CELL_CARD,
            SyntaxKind::CELL_CARD,
            SyntaxKind::SURFACE_CARD,
            SyntaxKind::SURFACE_CARD,
            SyntaxKind::DATA_CARD,
        ]
    );
}

#[test]
fn title_that_looks_like_a_comment_is_the_title() {
    let src = "C\n1 0 -1\n\n1 SO 5\n\nm1 1001 1\n";
    let p = parse(src);
    assert_eq!(p.tree.cards()[0].kind, SyntaxKind::TITLE_CARD);
}

#[test]
fn continuation_by_indent_joins_card() {
    let src = "title\n1 0 -1 2 -3\n     4 -5\n\n1 PX 0\n\nm1 1001 1\n";
    let p = parse(src);
    let cell_cards: Vec<_> = p
        .tree
        .cards()
        .iter()
        .filter(|c| c.kind == SyntaxKind::CELL_CARD)
        .collect();
    assert_eq!(cell_cards.len(), 1, "indented continuation must join");
}

#[test]
fn continuation_by_ampersand_joins_card() {
    let src = "title\n1 0 -1 &\n2 -3\n\n1 PX 0\n\nm1 1001 1\n";
    let p = parse(src);
    let cell_cards = p
        .tree
        .cards()
        .iter()
        .filter(|c| c.kind == SyntaxKind::CELL_CARD)
        .count();
    assert_eq!(cell_cards, 1, "ampersand continuation must join");
}

#[test]
fn comment_lines_do_not_break_cards() {
    let src = "title\n1 0 -1\nc a comment\n2 0 1\n\n1 PX 0\n\nm1 1001 1\n";
    let p = parse(src);
    let cells = p
        .tree
        .cards()
        .iter()
        .filter(|c| c.kind == SyntaxKind::CELL_CARD)
        .count();
    assert_eq!(cells, 2);
    assert_eq!(source(&p), src);
}

#[test]
fn token_override_roundtrips_the_edit() {
    let src = "title\n1 0 -1\n\n1 PX 0\n\nm1 1001 1\n";
    let mut p = parse(src);
    let cell = *p
        .tree
        .cards()
        .iter()
        .find(|c| c.kind == SyntaxKind::CELL_CARD)
        .unwrap();
    let id_tok = p.tree.card_content_tokens(&cell)[0];
    assert_eq!(p.tree.token_text(id_tok), b"1");
    p.tree.set_token_text(id_tok, "999");
    assert_eq!(source(&p), "title\n999 0 -1\n\n1 PX 0\n\nm1 1001 1\n");
}

#[test]
fn missing_delimiters_warn_but_still_parse() {
    let src = "title\n1 0 -1\n2 PX 0\n";
    let p = parse(src);
    assert!(!p.diagnostics.is_empty());
    assert_eq!(source(&p), src);
}

#[test]
fn cards_tile_the_token_stream_even_past_extra_blank_lines() {
    let src = "title\n1 0 -1\n\n\nc lone\n1 PX 0\n\nm1 1001 1\n\n";
    let p = parse(src);
    let cards = p.tree.cards();
    assert_eq!(cards[0].first_tok, 0);
    for w in cards.windows(2) {
        assert_eq!(w[0].tok_end, w[1].first_tok);
    }
    assert_eq!(cards.last().unwrap().tok_end as usize, p.tree.token_count());
}
