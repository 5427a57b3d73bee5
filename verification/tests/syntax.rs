use migjorn::kind::SyntaxKind::{Colon, Comment, Ident, LParen, Number, RParen, Star, Unknown};
use migjorn::kind::{CardKind, SyntaxKind};
use migjorn::lex::lex;
use migjorn::lines::{
    ends_with_ampersand, is_blank, is_blank_col_continuation, is_comment_line, starts_with_message,
};

fn kinds(text: &str) -> Vec<(SyntaxKind, &str)> {
    kinds_of(text, CardKind::Cell)
}

fn kinds_of(text: &str, kind: CardKind) -> Vec<(SyntaxKind, &str)> {
    lex(text, kind)
        .into_iter()
        .map(|t| (t.kind, &text[t.range()]))
        .collect()
}

#[test]
fn cell_card_with_inline_comment() {
    assert_eq!(
        kinds("1 1 -1.0 -1 imp:n=1 $ fuel sphere\n"),
        vec![
            (Number, "1"),
            (Number, "1"),
            (Number, "-1.0"),
            (Number, "-1"),
            (Ident, "imp"),
            (Colon, ":"),
            (Ident, "n"),
            (SyntaxKind::Eq, "="),
            (Number, "1"),
            (Comment, "$ fuel sphere"),
        ]
    );
}

#[test]
fn geometry_operators() {
    assert_eq!(
        kinds("3 0 #1 #(2 -3) imp:n=1\n"),
        vec![
            (Number, "3"),
            (Number, "0"),
            (SyntaxKind::Hash, "#"),
            (Number, "1"),
            (SyntaxKind::Hash, "#"),
            (LParen, "("),
            (Number, "2"),
            (Number, "-3"),
            (RParen, ")"),
            (Ident, "imp"),
            (Colon, ":"),
            (Ident, "n"),
            (SyntaxKind::Eq, "="),
            (Number, "1"),
        ]
    );
}

#[test]
fn boundary_prefixes_and_shortcuts() {
    assert_eq!(
        kinds("+3  PY  0\n"),
        vec![(Number, "+3"), (Ident, "PY"), (Number, "0")]
    );
    assert_eq!(
        kinds("*2  PX  0\n"),
        vec![(Star, "*"), (Number, "2"), (Ident, "PX"), (Number, "0")]
    );
    assert_eq!(
        kinds("e0 1e-3 8I 1 2J 20\n"),
        vec![
            (Ident, "e0"),
            (Number, "1e-3"),
            (Number, "8I"),
            (Number, "1"),
            (Number, "2J"),
            (Number, "20"),
        ]
    );
}

#[test]
fn absorbed_comment_lines_are_single_tokens() {
    let text = "2 0 (1 : -2) -4\nc absorbed\n     imp:n=0\n";
    let got = kinds(text);
    assert!(got.contains(&(Comment, "c absorbed")));
    assert_eq!(got.last(), Some(&(Number, "0")));
}

#[test]
fn malformed_words_are_unknown_not_a_panic() {
    assert_eq!(kinds("2 0 1 -\n").last(), Some(&(Unknown, "-")));
    assert!(kinds("m1 1001 zzz\n").contains(&(Ident, "zzz")));
}

#[test]
fn fc_and_sc_cards_treat_the_label_as_free_text() {
    assert_eq!(
        kinds_of("FC202 Neutron flux per energy bin [#/cm^2/s]\n", CardKind::Data),
        vec![(Ident, "FC202"), (Comment, "Neutron flux per energy bin [#/cm^2/s]")]
    );
    assert_eq!(
        kinds_of("sc1 a source comment: 50% [x]\n", CardKind::Data),
        vec![(Ident, "sc1"), (Comment, "a source comment: 50% [x]")]
    );
    assert_eq!(kinds_of("FC14\n", CardKind::Data), vec![(Ident, "FC14")]);
    assert_eq!(
        kinds_of("FCL124 0 0 0 1\n", CardKind::Data),
        vec![
            (Ident, "FCL124"),
            (Number, "0"),
            (Number, "0"),
            (Number, "0"),
            (Number, "1"),
        ]
    );
    assert_eq!(
        kinds_of("FC202 Neutron flux per energy bin [#/cm^2/s]\n", CardKind::Cell),
        vec![
            (Ident, "FC202"),
            (Ident, "Neutron"),
            (Ident, "flux"),
            (Ident, "per"),
            (Ident, "energy"),
            (Ident, "bin"),
            (Unknown, "["),
            (SyntaxKind::Hash, "#"),
            (Unknown, "/cm^2/s]"),
        ]
    );
    assert_eq!(
        kinds_of("c planes identify front, end\nFC202 flux [#/cm^2/s]\n", CardKind::Data),
        vec![
            (Comment, "c planes identify front, end"),
            (Ident, "FC202"),
            (Comment, "flux [#/cm^2/s]"),
        ]
    );
}

#[test]
fn opaque_cards_have_no_tokens() {
    assert!(lex("C\r\n", CardKind::Title).is_empty());
    assert!(lex("\n", CardKind::Blank).is_empty());
}

#[test]
fn comment_lines_respect_the_five_column_rule() {
    assert!(is_comment_line(b"c a comment\n"));
    assert!(is_comment_line(b"C a comment\r\n"));
    assert!(is_comment_line(b"    c indented but still column 5\n"));
    assert!(is_comment_line(b"c\n"));
    assert!(is_comment_line(b"c"));
    assert!(!is_comment_line(b"     c this continues the previous card\n"));
    assert!(!is_comment_line(b"cx 1 2 3\n"));
    assert!(!is_blank(b"c\n"));
}

#[test]
fn blank_column_continuations() {
    assert!(is_blank_col_continuation(b"     13 -14 imp:n=1\n"));
    assert!(is_blank_col_continuation(b"\t 1 2\n"));
    assert!(!is_blank_col_continuation(b"   4 -5 imp:n=1\n"));
    assert!(!is_blank_col_continuation(b"    4 -5\n"));
    assert!(!is_blank_col_continuation(b"        \n"));
    assert!(!is_blank_col_continuation(b"1 0 -1\n"));
}

#[test]
fn tabs_expand_to_columns_for_the_comment_rule() {
    assert!(!is_comment_line(b"\tc not a comment\n"));
    assert!(is_comment_line(b"c real comment\n"));
}

#[test]
fn ampersand_is_read_past_inline_comments() {
    assert!(ends_with_ampersand(b"10 0 -1 2 -3 &\n"));
    assert!(ends_with_ampersand(b"10 0 -1 &   $ trailing note\r\n"));
    assert!(!ends_with_ampersand(b"10 0 -1 $ & not a continuation\n"));
    assert!(!ends_with_ampersand(b"10 0 -1\n"));
}

#[test]
fn message_detection() {
    assert!(starts_with_message(b"MESSAGE: outp=o\n"));
    assert!(starts_with_message(b"\xEF\xBB\xBFmessage: outp=o\n"));
    assert!(!starts_with_message(b"Minimal valid model\n"));
}
