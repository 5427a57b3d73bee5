use migjorn::crunchy::lexer::lex;
use migjorn::crunchy::syntax_kind::SyntaxKind;
use migjorn::crunchy::syntax_kind::SyntaxKind::{
    COLON, COMMENT_LINE, DOLLAR_COMMENT, HASH, IDENT, L_PAREN, NEWLINE, NUMBER, R_PAREN,
    WHITESPACE,
};

fn toks(src: &str) -> Vec<(SyntaxKind, &str)> {
    let bytes = src.as_bytes();
    lex(bytes)
        .iter()
        .map(|t| {
            let (s, l) = (t.start as usize, t.len as usize);
            (t.kind, std::str::from_utf8(&bytes[s..s + l]).unwrap())
        })
        .collect()
}

fn assert_lossless(src: &str) {
    let bytes = src.as_bytes();
    let mut pos = 0u32;
    for t in lex(bytes) {
        assert_eq!(t.start, pos, "gap/overlap in {src:?}");
        pos += t.len;
    }
    assert_eq!(pos as usize, bytes.len(), "did not cover all of {src:?}");
}

#[test]
fn surface_card() {
    assert_eq!(
        toks("1 PX 3.5\n"),
        vec![
            (NUMBER, "1"),
            (WHITESPACE, " "),
            (IDENT, "PX"),
            (WHITESPACE, " "),
            (NUMBER, "3.5"),
            (NEWLINE, "\n"),
        ]
    );
}

#[test]
fn comment_card_and_inline() {
    assert_eq!(
        toks("c hello\n1 SO 5 $ a sphere\n"),
        vec![
            (COMMENT_LINE, "c hello"),
            (NEWLINE, "\n"),
            (NUMBER, "1"),
            (WHITESPACE, " "),
            (IDENT, "SO"),
            (WHITESPACE, " "),
            (NUMBER, "5"),
            (WHITESPACE, " "),
            (DOLLAR_COMMENT, "$ a sphere"),
            (NEWLINE, "\n"),
        ]
    );
}

#[test]
fn c_prefix_ident_is_not_a_comment() {
    assert_eq!(toks("1 CZ 4\n")[2], (IDENT, "CZ"));
}

#[test]
fn mcnp_exponent_is_one_number() {
    assert_eq!(toks("1.0-5")[0], (NUMBER, "1.0-5"));
}

#[test]
fn geometry_punctuation() {
    assert_eq!(
        toks("#(1:-2)"),
        vec![
            (HASH, "#"),
            (L_PAREN, "("),
            (NUMBER, "1"),
            (COLON, ":"),
            (NUMBER, "-2"),
            (R_PAREN, ")"),
        ]
    );
}

#[test]
fn bom_is_tokenized() {
    assert_eq!(toks("\u{feff}c x")[0].0, SyntaxKind::BOM);
}

#[test]
fn lossless_invariants() {
    assert_lossless("\u{feff}c title\n1 0 -1 imp:n=1 $ c\n\n 2 PY 3.0-4 &\n     4\n");
    assert_lossless("   c indented comment\n");
    assert_lossless("100 like 5 but mat=3\n");
}
