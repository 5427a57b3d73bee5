use migjorn::crunchy::flat::build_flat_tree;

#[test]
fn flat_roundtrips() {
    let src = "\u{feff}c title\n1 0 -1 imp:n=1 $ c\n\n2 PX 3.0\n";
    let tree = build_flat_tree(src);
    assert_eq!(tree.to_string(src), src.as_bytes());
}

#[test]
fn counts_lines() {
    let src = "1 PX 1\n2 PY 2\n3 PZ 3\n";
    let tree = build_flat_tree(src);
    assert_eq!(tree.line_count(), 3);
}
