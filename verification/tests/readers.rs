use migjorn::edit::EditError;
use migjorn::num::parse_int;
use migjorn::scan::split_name;

#[test]
fn data_card_names_split_into_mnemonic_and_id() {
    assert_eq!(split_name("m1"), (&b"m"[..], Some(1)));
    assert_eq!(split_name("mt1"), (&b"mt"[..], Some(1)));
    assert_eq!(split_name("tr5"), (&b"tr"[..], Some(5)));
    assert_eq!(split_name("f4"), (&b"f"[..], Some(4)));
    assert_eq!(split_name("e0"), (&b"e"[..], Some(0)));
    assert_eq!(split_name("mode"), (&b"mode"[..], None));
    assert_eq!(split_name("sdef"), (&b"sdef"[..], None));
    assert_eq!(split_name("print"), (&b"print"[..], None));
    assert_eq!(split_name("lwtr"), (&b"lwtr"[..], None));
}

#[test]
fn integers() {
    assert_eq!(parse_int("113"), Some(113));
    assert_eq!(parse_int("+7"), Some(7));
    assert_eq!(parse_int("-3"), Some(-3));
}

#[test]
fn edit_error_has_a_readable_display() {
    assert_eq!(
        EditError::WrongKind.to_string(),
        "card is missing or is not the right kind for this edit"
    );
    assert_eq!(
        EditError::NoSuchField.to_string(),
        "the addressed field does not exist on this card"
    );
    assert_eq!(
        EditError::NoBlock.to_string(),
        "the model has no block of this kind to add the card into"
    );
    let e = EditError::NoBlock;
    assert!(e.to_string().contains("no block"));
}

#[test]
fn line_counts_newlines_before_the_span_start() {
    let source = "first\nsecond\nthird";
    let at = |start: usize| migjorn::diagnostic::line_of(source.as_bytes(), start);
    assert_eq!(at(0), 1);
    assert_eq!(at(6), 2);
    assert_eq!(at(13), 3);
    assert_eq!(at(source.len()), 3);
}

#[test]
fn line_clamps_a_span_start_past_the_end_of_source() {
    assert_eq!(migjorn::diagnostic::line_of(b"abc", 100), 1);
}

#[test]
fn numbers_tolerate_a_leading_plus() {
    assert_eq!(parse_int("+558"), Some(558));
    assert_eq!(parse_int("-3"), Some(-3));
    // the float texts read as numbers; their values are read by the caller
    assert!(migjorn::float::is_mcnp_float(b"+558.36"));
    assert!(migjorn::float::is_mcnp_float(b"1e-3"));
    // shortcuts are not numbers
    assert_eq!(parse_int("3R"), None);
    assert!(!migjorn::float::is_mcnp_float(b"3R"));
}

#[test]
fn mcnp_implicit_exponent_floats() {
    assert!(migjorn::float::is_mcnp_float(b"1.0-5"));
    assert!(migjorn::float::is_mcnp_float(b"6.02+23"));
    assert!(migjorn::float::is_mcnp_float(b"-1.0-5"));
    assert!(migjorn::float::is_mcnp_float(b"2.0+0"));
    // a dangling sign with no digits after it is not a number
    assert!(!migjorn::float::is_mcnp_float(b"1.0-"));
}
