use migjorn::crunchy::cst::{parse, GreenTree};
use migjorn::crunchy::surface::{surfaces, Surface};
use migjorn::crunchy::surface_kind::SurfaceKind;

fn mcnp_float(text: &[u8]) -> f64 {
    let t = std::str::from_utf8(text).unwrap();
    let t = t.strip_prefix('+').unwrap_or(t);
    if let Ok(v) = t.parse::<f64>() {
        return v;
    }
    let b = t.as_bytes();
    for i in 1..b.len() {
        if (b[i] == b'+' || b[i] == b'-') && !matches!(b[i - 1], b'e' | b'E') {
            let fixed = format!("{}e{}", &t[..i], &t[i..]);
            if let Ok(v) = fixed.parse::<f64>() {
                return v;
            }
        }
    }
    panic!("not a number: {t}")
}

fn coeffs(t: &GreenTree, s: &Surface) -> Vec<f64> {
    s.coeff_tokens.iter().map(|&k| mcnp_float(t.token_text(k))).collect()
}

fn model(surface_line: &str) -> GreenTree {
    let src = format!("title\n1 0 -1\n\n{surface_line}\n\nm1 1001 1\n");
    parse(&src).tree
}

#[test]
fn simple_plane() {
    let t = model("113 PX -10");
    let s = surfaces(&t).into_iter().next().unwrap();
    assert_eq!(s.id, 113);
    assert_eq!(s.kind, SurfaceKind::Px);
    assert_eq!(coeffs(&t, &s), vec![-10.0]);
    assert!(s.transform.is_none());
    assert!(s.well_formed);
}

#[test]
fn with_transform() {
    let t = model("5 3 CZ 2.5");
    let s = surfaces(&t).into_iter().next().unwrap();
    assert_eq!(s.id, 5);
    assert_eq!(s.transform, Some(3));
    assert_eq!(s.kind, SurfaceKind::Cz);
    assert_eq!(coeffs(&t, &s), vec![2.5]);
}

#[test]
fn reflective_and_white() {
    let t = model("*7 PX 0");
    let s = surfaces(&t).into_iter().next().unwrap();
    assert!(s.reflective);
    assert_eq!(s.id, 7);

    let t = model("+8 PY 0");
    let s = surfaces(&t).into_iter().next().unwrap();
    assert!(s.white);
    assert_eq!(s.id, 8);
}

#[test]
fn parenthesized_cylinder_mnemonic() {
    let t = model("9 C/X 0 0 3");
    let s = surfaces(&t).into_iter().next().unwrap();
    assert_eq!(s.kind, SurfaceKind::CParX);
    assert_eq!(coeffs(&t, &s), vec![0.0, 0.0, 3.0]);
}

#[test]
fn mcnp_exponent_coefficient() {
    let t = model("10 SO 1.0-5");
    let s = surfaces(&t).into_iter().next().unwrap();
    assert_eq!(coeffs(&t, &s), vec![1.0e-5]);
}

#[test]
fn gq_ten_coefficients() {
    let t = model("20 GQ 1 1 1 0 0 0 0 0 0 -25");
    let s = surfaces(&t).into_iter().next().unwrap();
    assert_eq!(s.kind, SurfaceKind::Gq);
    assert_eq!(s.coeff_tokens.len(), 10);
}

#[test]
fn ampersand_continuation_is_not_a_coefficient() {
    let src = "title\n1 0 -1\n\n7 RPP 1 2 &\n     3 4 &\n     5 6\n\nm1 1001 1\n";
    let t = parse(src).tree;
    let s = surfaces(&t).into_iter().next().unwrap();
    assert_eq!(s.kind, SurfaceKind::Rpp);
    assert_eq!(coeffs(&t, &s), vec![1.0, 2.0, 3.0, 4.0, 5.0, 6.0]);
    assert!(s.well_formed, "& must not count as a coefficient");
}

#[test]
fn unknown_mnemonic_preserved() {
    let t = model("30 ZZZ 1 2 3");
    let s = surfaces(&t).into_iter().next().unwrap();
    assert_eq!(s.kind, SurfaceKind::Other(b"ZZZ".to_vec()));
}
