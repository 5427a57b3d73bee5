use migjorn::crunchy::cst::{parse, GreenTree};
use migjorn::crunchy::data_cards::{
    parse_data_card, parse_material, parse_transform, DataCard, Material, Transform,
};

fn model(data_line: &str) -> GreenTree {
    let src = format!("title\n1 0 -1\n\n1 PX 0\n\n{data_line}\n");
    parse(&src).tree
}

fn data_cards(t: &GreenTree) -> Vec<DataCard> {
    (0..t.cards().len()).filter_map(|i| parse_data_card(t, i)).collect()
}

fn materials(t: &GreenTree) -> Vec<Material> {
    (0..t.cards().len()).filter_map(|i| parse_material(t, i)).collect()
}

fn transforms(t: &GreenTree) -> Vec<Transform> {
    (0..t.cards().len()).filter_map(|i| parse_transform(t, i)).collect()
}

fn num(t: &GreenTree, k: u32) -> f64 {
    std::str::from_utf8(t.token_text(k)).unwrap().parse::<f64>().unwrap()
}

#[test]
fn plain_mnemonic() {
    let t = model("sdef pos=0 0 0 erg=14");
    let d = data_cards(&t).into_iter().next().unwrap();
    assert_eq!(d.name, b"SDEF".to_vec());
    assert!(d.particle.is_none());
    assert!(!d.starred);
}

#[test]
fn tally_with_particle() {
    let t = model("f4:n 1 2 3");
    let d = data_cards(&t).into_iter().next().unwrap();
    assert_eq!(d.name, b"F4".to_vec());
    assert_eq!(d.particle.as_deref(), Some(&b"n"[..]));
}

#[test]
fn starred_tally() {
    let t = model("*f1:p 5");
    let d = data_cards(&t).into_iter().next().unwrap();
    assert!(d.starred);
    assert_eq!(d.name, b"F1".to_vec());
    assert_eq!(d.particle.as_deref(), Some(&b"p"[..]));
}

#[test]
fn simple_material() {
    let t = model("m1 1001.31c 0.667 8016.31c 0.333");
    let m = materials(&t).into_iter().next().unwrap();
    assert_eq!(m.id, 1);
    assert_eq!(m.entries.len(), 2);
    assert_eq!(m.entries[0].zaid, b"1001.31c".to_vec());
    assert_eq!(num(&t, m.entries[0].fraction_token), 0.667);
    assert_eq!(m.entries[0].za(), Some(1001));
    assert!(m.well_formed);
}

#[test]
fn weight_fractions_and_bare_zaid() {
    let t = model("m5 6000 -0.5 26000 -0.5");
    let m = materials(&t).into_iter().next().unwrap();
    assert_eq!(num(&t, m.entries[0].fraction_token), -0.5);
    assert_eq!(m.entries[1].za(), Some(26000));
}

#[test]
fn options_end_the_entry_list() {
    let t = model("m2 1001 1 gas=1");
    let m = materials(&t).into_iter().next().unwrap();
    assert_eq!(m.entries.len(), 1);
    assert!(m.well_formed);
}

#[test]
fn mt_card_is_not_a_material() {
    let t = model("mt1 lwtr.10t");
    assert!(materials(&t).is_empty());
}

#[test]
fn displacement_only() {
    let t = model("tr1 1.0 2.0 3.0");
    let tr = transforms(&t).into_iter().next().unwrap();
    assert_eq!(tr.id, 1);
    assert!(!tr.degrees);
    let d: Vec<f64> = tr.displacement_tokens().iter().map(|&k| num(&t, k)).collect();
    assert_eq!(d, vec![1.0, 2.0, 3.0]);
    assert!(tr.rotation_tokens().is_empty());
}

#[test]
fn full_rotation_in_degrees() {
    let t = model("*TR5 0 0 0 90 90 0 90 0 90 0 90 90");
    let tr = transforms(&t).into_iter().next().unwrap();
    assert_eq!(tr.id, 5);
    assert!(tr.degrees);
    assert_eq!(tr.rotation_tokens().len(), 9);
}

#[test]
fn not_a_transform() {
    let t = model("m1 1001 1");
    assert!(transforms(&t).is_empty());
}
