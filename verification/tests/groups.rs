use rs_grill::comand::Input;
use rs_grill::groups::{
    add_group, add_group_value, group_check, remove_group, remove_group_value, rename_group_value,
    saved_line_name,
};

fn g(v: &[(&str, &[&str])]) -> Vec<(String, Vec<String>)> {
    v.iter().map(|(n, vs)| (n.to_string(), vs.iter().map(|x| x.to_string()).collect())).collect()
}

#[test]
fn adding_values() {
    let groups = g(&[("ponto", &["mal"]), ("molho", &[])]);
    assert_eq!(add_group_value(&groups, "ponto", " bem "), Some(g(&[("ponto", &["mal", "bem"]), ("molho", &[])])));
    assert_eq!(add_group_value(&groups, "ponto", "mal "), None);
}

#[test]
fn renaming_values() {
    let groups = g(&[("ponto", &["mal", "bem"])]);
    assert_eq!(rename_group_value(&groups, "ponto", 1, "ao ponto"), Some(g(&[("ponto", &["mal", "ao ponto"])])));
    assert_eq!(rename_group_value(&groups, "ponto", 1, "mal"), None);
}

#[test]
fn removing_values_and_groups() {
    let groups = g(&[("ponto", &["mal", "bem", "mal"]), ("molho", &["x"])]);
    assert_eq!(remove_group_value(&groups, "ponto", " mal"), g(&[("ponto", &["bem"]), ("molho", &["x"])]));
    assert_eq!(remove_group(&groups, "ponto"), g(&[("molho", &["x"])]));
    assert_eq!(remove_group(&groups, "nada"), groups);
}

#[test]
fn adding_a_group_empties_one_of_the_same_name() {
    let groups = g(&[("ponto", &["mal"])]);
    assert_eq!(add_group(&groups, " molho "), g(&[("ponto", &["mal"]), ("molho", &[])]));
    assert_eq!(add_group(&groups, "ponto"), g(&[("ponto", &[])]));
}

fn input(name: &str, group: Option<&str>) -> Input {
    Input { name: name.to_string(), quantity: 1, group: group.map(|x| x.to_string()) }
}

#[test]
fn group_check_reports_the_last_line_without_a_valid_value() {
    let products = vec![
        ("picanha".to_string(), Some("ponto".to_string())),
        ("coca".to_string(), None),
        ("fraldinha".to_string(), Some("sem grupo".to_string())),
    ];
    let groups = g(&[("ponto", &["mal", "bem"])]);
    let ok = vec![input(" picanha ", Some("mal")), input("coca", None), input("fraldinha", None)];
    assert_eq!(group_check(&ok, &products, &groups), None);
    let bad = vec![input("picanha", None), input("coca", None), input("picanha ", Some("cru")), input("x", None)];
    assert_eq!(group_check(&bad, &products, &groups), Some("Escolha um valor no grupo de 'picanha '".to_string()));
}

#[test]
fn saved_names_carry_the_group_value() {
    assert_eq!(saved_line_name(&input("picanha", Some(" mal ")), true), "picanha(mal)");
    assert_eq!(saved_line_name(&input("picanha", Some("mal")), false), "picanha");
    assert_eq!(saved_line_name(&input("coca", None), true), "coca");
}

#[test]
fn renaming_to_a_value_the_group_holds_changes_nothing_whatever_the_position() {
    let groups = g(&[("ponto", &["mal", "bem"])]);
    assert_eq!(rename_group_value(&groups, "ponto", 7, " bem "), None);
}
