use rs_grill::errors::{ok, InError};
use rs_grill::storage::{
    groups_from_csv, groups_to_csv, is_cache_empty, product_lines_text, products_from_csv, products_to_csv,
    stock_from_csv, stock_to_csv,
};
use rs_grill::text::IntErrorKind;

fn pairs(v: &[(&str, u64)]) -> Vec<(String, u64)> {
    v.iter().map(|(k, q)| (k.to_string(), *q)).collect()
}

#[test]
fn stock_file_text() {
    let s = pairs(&[("coca", 3), ("(mal)", 0), ("agua", 18446744073709551615)]);
    assert_eq!(stock_to_csv(&s), "coca,3\n(mal),0\nagua,18446744073709551615\n");
    assert_eq!(stock_to_csv(&vec![]), "");
}

#[test]
fn stock_file_reads_back() {
    let s = pairs(&[("coca", 3), ("picanha(mal)", 12), ("", 0)]);
    let text = stock_to_csv(&s);
    assert_eq!(stock_from_csv(&text).unwrap(), s);
}

#[test]
fn stock_file_skips_lines_without_two_fields() {
    let got = stock_from_csv("coca,3\r\nsem quantidade\na,b,c\n\nagua,4").unwrap();
    assert_eq!(got, pairs(&[("coca", 3), ("agua", 4)]));
}

#[test]
fn stock_file_errors_are_those_of_parse() {
    let e = stock_from_csv("coca,3\nagua,x\nfanta,\n").unwrap_err();
    assert_eq!(e.a, "invalid digit found in string");
    let e = stock_from_csv("fanta,\n").unwrap_err();
    assert_eq!(e.a, "cannot parse integer from empty string");
    let e = stock_from_csv("fanta,18446744073709551616\n").unwrap_err();
    assert_eq!(e.a, "number too large to fit in target type");
    let e = stock_from_csv("fanta, 3\n").unwrap_err();
    assert_eq!(e.a, "invalid digit found in string");
    assert_eq!(stock_from_csv("fanta,+3\n").unwrap(), pairs(&[("fanta", 3)]));
}

#[test]
fn error_messages_match_std() {
    assert_eq!(InError::from_int_error(IntErrorKind::Empty).a, "".parse::<u64>().unwrap_err().to_string());
    assert_eq!(InError::from_int_error(IntErrorKind::InvalidDigit).a, "x".parse::<u64>().unwrap_err().to_string());
    assert_eq!(
        InError::from_int_error(IntErrorKind::PosOverflow).a,
        "99999999999999999999".parse::<u64>().unwrap_err().to_string()
    );
    assert_eq!(
        InError::from_int_error(IntErrorKind::NegOverflow).a,
        "-99999999999999999999".parse::<i64>().unwrap_err().to_string()
    );
    assert_eq!(InError::new("falha").to_string(), "falha");
}

#[test]
fn ok_gives_the_value_or_an_error() {
    assert_eq!(ok(Some(3)).unwrap(), 3);
    assert_eq!(ok::<u8>(None).unwrap_err().a, "None in option");
}

#[test]
fn groups_file_text() {
    let g = vec![
        ("ponto".to_string(), vec!["mal".to_string(), "bem".to_string()]),
        ("vazio".to_string(), vec![]),
    ];
    assert_eq!(groups_to_csv(&g), "ponto,mal;bem\nvazio,\n");
}

#[test]
fn groups_file_reads_back() {
    let g = vec![
        ("ponto".to_string(), vec!["mal".to_string(), "ao ponto".to_string(), "bem".to_string()]),
        ("molho".to_string(), vec!["".to_string()]),
    ];
    assert_eq!(groups_from_csv(&groups_to_csv(&g)), g);
}

#[test]
fn an_empty_group_reads_back_with_one_empty_value() {
    let g = vec![("vazio".to_string(), vec![])];
    assert_eq!(groups_from_csv(&groups_to_csv(&g)), vec![("vazio".to_string(), vec!["".to_string()])]);
}

#[test]
fn groups_file_skips_lines_without_a_comma() {
    let got = groups_from_csv("sem virgula\nponto,mal;bem,extra\n");
    assert_eq!(got, vec![("ponto".to_string(), vec!["mal".to_string(), "bem".to_string()])]);
}

#[test]
fn products_file_lines() {
    let got = products_from_csv("coca, 5.50 \npicanha,40,ponto,x\nsem preco\n");
    assert_eq!(got.len(), 2);
    assert_eq!(got[0].name, "coca");
    assert_eq!(got[0].price, "5.50");
    assert_eq!(got[0].group, None);
    assert_eq!(got[1].name, "picanha");
    assert_eq!(got[1].price, "40");
    assert_eq!(got[1].group, Some("ponto".to_string()));
}

#[test]
fn cache_is_empty_when_every_line_is_empty() {
    assert!(is_cache_empty(""));
    assert!(is_cache_empty("\n\n"));
    assert!(is_cache_empty("\r\n"));
    assert!(!is_cache_empty(" "));
    assert!(!is_cache_empty("\nmesa 1\n"));
}

fn products(v: &[(&str, &str, Option<&str>)]) -> Vec<(String, String, Option<String>)> {
    v.iter().map(|(n, p, g)| (n.to_string(), p.to_string(), g.map(|g| g.to_string()))).collect()
}

#[test]
fn products_are_saved_under_trimmed_lowercase_names() {
    let text = products_to_csv(&products(&[("  Coca Cola ", "5.00", None), ("PICANHA", "40.00", Some("ponto"))]));
    assert_eq!(text, "coca cola,5.00\npicanha,40.00,ponto\n");
    let text = products_to_csv(&products(&[("Água", "3.50", Some(""))]));
    assert_eq!(text, "água,3.50,\n");
}

#[test]
fn product_lines_keep_the_names_they_are_given() {
    let text = product_lines_text(&products(&[("Coca", "5.00", None), ("x", "", Some("g"))]));
    assert_eq!(text, "Coca,5.00\nx,,g\n");
    assert_eq!(product_lines_text(&Vec::new()), "");
}

#[test]
fn saved_products_read_back() {
    let text = products_to_csv(&products(&[("Suco ", "7.25", None), ("Frango", "30.00", Some("molho"))]));
    let read = products_from_csv(&text);
    assert_eq!(read.len(), 2);
    assert_eq!(read[0].name, "suco");
    assert_eq!(read[0].price, "7.25");
    assert_eq!(read[0].group, None);
    assert_eq!(read[1].name, "frango");
    assert_eq!(read[1].price, "30.00");
    assert_eq!(read[1].group, Some("molho".to_string()));
}

#[test]
fn a_carriage_return_inside_a_group_value_reads_back() {
    let g = vec![("ponto".to_string(), vec!["a\rb".to_string(), "c".to_string()])];
    assert_eq!(groups_from_csv(&groups_to_csv(&g)), g);
}

#[test]
fn a_repeated_group_name_keeps_its_last_line_in_the_first_place() {
    let got = groups_from_csv("ponto,mal;bem\nmolho,alho\nponto,ao ponto\n");
    assert_eq!(
        got,
        vec![
            ("ponto".to_string(), vec!["ao ponto".to_string()]),
            ("molho".to_string(), vec!["alho".to_string()]),
        ]
    );
}
