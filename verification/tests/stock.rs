use rs_grill::stock::{group_stock_names, listed_stock, stock_entry, Selected};
use rs_grill::stock_state::{StockActions, StockMap, StockState};
use rs_grill::text::IntErrorKind;

fn state_of(pairs: &[(&str, u64)]) -> StockState {
    let s = StockState::default();
    s.reduce(StockActions::SetStock(pairs.iter().map(|(k, v)| (k.to_string(), *v)).collect()))
}

fn entries(s: &StockState) -> Vec<(String, u64)> {
    s.stock.entries().clone()
}

#[test]
fn plain_names_are_looked_up_as_they_are() {
    let s = state_of(&[("coca", 3), ("agua", 5)]);
    assert_eq!(StockState::get(&s.stock, "coca"), Some(&3));
    assert_eq!(StockState::get(&s.stock, "Coca"), None);
    assert_eq!(StockState::get(&s.stock, " coca"), None);
}

#[test]
fn a_variant_uses_its_own_entry_first() {
    let s = state_of(&[("picanha(mal)", 2), ("(mal)", 9)]);
    assert_eq!(StockState::get(&s.stock, "picanha(mal)"), Some(&2));
}

#[test]
fn a_variant_falls_back_to_the_shared_entry() {
    let s = state_of(&[("(mal)", 9), ("picanha(bem)", 1)]);
    assert_eq!(StockState::get(&s.stock, "picanha(mal)"), Some(&9));
    assert_eq!(StockState::get(&s.stock, "picanha( mal)"), Some(&9));
    // The closing parenthesis is removed after trimming, so a space before it stays.
    assert_eq!(StockState::get(&s.stock, "picanha( mal )"), None);
    assert_eq!(StockState::get(&s.stock, "picanha(mal"), Some(&9));
}

#[test]
fn a_bare_variant_uses_the_last_entry_of_that_variant() {
    let s = state_of(&[("alcatra(bem)", 4), ("picanha(bem)", 1), ("x(mal)", 7)]);
    assert_eq!(StockState::get(&s.stock, "(bem)"), Some(&1));
    assert_eq!(StockState::get(&s.stock, " (mal)"), Some(&7));
    assert_eq!(StockState::get(&s.stock, "(ponto)"), None);
}

#[test]
fn a_named_variant_without_entries_has_none() {
    let s = state_of(&[("alcatra(bem)", 4)]);
    assert_eq!(StockState::get(&s.stock, "picanha(bem)"), None);
    assert_eq!(StockState::get(&s.stock, "a(b)(c)"), None);
}

#[test]
fn get_mut_changes_the_entry_drawn_from() {
    let mut s = state_of(&[("(mal)", 9)]);
    if let Some(q) = StockState::get_mut(&mut s.stock, "picanha(mal)") {
        *q = 4;
    }
    assert_eq!(entries(&s), vec![("(mal)".to_string(), 4)]);
    assert!(StockState::get_mut(&mut s.stock, "nada").is_none());
}

#[test]
fn add_never_goes_below_zero() {
    let s = state_of(&[("coca", 3)]);
    let s = s.reduce(StockActions::Add("coca".to_string(), 5));
    assert_eq!(entries(&s), vec![("coca".to_string(), 8)]);
    let s = s.reduce(StockActions::Add("coca".to_string(), -20));
    assert_eq!(entries(&s), vec![("coca".to_string(), 0)]);
    let s = s.reduce(StockActions::Add("fanta".to_string(), 2));
    assert_eq!(entries(&s), vec![("coca".to_string(), 0)]);
}

#[test]
fn sub_vec_takes_each_sold_quantity() {
    let s = state_of(&[("coca", 3), ("(mal)", 10)]);
    let s = s.reduce(StockActions::SubVec(vec![
        ("coca".to_string(), 1),
        ("picanha(mal)".to_string(), 4),
        ("coca".to_string(), 5),
        ("nada".to_string(), 1),
    ]));
    assert_eq!(entries(&s), vec![("coca".to_string(), 0), ("(mal)".to_string(), 6)]);
}

#[test]
fn set_value_sets_the_entry_drawn_from() {
    let s = state_of(&[("(mal)", 10)]);
    let s = s.reduce(StockActions::SetValue("picanha(mal)".to_string(), 3));
    assert_eq!(entries(&s), vec![("(mal)".to_string(), 3)]);
}

#[test]
fn create_adds_a_trimmed_name_only_when_nothing_is_drawn_from() {
    let s = state_of(&[("(mal)", 10)]);
    let s = s.reduce(StockActions::Create("picanha(mal)".to_string(), 5));
    assert_eq!(entries(&s), vec![("(mal)".to_string(), 10)]);
    let s = s.reduce(StockActions::Create("  coca ".to_string(), 5));
    assert_eq!(entries(&s), vec![("(mal)".to_string(), 10), ("coca".to_string(), 5)]);
    let s = s.reduce(StockActions::Create(" coca".to_string(), 7));
    assert_eq!(entries(&s), vec![("(mal)".to_string(), 10), ("coca".to_string(), 7)]);
}

#[test]
fn create_vec_adds_missing_names_with_zero() {
    let s = state_of(&[("coca", 1)]);
    let s = s.reduce(StockActions::CreateVec(vec!["coca".to_string(), "(mal)".to_string(), "(mal)".to_string()]));
    assert_eq!(entries(&s), vec![("coca".to_string(), 1), ("(mal)".to_string(), 0)]);
}

#[test]
fn set_stock_keeps_the_last_pair_of_a_name() {
    let s = state_of(&[("coca", 1), ("agua", 2), ("coca", 3)]);
    assert_eq!(entries(&s), vec![("coca".to_string(), 3), ("agua".to_string(), 2)]);
}

#[test]
fn remove_takes_out_exactly_that_name() {
    let s = state_of(&[("coca", 1), ("agua", 2)]);
    let s = s.reduce(StockActions::Remove("coca".to_string()));
    assert_eq!(entries(&s), vec![("agua".to_string(), 2)]);
    let s = s.reduce(StockActions::Remove("agua ".to_string()));
    assert_eq!(entries(&s), vec![("agua".to_string(), 2)]);
}

#[test]
fn listing_is_sorted_and_filtered() {
    let v = vec![("coca".to_string(), 1), ("agua".to_string(), 2), ("cocada".to_string(), 3)];
    assert_eq!(
        listed_stock(&v, ""),
        vec![("agua".to_string(), 2), ("coca".to_string(), 1), ("cocada".to_string(), 3)]
    );
    assert_eq!(listed_stock(&v, "coc"), vec![("coca".to_string(), 1), ("cocada".to_string(), 3)]);
    assert_eq!(listed_stock(&v, "x"), vec![]);
}

#[test]
fn listing_orders_by_code_point() {
    let v = vec![("b".to_string(), 1), ("B".to_string(), 2), ("á".to_string(), 3), ("a".to_string(), 4)];
    let names: Vec<String> = listed_stock(&v, "").into_iter().map(|e| e.0).collect();
    let mut expected: Vec<String> = v.iter().map(|e| e.0.clone()).collect();
    expected.sort();
    assert_eq!(names, expected);
}

#[test]
fn selected_value_and_default() {
    assert_eq!(Selected::Add("a".to_string()).value(), Some(&"a".to_string()));
    assert_eq!(Selected::Change("b".to_string()).value(), Some(&"b".to_string()));
    assert_eq!(Selected::Nothing.value(), None);
    assert_eq!(Selected::default(), Selected::Nothing);
}

#[test]
fn stock_entry_requests() {
    let add = Selected::Add("coca".to_string());
    match stock_entry(&add, false, "-3") {
        Some(Ok(StockActions::Add(n, q))) => {
            assert_eq!(n, "coca");
            assert_eq!(q, -3);
        }
        _ => panic!("expected an addition"),
    }
    match stock_entry(&add, true, "-3") {
        Some(Ok(StockActions::SetValue(n, q))) => {
            assert_eq!(n, "coca");
            assert_eq!(q, 0);
        }
        _ => panic!("expected a set"),
    }
    assert!(matches!(stock_entry(&add, true, "3x"), Some(Err(IntErrorKind::InvalidDigit))));
    assert!(matches!(stock_entry(&add, true, ""), Some(Err(IntErrorKind::Empty))));
    assert!(matches!(stock_entry(&add, false, "-9223372036854775809"), Some(Err(IntErrorKind::NegOverflow))));
    assert!(matches!(stock_entry(&add, false, "9223372036854775808"), Some(Err(IntErrorKind::PosOverflow))));
    assert!(stock_entry(&Selected::Nothing, false, "3").is_none());
}

#[test]
fn group_values_become_shared_stock_names() {
    let v = vec!["mal".to_string(), "bem".to_string()];
    assert_eq!(group_stock_names(&v), vec!["(mal)".to_string(), "(bem)".to_string()]);
}

#[test]
fn arithmetic_that_leaves_i64_is_refused() {
    let s = state_of(&[("x", 9223372036854775807)]);
    assert!(s.try_reduce(StockActions::Add("x".to_string(), 1)).is_none());
    let s = state_of(&[("x", 1)]);
    assert!(s.try_reduce(StockActions::SubVec(vec![("x".to_string(), -9223372036854775807), ("x".to_string(), -1)])).is_none());
    let s = state_of(&[("x", 1)]);
    let s = s.try_reduce(StockActions::SubVec(vec![("x".to_string(), -5)])).unwrap();
    assert_eq!(entries(&s), vec![("x".to_string(), 6)]);
}

#[test]
fn quantities_above_i64_wrap_as_signed_numbers() {
    let s = state_of(&[("x", 9223372036854775808)]);
    let s = s.reduce(StockActions::Add("x".to_string(), 5));
    assert_eq!(entries(&s), vec![("x".to_string(), 0)]);
}

#[test]
fn creating_the_same_names_twice_changes_nothing_the_second_time() {
    let s = state_of(&[("coca", 3), ("alcatra(bem)", 4)]);
    let names = vec!["agua".to_string(), "coca".to_string(), "(bem)".to_string(), "(mal)".to_string()];
    let once = s.reduce(StockActions::CreateVec(names.clone()));
    assert_eq!(
        entries(&once),
        vec![("coca".to_string(), 3), ("alcatra(bem)".to_string(), 4), ("agua".to_string(), 0), ("(mal)".to_string(), 0)]
    );
    let twice = once.clone().reduce(StockActions::CreateVec(names));
    assert_eq!(entries(&twice), entries(&once));
}

#[test]
fn taking_sold_quantities_is_adding_their_negation_in_turn() {
    let s = state_of(&[("coca", 3), ("(mal)", 5), ("agua", 1)]);
    let sold = vec![("coca".to_string(), 2i64), ("picanha(mal)".to_string(), 7), ("agua".to_string(), -4), ("x".to_string(), 1)];
    let taken = s.clone().reduce(StockActions::SubVec(sold.clone()));
    let mut added = s;
    for (n, q) in sold {
        added = added.reduce(StockActions::Add(n, -q));
    }
    assert_eq!(entries(&taken), entries(&added));
    assert_eq!(entries(&taken), vec![("coca".to_string(), 1), ("(mal)".to_string(), 0), ("agua".to_string(), 5)]);
}
