use rs_grill::comand::Input;
use rs_grill::payment::Payment;
use rs_grill::reducer::{Actions, ApplicationState, Pages};

fn names(s: &ApplicationState) -> Vec<String> {
    s.comands().iter().map(|c| c.0.clone()).collect()
}

#[test]
fn a_new_state_is_empty() {
    let s = ApplicationState::default();
    assert!(s.comands().is_empty());
    assert_eq!(s.selected_comand, None);
    assert_eq!(s.pages, Pages::Main);
    assert_eq!(Pages::default(), Pages::Main);
    assert!(!s.confirm_finalize);
}

#[test]
fn pushing_a_comand_opens_and_shows_it() {
    let s = ApplicationState::default().reduce(Actions::PushComand("  mesa 1 ".to_string()));
    assert_eq!(names(&s), vec!["mesa 1".to_string()]);
    assert_eq!(s.selected_comand, Some("mesa 1".to_string()));
    let c = &s.comands()[0];
    assert_eq!(c.1, vec![Input::default()]);
    assert_eq!(c.2, Payment::NotSelected);
    let s = s.reduce(Actions::PushComand("   ".to_string()));
    assert_eq!(names(&s), vec!["mesa 1".to_string()]);
    let s = s.reduce(Actions::ChangeSelectedComand("outra".to_string()));
    let s = s.reduce(Actions::PushComand("mesa 1".to_string()));
    assert_eq!(s.selected_comand, Some("outra".to_string()));
}

#[test]
fn lines_are_pushed_and_updated() {
    let s = ApplicationState::default().reduce(Actions::PushComand("mesa".to_string()));
    let coca = Input { name: "coca".to_string(), quantity: 2, group: None };
    let s = s.reduce(Actions::PushInput("mesa".to_string(), coca.clone()));
    assert_eq!(s.comands()[0].1.len(), 2);
    let agua = Input { name: "agua".to_string(), quantity: 1, group: None };
    let s = s.reduce(Actions::UpdateInput("mesa".to_string(), agua.clone(), 0));
    assert_eq!(s.comands()[0].1, vec![agua.clone(), coca.clone()]);
    let s = s.reduce(Actions::PushInput("nova".to_string(), agua.clone()));
    assert_eq!(names(&s), vec!["mesa".to_string(), "nova".to_string()]);
    assert_eq!(s.comands()[1].1, vec![agua]);
}

#[test]
fn removing_shows_the_first_comand_left() {
    let s = ApplicationState::default()
        .reduce(Actions::PushComand("a".to_string()))
        .reduce(Actions::PushComand("b".to_string()))
        .reduce(Actions::PushComand("c".to_string()));
    let s = s.reduce(Actions::RemoveComand("a".to_string()));
    assert_eq!(names(&s), vec!["b".to_string(), "c".to_string()]);
    assert_eq!(s.selected_comand, Some("b".to_string()));
    let s = s.reduce(Actions::RemoveComand("b".to_string())).reduce(Actions::RemoveComand("c".to_string()));
    assert_eq!(s.selected_comand, None);
}

#[test]
fn confirmation_lasts_one_action() {
    let s = ApplicationState::default().reduce(Actions::ConfirmFinalize);
    assert!(s.confirm_finalize);
    let s = s.reduce(Actions::SetPage(Pages::Stock));
    assert!(!s.confirm_finalize);
    assert_eq!(s.pages, Pages::Stock);
    let s = s.reduce(Actions::ConfirmFinalize).reduce(Actions::SetProducts);
    assert!(!s.confirm_finalize);
}

#[test]
fn payment_and_groups_are_set() {
    let s = ApplicationState::default().reduce(Actions::PushComand("m".to_string()));
    let s = s.reduce(Actions::SetPayment("m".to_string(), Payment::Credit));
    assert_eq!(s.comands()[0].2, Payment::Credit);
    let s = s.reduce(Actions::SetPayment("x".to_string(), Payment::Pix));
    assert_eq!(s.comands()[0].2, Payment::Credit);
    let s = s.reduce(Actions::SetGroups(vec![("ponto".to_string(), vec!["mal".to_string()])]));
    assert_eq!(s.groups, vec![("ponto".to_string(), vec!["mal".to_string()])]);
}
