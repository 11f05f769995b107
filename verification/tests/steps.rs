use rs_grill::payment::Payment;
use rs_grill::reducer::Actions;
use rs_grill::steps::{after_save, export_step, finish_step, ExportAction, ExportEvent, FinishStep};
use rs_grill::stock_state::StockActions;

#[test]
fn finishing_asks_for_payment_then_lines_then_confirmation() {
    assert_eq!(finish_step(Payment::NotSelected, 0, false), FinishStep::ChoosePayment);
    assert_eq!(finish_step(Payment::NotSelected, 3, true), FinishStep::ChoosePayment);
    assert_eq!(finish_step(Payment::Pix, 0, true), FinishStep::EmptyComand);
    assert_eq!(finish_step(Payment::Money, 2, false), FinishStep::AskConfirmation);
    assert_eq!(finish_step(Payment::Credit, 2, true), FinishStep::Save);
}

#[test]
fn a_saved_comand_is_closed_and_its_stock_taken_either_way() {
    let sold = vec![("coca".to_string(), 2i64)];
    let (close, take) = after_save("mesa 1".to_string(), true, sold.clone());
    assert!(matches!(close, Some(Actions::RemoveComand(ref n)) if n == "mesa 1"));
    assert!(matches!(take, StockActions::SubVec(ref v) if *v == sold));
    let (close, take) = after_save("mesa 1".to_string(), false, sold.clone());
    assert!(close.is_none());
    assert!(matches!(take, StockActions::SubVec(ref v) if *v == sold));
}

#[test]
fn export_takes_two_clicks_and_a_saved_comand() {
    assert_eq!(export_step(false, ExportEvent::Click), (true, ExportAction::StartTimer));
    assert_eq!(export_step(true, ExportEvent::Click), (false, ExportAction::CheckCache));
    assert_eq!(export_step(true, ExportEvent::TimeOut), (false, ExportAction::Nothing));
    assert_eq!(export_step(false, ExportEvent::CacheChecked(true)), (false, ExportAction::TellNothingSaved));
    assert_eq!(export_step(false, ExportEvent::CacheChecked(false)), (false, ExportAction::Export));
}
