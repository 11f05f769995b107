//! The decisions of two screen sequences that wait on the user or the
//! backend: finishing a comand (payment, emptiness, confirmation, saving)
//! and exporting the day's report (two clicks, then only when comands are
//! saved). The screens perform each action and hand back what happened.
use vstd::prelude::*;
use crate::payment::Payment;
use crate::reducer::Actions;
use crate::stock_state::StockActions;

verus! {

/// What finishing the shown comand does next.
#[derive(Clone, Copy, Debug, PartialEq, Eq, Structural)]
pub enum FinishStep {
    /// No payment method is chosen: ask for one and stop.
    ChoosePayment,
    /// No line names a known product: say the comand is empty and stop.
    EmptyComand,
    /// Not confirmed yet: ask for confirmation and stop.
    AskConfirmation,
    /// Save the comand.
    Save,
}

/// The step for a comand with this payment, this many lines to save, and
/// this confirmation state.
pub open spec fn finish_decision(payment: Payment, lines: nat, confirmed: bool) -> FinishStep {
    if payment == Payment::NotSelected {
        FinishStep::ChoosePayment
    } else if lines == 0 {
        FinishStep::EmptyComand
    } else if !confirmed {
        FinishStep::AskConfirmation
    } else {
        FinishStep::Save
    }
}

/// What to do when the user finishes a comand (see `finish_decision`).
pub fn finish_step(payment: Payment, lines: usize, confirmed: bool) -> (res: FinishStep)
    ensures
        res == finish_decision(payment, lines as nat, confirmed),
{
    if payment == Payment::NotSelected {
        FinishStep::ChoosePayment
    } else if lines == 0 {
        FinishStep::EmptyComand
    } else if !confirmed {
        FinishStep::AskConfirmation
    } else {
        FinishStep::Save
    }
}

/// After the backend answered the save of comand `name`: the comand is
/// closed when it was saved, and its sold quantities are taken from the
/// stock whatever the answer.
pub fn after_save(name: String, saved: bool, sold: Vec<(String, i64)>) -> (res: (Option<Actions>, StockActions))
    ensures
        saved ==> res.0 == Some(Actions::RemoveComand(name)),
        !saved ==> res.0 is None,
        res.1 == StockActions::SubVec(sold),
{
    let close = if saved {
        Some(Actions::RemoveComand(name))
    } else {
        None
    };
    (close, StockActions::SubVec(sold))
}

/// What happens on the export button.
#[derive(Clone, Copy, Debug, PartialEq, Eq, Structural)]
pub enum ExportEvent {
    /// The button was clicked.
    Click,
    /// The two seconds for confirming ran out.
    TimeOut,
    /// The backend said whether the cache of saved comands is empty.
    CacheChecked(bool),
}

/// What the header does in answer.
#[derive(Clone, Copy, Debug, PartialEq, Eq, Structural)]
pub enum ExportAction {
    Nothing,
    /// Show "Confirmar" and start the two seconds for confirming.
    StartTimer,
    /// Ask the backend whether any comand is saved.
    CheckCache,
    /// Export the day's report.
    Export,
    /// Tell the user that no comand is saved.
    TellNothingSaved,
}

/// The export button's next state (whether a click would confirm) and
/// action: a first click arms it for two seconds, a second click within
/// them disarms it and checks the cache, and the report is exported only
/// when some comand is saved.
pub open spec fn export_transition(armed: bool, event: ExportEvent) -> (bool, ExportAction) {
    match event {
        ExportEvent::Click => if armed {
            (false, ExportAction::CheckCache)
        } else {
            (true, ExportAction::StartTimer)
        },
        ExportEvent::TimeOut => (false, ExportAction::Nothing),
        ExportEvent::CacheChecked(empty) => if empty {
            (armed, ExportAction::TellNothingSaved)
        } else {
            (armed, ExportAction::Export)
        },
    }
}

/// The export button's step (see `export_transition`).
pub fn export_step(armed: bool, event: ExportEvent) -> (res: (bool, ExportAction))
    ensures
        res == export_transition(armed, event),
{
    match event {
        ExportEvent::Click => if armed {
            (false, ExportAction::CheckCache)
        } else {
            (true, ExportAction::StartTimer)
        },
        ExportEvent::TimeOut => (false, ExportAction::Nothing),
        ExportEvent::CacheChecked(empty) => if empty {
            (armed, ExportAction::TellNothingSaved)
        } else {
            (armed, ExportAction::Export)
        },
    }
}

/// The report is exported only on a second click within the time for
/// confirming, and then only when some comand is saved: a first click
/// never checks the cache, and a cache found empty never exports.
pub proof fn law_export_needs_two_clicks(armed: bool, empty: bool)
    ensures
        export_transition(false, ExportEvent::Click).1 != ExportAction::CheckCache,
        export_transition(export_transition(false, ExportEvent::Click).0, ExportEvent::Click).1
            == ExportAction::CheckCache,
        export_transition(
            export_transition(false, ExportEvent::Click).0,
            ExportEvent::TimeOut,
        ).0 == false,
        export_transition(armed, ExportEvent::CacheChecked(true)).1 != ExportAction::Export,
{
}

} // verus!
