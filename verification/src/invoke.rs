//! The backend commands the screens call, and the arguments they send.
use vstd::prelude::*;
use crate::stock_state::Entry;

verus! {

/// The argument of a greeting.
pub struct GreetArgs<'a> {
    pub name: &'a str,
}

/// The groups to save.
pub struct SetGroupsArgs {
    pub groups: Vec<(String, Vec<String>)>,
}

/// The backup to export again.
pub struct ReExportArgs {
    pub backup: String,
}

/// The backups to report on together.
pub struct MultiExportArgs {
    pub backups: Vec<String>,
}

/// The stock to save.
pub struct UpdateStockArgs {
    pub stock: Vec<Entry>,
}

/// A question for the user.
pub struct ConfirmArgs {
    pub message: String,
    pub title: String,
}

/// The backend commands.
#[derive(Clone, Copy, Debug, PartialEq, Eq, Structural)]
pub enum Command {
    File,
    GetGroups,
    SetGroups,
    SaveComand,
    Export,
    IsCacheEmpty,
    UpdateProducts,
    ListBakcups,
    ReExport,
    MultiExport,
    UpdateStock,
    ReadStock,
    Confirm,
}

/// The name under which the backend serves each command.
pub open spec fn command_name(c: Command) -> Seq<char> {
    match c {
        Command::File => "file"@,
        Command::GetGroups => "get_groups"@,
        Command::SetGroups => "set_groups"@,
        Command::SaveComand => "save_comand"@,
        Command::Export => "export"@,
        Command::IsCacheEmpty => "is_cache_empty"@,
        Command::UpdateProducts => "update_products"@,
        Command::ListBakcups => "read_backups"@,
        Command::ReExport => "re_export"@,
        Command::MultiExport => "multi_export"@,
        Command::UpdateStock => "update_stock"@,
        Command::ReadStock => "read_stock"@,
        Command::Confirm => "confirm"@,
    }
}

impl Command {
    /// The name under which the backend serves this command.
    pub fn name(&self) -> (res: &'static str)
        ensures
            res@ == command_name(*self),
    {
        match self {
            Command::File => "file",
            Command::GetGroups => "get_groups",
            Command::SetGroups => "set_groups",
            Command::SaveComand => "save_comand",
            Command::Export => "export",
            Command::IsCacheEmpty => "is_cache_empty",
            Command::UpdateProducts => "update_products",
            Command::ListBakcups => "read_backups",
            Command::ReExport => "re_export",
            Command::MultiExport => "multi_export",
            Command::UpdateStock => "update_stock",
            Command::ReadStock => "read_stock",
            Command::Confirm => "confirm",
        }
    }
}

} // verus!
