pub mod payment;
pub mod text;
pub mod sort_dates;

pub mod stock_state;
pub mod errors;
pub mod storage;
pub mod export;
pub mod backups;
pub mod comand;
pub mod reducer;
pub mod stock;
pub mod groups;
pub mod invoke;
pub mod layout;
pub mod autocomplete;
pub mod cache;
pub mod steps;
