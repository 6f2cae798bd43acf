pub mod account_map;
pub mod usd;
pub mod time;
pub mod ledger;
pub mod chart_of_accounts;
pub mod input;
