//! Rain watch: a durable ledger of subscribers and the scheduling rules of
//! the recurring weather check that runs for each of them.

pub mod decimal;
pub mod domain;
pub mod kinda_db;
pub mod record;
pub mod state_manager;
pub mod tokens;
