pub mod append;
pub mod authorize;
pub mod carry;
pub mod command;
mod compose;
pub mod drain;
pub mod fail;
pub mod handover;
pub mod held;
pub mod init;
pub mod number;
pub mod order;
pub mod outbox;
pub mod paths;
pub mod place;
pub mod push;
pub mod register;
pub mod report;
pub mod routes;
pub mod ssh;
pub mod status;
pub mod sync;
pub mod table;
pub mod table_laws;
pub mod text;
pub mod unit;
