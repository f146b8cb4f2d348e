//! Weekly time report for a French office worker: the week's days with public
//! holidays and personal days off, lunch breaks and the mail body.
pub mod date;
pub mod text;
pub mod holidays;
pub mod report;
pub mod off_days;
pub mod config;
pub mod messages;
pub mod cli;
