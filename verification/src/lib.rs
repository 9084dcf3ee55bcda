//! Logic of a receipt-printer habit tracker: games (habits tracked over a
//! period), their daily grids, meta games, and the daily agenda text.

pub mod calendar;
pub mod game;
pub mod graph;
pub mod meta;
pub mod agenda;
pub mod streak;
pub mod printing;
pub mod ynab;
