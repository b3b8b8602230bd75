//! Decision core of a copy-trading bot for binary prediction markets.

pub mod alerting;
pub mod alerts;
pub mod calendar;
pub mod clock;
pub mod config;
pub mod dashboard;
pub mod double;
pub mod faults;
pub mod files;
pub mod investigation;
pub mod notation;
pub mod order;
pub mod persistence;
pub mod quantity;
pub mod settings;
pub mod showing;
pub mod state;
pub mod table;
pub mod text;
pub mod trading;
