//! Per-application network bandwidth monitoring and control: the decisions of
//! the daemon and of its clients, as verified functions over plain values.

pub mod addr;
pub mod binary64;
pub mod calendar;
pub mod client;
pub mod config;
pub mod daemon;
pub mod decimal;
pub mod display;
pub mod engine;
pub mod keymap;
pub mod monitor;
pub mod natural;
pub mod number;
pub mod order;
pub mod proto;
pub mod quota;
pub mod rate;
pub mod table;
pub mod text;
pub mod usage;
pub mod wire;
