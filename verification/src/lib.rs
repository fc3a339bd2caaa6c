//! Core of a pomodoro-style productivity timer: a three-mode countdown state
//! machine, a per-day contribution ledger with a heatmap bucketing rule, a
//! text codec for the persisted state file, and history-log line handling.

pub mod modes;
pub mod date;
pub mod contrib;
pub mod timer;
pub mod numfmt;
pub mod heatmap;
pub mod codec;
pub mod history;
pub mod clock;
