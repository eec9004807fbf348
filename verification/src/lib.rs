//! Verified core of a website blocker: the text rules of the hosts file,
//! URL normalisation, blocking schedules and the decisions of the
//! background daemon and of the settings window.

pub mod text;
pub mod hosts;
pub mod config;
pub mod daemon;
pub mod editing;
pub mod autostart;
