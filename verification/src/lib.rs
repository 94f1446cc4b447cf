//! A guardian for networks behind a captive portal of the ePortal kind: it watches the
//! network, logs in when the portal is in the way, and backs off when that does not help.
//!
//! The library decides and computes. It reads no file and opens no connection: whoever uses
//! it does that and hands in what came of it.

pub mod auth;
pub mod cli;
pub mod config;
pub mod digits;
pub mod guardian;
pub mod http;
pub mod ipdetect;
pub mod json;
pub mod logger;
pub mod netcheck;
pub mod text;
pub mod time;

pub use crate::config::{Config, Operator};
pub use crate::guardian::{Guardian, GuardianState};
