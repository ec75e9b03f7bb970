//! A config-driven TCP proxy's logic.
#![allow(unused_imports)]

pub mod text;
pub mod double;
pub mod names;
pub mod buffer;
pub mod packet;
pub mod stats;
pub mod filter;
pub mod redact;
pub mod json;
pub mod color;
pub mod palette;
pub mod format;
pub mod proxy;
pub mod control;
pub mod config;
pub mod startup;
pub mod admin;
pub mod dashboard;
pub mod app;
pub mod view;
