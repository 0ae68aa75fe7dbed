//! Formula ownership for a package installer: which installed formulas the
//! user asked for, which are there only because another formula needs them,
//! and what may be removed.

pub mod action;
pub mod action_laws;
pub mod command_laws;
pub mod commands;
pub mod database;
pub mod error;
pub mod installer;
pub mod laws;
pub mod ownership;
pub mod record_laws;
pub mod style;
pub mod text;
pub mod text_laws;
