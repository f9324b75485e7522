//! An application-launcher index: desktop-entry descriptors are parsed,
//! merged across precedence-ordered directory tiers with user overrides,
//! and ranked against free-text queries.

pub mod command;
pub mod config;
pub mod entry;
pub mod error;
pub mod loader;
pub mod score;
pub mod strings;
