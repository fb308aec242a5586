//! Verified core of a patcher for the Feishu desktop client's `messenger.asar`.
pub mod asar;
pub mod commands;
pub mod digest;
pub mod error;
pub mod feishu_locator;
pub mod keyed;
pub mod orchestrator;
pub mod pack;
pub mod patch_source;
pub mod patcher;
pub mod splice;
pub mod state;
pub mod pickle;
pub mod pipeline;
pub mod text;
pub mod tree;
