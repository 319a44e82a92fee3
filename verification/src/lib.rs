//! Profile based Linux input remapping: configuration merging, strict device
//! selection and the per-device remapping decisions, with their contracts.

pub mod text;
pub mod keycodes;
pub mod paths;
pub mod format;
pub mod config;
pub mod discovery;
pub mod selection;
pub mod remap;
pub mod commands;
pub mod hardware;
