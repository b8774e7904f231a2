//! Carimbo: snippet and clipboard-history logic.

pub mod text;
pub mod classify;
pub mod models;
pub mod region;
pub mod transform;
pub mod expansion;
pub mod tokens;
pub mod error;
pub mod json;
pub mod import;
pub mod seed;
pub mod clock;
pub mod inject;
pub mod palette;
pub mod picker;
pub mod clipboard;
pub mod capture;
pub mod store;
pub mod backup;
pub mod hotkeys;
pub mod state;
pub mod placement;
pub mod clips;
pub mod services;
