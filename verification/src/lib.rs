//! Search and act on shell command history: reading the tail of the
//! extended history log, deduplicating and filtering its entries, and the
//! text and key bindings of the interactive picker.
pub mod clipboard;
pub mod config;
pub mod context;
pub mod display;
pub mod encoding;
pub mod history;
pub mod picker;
pub mod tail;
pub mod text;
