//! Core of a desktop file browser: the selection engine that tracks which
//! entries are active, and the search state machine that drives a recursive,
//! cancellable scan of the filesystem.

pub mod select_action;
pub mod text;
pub mod search_manager;
pub mod lang_string;
pub mod actions;
pub mod error_modal;
pub mod size_format;
pub mod path_manager;
