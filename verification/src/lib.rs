//! Session core of a desktop text editor: a typed two-level configuration
//! store with a textual file format, a document store with dirty tracking,
//! an ordered pane model with a single focus, a hotkey dispatcher, and the
//! action pipeline through which user and plugin intent flows into the
//! stores.  All state changes go through the single reducer in `session`;
//! file and window I/O is expressed as effect values that the surrounding
//! event loop performs.

pub mod action;
pub mod alist;
pub mod config;
pub mod config_text;
pub mod document;
pub mod editor;
pub mod file_explorer;
pub mod hotkey;
pub mod pane;
pub mod plugin;
pub mod session;
pub mod text;
pub mod theme;
pub mod value;

use vstd::prelude::*;

verus! {

/// Identifier of an open document.  Allocated monotonically by
/// `DocumentStore`; never reused within a session.
pub type DocumentId = u64;

/// Identifier of a pane.  Allocated monotonically by `PaneModel`,
/// independently of document ids.
pub type PaneId = u64;

} // verus!
