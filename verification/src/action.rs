//! The action taxonomy: user or plugin intent (`Action`) and the three
//! families of generic actions that mutate exactly one store or schedule
//! one asynchronous effect.

use vstd::prelude::*;

use crate::document::{DocView, DocumentHandler};
use crate::pane::Pane;
use crate::text::str_eq;
use crate::{DocumentId, PaneId};

verus! {

/// File-level intent.
#[derive(Debug)]
pub enum FileAction {
    /// Open the OS file dialog.
    PickFile,
    /// Read a file; its content goes to the current pane when that pane is
    /// the welcome pane, else to a new editor pane.
    OpenFileCurrentTab(String),
    /// Read a file; its content always replaces the current pane.
    OpenFileForceCurrentTab(String),
    /// Read a file; its content always opens in a new editor pane.
    OpenFileNewTab(String),
}

/// Mathematical image of a file action.
pub enum FileActionView {
    PickFile,
    OpenFileCurrentTab(Seq<char>),
    OpenFileForceCurrentTab(Seq<char>),
    OpenFileNewTab(Seq<char>),
}

impl View for FileAction {
    type V = FileActionView;

    open spec fn view(&self) -> FileActionView {
        match self {
            FileAction::PickFile => FileActionView::PickFile,
            FileAction::OpenFileCurrentTab(p) => FileActionView::OpenFileCurrentTab(p@),
            FileAction::OpenFileForceCurrentTab(p) => FileActionView::OpenFileForceCurrentTab(p@),
            FileAction::OpenFileNewTab(p) => FileActionView::OpenFileNewTab(p@),
        }
    }
}

impl Clone for FileAction {
    fn clone(&self) -> (r: Self)
        ensures
            r@ == self@,
    {
        match self {
            FileAction::PickFile => FileAction::PickFile,
            FileAction::OpenFileCurrentTab(p) => FileAction::OpenFileCurrentTab(p.clone()),
            FileAction::OpenFileForceCurrentTab(p) => FileAction::OpenFileForceCurrentTab(
                p.clone(),
            ),
            FileAction::OpenFileNewTab(p) => FileAction::OpenFileNewTab(p.clone()),
        }
    }
}

/// Pane-level intent.  All payloads are plain values, so the type is its
/// own mathematical image.
#[derive(Clone, Copy, PartialEq, Eq, Structural, Debug)]
pub enum PaneAction {
    /// Add a pane and focus it.
    Add(Pane),
    /// Focus a pane.
    Open(PaneId),
    /// Close a pane; closing an editor pane removes its document, and an
    /// empty result is reseeded with a focused welcome pane.
    Close(PaneId),
    /// Put a new pane into an existing slot, keeping id and focus.
    Replace(PaneId, Pane),
}

/// Document-level intent.
#[derive(Debug)]
pub enum DocumentAction {
    /// Insert a handler under a fresh identifier.
    Add(DocumentHandler),
    /// Show a document in a new focused editor pane.
    Open(DocumentId),
    /// Write a document's buffer to its path.
    Save(DocumentId),
    /// Remove a handler.
    Remove(DocumentId),
}

/// Mathematical image of a document action.
pub enum DocumentActionView {
    Add(DocView),
    Open(DocumentId),
    Save(DocumentId),
    Remove(DocumentId),
}

impl View for DocumentAction {
    type V = DocumentActionView;

    open spec fn view(&self) -> DocumentActionView {
        match self {
            DocumentAction::Add(h) => DocumentActionView::Add(h@),
            DocumentAction::Open(id) => DocumentActionView::Open(*id),
            DocumentAction::Save(id) => DocumentActionView::Save(*id),
            DocumentAction::Remove(id) => DocumentActionView::Remove(*id),
        }
    }
}

impl Clone for DocumentAction {
    fn clone(&self) -> (r: Self)
        ensures
            r@ == self@,
    {
        match self {
            DocumentAction::Add(h) => DocumentAction::Add(h.clone()),
            DocumentAction::Open(id) => DocumentAction::Open(*id),
            DocumentAction::Save(id) => DocumentAction::Save(*id),
            DocumentAction::Remove(id) => DocumentAction::Remove(*id),
        }
    }
}

/// A leaf mutation, applied directly to one store.
#[derive(Debug)]
pub enum GenericAction {
    File(FileAction),
    Pane(PaneAction),
    Document(DocumentAction),
}

/// Mathematical image of a generic action.
pub enum GenericActionView {
    File(FileActionView),
    Pane(PaneAction),
    Document(DocumentActionView),
}

impl View for GenericAction {
    type V = GenericActionView;

    open spec fn view(&self) -> GenericActionView {
        match self {
            GenericAction::File(a) => GenericActionView::File(a@),
            GenericAction::Pane(a) => GenericActionView::Pane(*a),
            GenericAction::Document(a) => GenericActionView::Document(a@),
        }
    }
}

impl Clone for GenericAction {
    fn clone(&self) -> (r: Self)
        ensures
            r@ == self@,
    {
        match self {
            GenericAction::File(a) => GenericAction::File(a.clone()),
            GenericAction::Pane(a) => GenericAction::Pane(*a),
            GenericAction::Document(a) => GenericAction::Document(a.clone()),
        }
    }
}

/// User or plugin intent, routed through the plugin host before its
/// generic actions are applied.
#[derive(Debug)]
pub struct Action {
    pub generic: GenericAction,
}

impl View for Action {
    type V = GenericActionView;

    open spec fn view(&self) -> GenericActionView {
        self.generic@
    }
}

impl Clone for Action {
    fn clone(&self) -> (r: Self)
        ensures
            r@ == self@,
    {
        Action { generic: self.generic.clone() }
    }
}

impl Action {
    /// Wraps one generic action as an intent.
    pub fn new(generic: GenericAction) -> (a: Action)
        ensures
            a@ == generic@,
    {
        Action { generic }
    }
}

/// Content equality of two file actions.
pub fn same_file_action(a: &FileAction, b: &FileAction) -> (r: bool)
    ensures
        r == (a@ == b@),
{
    match (a, b) {
        (FileAction::PickFile, FileAction::PickFile) => true,
        (FileAction::OpenFileCurrentTab(p), FileAction::OpenFileCurrentTab(q)) => str_eq(
            p.as_str(),
            q.as_str(),
        ),
        (FileAction::OpenFileForceCurrentTab(p), FileAction::OpenFileForceCurrentTab(q)) => str_eq(
            p.as_str(),
            q.as_str(),
        ),
        (FileAction::OpenFileNewTab(p), FileAction::OpenFileNewTab(q)) => str_eq(
            p.as_str(),
            q.as_str(),
        ),
        _ => false,
    }
}

/// Content equality of two document handlers.
pub fn same_handler(a: &DocumentHandler, b: &DocumentHandler) -> (r: bool)
    ensures
        r == (a@ == b@),
{
    str_eq(a.text_content.as_str(), b.text_content.as_str()) && str_eq(
        a.path.as_str(),
        b.path.as_str(),
    ) && str_eq(a.filename.as_str(), b.filename.as_str()) && a.changed == b.changed
}

/// Content equality of two document actions.
pub fn same_document_action(a: &DocumentAction, b: &DocumentAction) -> (r: bool)
    ensures
        r == (a@ == b@),
{
    match (a, b) {
        (DocumentAction::Add(h), DocumentAction::Add(k)) => same_handler(h, k),
        (DocumentAction::Open(i), DocumentAction::Open(j)) => i == j,
        (DocumentAction::Save(i), DocumentAction::Save(j)) => i == j,
        (DocumentAction::Remove(i), DocumentAction::Remove(j)) => i == j,
        _ => false,
    }
}

/// Content equality of two generic actions.
pub fn same_generic_action(a: &GenericAction, b: &GenericAction) -> (r: bool)
    ensures
        r == (a@ == b@),
{
    match (a, b) {
        (GenericAction::File(x), GenericAction::File(y)) => same_file_action(x, y),
        (GenericAction::Pane(x), GenericAction::Pane(y)) => x == y,
        (GenericAction::Document(x), GenericAction::Document(y)) => same_document_action(x, y),
        _ => false,
    }
}

} // verus!
