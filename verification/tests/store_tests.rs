use strelka::document::{DocumentHandler, DocumentStore};
use strelka::editor::{apply_action, EditorAction};
use strelka::file_explorer::{get_directory_name, get_file_name, DirEntry, EntryKind,
    FileExplorer};
use strelka::pane::{Pane, PaneModel};
use strelka::text::str_eq;

fn handler(text: &str, path: &str, name: &str) -> DocumentHandler {
    DocumentHandler {
        text_content: String::from(text),
        path: String::from(path),
        filename: String::from(name),
        changed: false,
    }
}

#[test]
fn document_ids_strictly_increase_across_removes() {
    let mut s = DocumentStore::new();
    let a = s.add(handler("a", "/a", "a"));
    let b = s.add(handler("b", "/b", "b"));
    assert!(b > a);
    s.remove(a);
    s.remove(b);
    let c = s.add(handler("c", "/c", "c"));
    assert!(c > b);
    assert_eq!(s.count(), 1);
}

#[test]
fn document_lookup_and_removal() {
    let mut s = DocumentStore::new();
    let id = s.add(handler("hello", "/x/a.txt", "a.txt"));
    assert_eq!(s.get(id).unwrap().text_content, "hello");
    assert!(s.get(id + 1).is_none());
    assert!(s.remove(9999).is_none());
    let h = s.remove(id).unwrap();
    assert_eq!(h.filename, "a.txt");
    assert!(s.get(id).is_none());
    assert_eq!(s.count(), 0);
}

#[test]
fn document_flags_and_text() {
    let mut s = DocumentStore::new();
    let id = s.add(handler("hello", "/x/a.txt", "a.txt"));
    assert!(s.set_changed(id, true));
    assert!(s.get(id).unwrap().changed);
    assert!(s.set_text(id, String::from("world")));
    assert_eq!(s.get(id).unwrap().text_content, "world");
    assert!(s.get(id).unwrap().changed);
    assert!(!s.set_changed(404, true));
    assert!(!s.set_text(404, String::new()));
}

#[test]
fn pane_focus_follows_adds_and_removes() {
    let mut m = PaneModel::new();
    assert_eq!(m.get_open_id(), None);
    let p0 = m.add(Pane::NewDocument);
    m.open(p0);
    assert_eq!(m.get_open_id(), Some(p0));
    assert_eq!(m.get_open(), Some(Pane::NewDocument));
    let p1 = m.add(Pane::Editor(7));
    assert!(p1 > p0);
    // adding does not move the focus
    assert_eq!(m.get_open_id(), Some(p0));
    m.open(p1);
    assert_eq!(m.get_open(), Some(Pane::Editor(7)));
    // focusing an unknown pane is a no-op
    m.open(9999);
    assert_eq!(m.get_open_id(), Some(p1));
    // removing the focused pane clears the focus
    assert_eq!(m.remove(p1), Some(Pane::Editor(7)));
    assert_eq!(m.get_open_id(), None);
    assert_eq!(m.count(), 1);
    // removing an unknown pane is a no-op
    assert_eq!(m.remove(p1), None);
    assert_eq!(m.count(), 1);
}

#[test]
fn pane_replace_keeps_id_and_focus() {
    let mut m = PaneModel::new();
    let p0 = m.add(Pane::NewDocument);
    m.open(p0);
    m.replace(p0, Pane::Editor(3));
    assert_eq!(m.get_open_id(), Some(p0));
    assert_eq!(m.get_open(), Some(Pane::Editor(3)));
    assert_eq!(m.get(p0), Some(Pane::Editor(3)));
    m.replace(404, Pane::Buffer);
    assert_eq!(m.count(), 1);
}

#[test]
fn editor_actions_edit_and_move() {
    let a = EditorAction::Insert(5, String::from(", world"));
    assert!(a.is_edit());
    assert_eq!(apply_action(&a, "hello"), "hello, world");
    let b = EditorAction::Delete(0, 6);
    assert!(b.is_edit());
    assert_eq!(apply_action(&b, "hello, world"), " world");
    let c = EditorAction::Click(3);
    assert!(!c.is_edit());
    assert_eq!(apply_action(&c, "hello"), "hello");
    assert!(!EditorAction::SelectAll.is_edit());
    // positions clamp to the end
    assert_eq!(
        apply_action(&EditorAction::Insert(99, String::from("!")), "hi"),
        "hi!"
    );
    assert_eq!(apply_action(&EditorAction::Delete(1, 99), "hi"), "h");
}

#[test]
fn explorer_splits_files_and_dirs() {
    let content = vec![
        DirEntry { path: String::from("/w/src"), kind: EntryKind::Directory },
        DirEntry { path: String::from("/w/a.txt"), kind: EntryKind::File },
        DirEntry { path: String::from("/w/broken"), kind: EntryKind::Other },
        DirEntry { path: String::from("/w/b.txt"), kind: EntryKind::File },
    ];
    let e = FileExplorer::with_content(&content);
    assert_eq!(e.dirs, vec![String::from("/w/src")]);
    assert_eq!(
        e.files,
        vec![String::from("/w/a.txt"), String::from("/w/b.txt")]
    );
    assert!(e.selected_file.is_none());
    let e = e.select_file("/w/a.txt");
    assert_eq!(e.selected_file, Some(String::from("/w/a.txt")));
    let e = e.select_file_maybe(None);
    assert_eq!(e.selected_file, Some(String::from("/w/a.txt")));
    let e2 = FileExplorer::with_content_maybe(None);
    assert!(e2.files.is_empty() && e2.dirs.is_empty());
}

#[test]
fn path_display_names() {
    assert_eq!(get_file_name("/x/a.txt"), Some(String::from("a.txt")));
    assert_eq!(get_file_name("a.txt"), Some(String::from("a.txt")));
    // trailing separators are ignored
    assert_eq!(get_file_name("/x/"), Some(String::from("x")));
    // roots and dot navigations name nothing
    assert_eq!(get_file_name("/"), None);
    assert_eq!(get_file_name(""), None);
    assert_eq!(get_file_name("."), None);
    assert_eq!(get_file_name(".."), None);
    assert_eq!(get_file_name("a/.."), None);
    assert_eq!(get_directory_name("/w/src/a.txt"), Some(String::from("src")));
    assert_eq!(get_directory_name("/w/src/"), Some(String::from("w")));
    assert_eq!(get_directory_name("a.txt"), None);
    // a parent ending in a dot navigation names nothing
    assert_eq!(get_directory_name("a/../x"), None);
}

#[test]
fn str_eq_compares_content() {
    assert!(str_eq("abc", "abc"));
    assert!(!str_eq("abc", "abd"));
    assert!(!str_eq("abc", "ab"));
    assert!(str_eq("", ""));
}
