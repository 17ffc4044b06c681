use strelka::action::{Action, DocumentAction, FileAction, GenericAction, PaneAction};
use strelka::config::Config;
use strelka::editor::EditorAction;
use strelka::hotkey::KeyMods;
use strelka::pane::Pane;
use strelka::plugin::{PluginBehavior, PluginInfo, RewriteRule};
use strelka::session::{App, AppMessage, Effect};
use strelka::theme::ThemeMetadata;
use strelka::value::Value;

fn ctrl() -> KeyMods {
    KeyMods { ctrl: true, alt: false }
}

fn fresh() -> App {
    App::new(Config::new()).0
}

/// Runs one message and re-feeds every message the reducer emitted for
/// itself, returning the other effects.
fn drive(app: &mut App, message: AppMessage) -> Vec<Effect> {
    let mut queue = vec![message];
    let mut out = Vec::new();
    while let Some(m) = queue.pop() {
        for e in app.update(m) {
            match e {
                Effect::Emit(next) => queue.push(next),
                other => out.push(other),
            }
        }
    }
    out
}

#[test]
fn startup_effects_and_state() {
    let (app, effects) = App::new(Config::new());
    let vm = app.view_model();
    assert_eq!(vm.slots.len(), 1);
    assert!(matches!(vm.slots[0].pane, Pane::NewDocument));
    assert!(vm.slots[0].focused);
    assert_eq!(app.theme(), "core.light");
    assert_eq!(app.title(), "Strelka");
    assert_eq!(effects.len(), 3);
    assert!(matches!(&effects[0], Effect::Emit(AppMessage::LoadPlugin(id, true)) if id == "core.example"));
    assert!(matches!(&effects[1], Effect::LoadThemes));
    assert!(matches!(&effects[2], Effect::Emit(AppMessage::LoadTheme(id)) if id == "core.light"));
}

#[test]
fn configured_theme_wins_at_startup() {
    let mut config = Config::new();
    config.insert("system", "theme", Value::Text(String::from("solar")));
    let (app, effects) = App::new(config);
    assert_eq!(app.theme(), "solar");
    assert!(matches!(&effects[2], Effect::Emit(AppMessage::LoadTheme(id)) if id == "solar"));
}

#[test]
fn open_via_dialog() {
    let mut app = fresh();
    let effects = app.update(AppMessage::Action(Action::new(GenericAction::File(
        FileAction::PickFile,
    ))));
    assert_eq!(effects.len(), 1);
    assert!(matches!(&effects[0], Effect::PickFile));
    let effects = app.update(AppMessage::OpenedFile(Ok((
        String::from("/x/a.txt"),
        String::from("hello"),
    ))));
    assert!(effects.is_empty());
    let d1 = 1;
    let doc = app.state.documents.get(d1).unwrap();
    assert_eq!(doc.text_content, "hello");
    assert_eq!(doc.filename, "a.txt");
    assert!(!doc.changed);
    let vm = app.view_model();
    assert_eq!(vm.slots.len(), 1);
    // the welcome pane was replaced in place, keeping its identifier
    assert_eq!(vm.slots[0].id, 1);
    assert!(matches!(vm.slots[0].pane, Pane::Editor(d) if d == d1));
    assert!(vm.slots[0].focused);
    let meta = vm.slots[0].document.as_ref().unwrap();
    assert_eq!(meta.filename, "a.txt");
    assert!(!meta.changed);
}

#[test]
fn hotkey_close_reseeds_welcome_pane() {
    let mut app = fresh();
    app.update(AppMessage::OpenedFile(Ok((
        String::from("/x/a.txt"),
        String::from("hello"),
    ))));
    let d1 = 1;
    assert!(app.state.documents.get(d1).is_some());
    drive(&mut app, AppMessage::OnKeyPress('w', ctrl()));
    assert!(app.state.documents.get(d1).is_none());
    let vm = app.view_model();
    assert_eq!(vm.slots.len(), 1);
    // a freshly allocated pane holds the welcome page and the focus
    assert_eq!(vm.slots[0].id, 2);
    assert!(matches!(vm.slots[0].pane, Pane::NewDocument));
    assert!(vm.slots[0].focused);
}

#[test]
fn plugin_rewrites_action() {
    let mut app = fresh();
    let info = PluginInfo::new().name("X").id("test.x").author("t").version("1").description(
        "doubles pane adds",
    );
    let rule = RewriteRule {
        on: GenericAction::Pane(PaneAction::Add(Pane::Buffer)),
        emit: vec![
            GenericAction::Pane(PaneAction::Add(Pane::NewDocument)),
            GenericAction::Pane(PaneAction::Add(Pane::Buffer)),
        ],
    };
    assert!(app.plugin_host.register_plugin(info, PluginBehavior::Rewrite(vec![rule])));
    app.update(AppMessage::LoadPlugin(String::from("test.x"), true));
    app.update(AppMessage::Action(Action::new(GenericAction::Pane(PaneAction::Add(
        Pane::Buffer,
    )))));
    let vm = app.view_model();
    assert_eq!(vm.slots.len(), 3);
    assert!(matches!(vm.slots[0].pane, Pane::NewDocument));
    assert_eq!(vm.slots[0].id, 1);
    assert!(matches!(vm.slots[1].pane, Pane::NewDocument));
    assert_eq!(vm.slots[1].id, 2);
    assert!(matches!(vm.slots[2].pane, Pane::Buffer));
    assert_eq!(vm.slots[2].id, 3);
    assert!(vm.slots[2].focused);
    assert!(!vm.slots[0].focused && !vm.slots[1].focused);
}

#[test]
fn unloaded_plugin_passes_through() {
    let mut app = fresh();
    let info = PluginInfo::new().name("X").id("test.x").author("t").version("1").description("");
    let rule = RewriteRule {
        on: GenericAction::Pane(PaneAction::Add(Pane::Buffer)),
        emit: vec![],
    };
    assert!(app.plugin_host.register_plugin(info, PluginBehavior::Rewrite(vec![rule])));
    // not loaded: the action passes through unchanged
    app.update(AppMessage::Action(Action::new(GenericAction::Pane(PaneAction::Add(
        Pane::Buffer,
    )))));
    assert_eq!(app.view_model().slots.len(), 2);
}

#[test]
fn duplicate_plugin_registration_is_rejected() {
    let mut app = fresh();
    let info = PluginInfo::new().id("core.example");
    assert!(!app.plugin_host.register_plugin(info, PluginBehavior::Passive));
    assert_eq!(app.plugin_host.get_plugin_ids().len(), 1);
}

#[test]
fn save_clears_dirty_flag() {
    let mut app = fresh();
    app.update(AppMessage::OpenedFile(Ok((
        String::from("/x/a.txt"),
        String::from("hello"),
    ))));
    let d1 = 1;
    app.update(AppMessage::TextEditorAction(
        EditorAction::Insert(5, String::from("!")),
        d1,
    ));
    assert!(app.state.documents.get(d1).unwrap().changed);
    assert_eq!(app.state.documents.get(d1).unwrap().text_content, "hello!");
    let effects = app.update(AppMessage::Action(Action::new(GenericAction::Document(
        DocumentAction::Save(d1),
    ))));
    assert_eq!(effects.len(), 1);
    match &effects[0] {
        Effect::SaveDocument { id, path, text } => {
            assert_eq!(*id, d1);
            assert_eq!(path, "/x/a.txt");
            assert_eq!(text, "hello!");
        },
        _ => panic!("expected a save"),
    }
    app.update(AppMessage::SavedFile(d1));
    assert!(!app.state.documents.get(d1).unwrap().changed);
}

#[test]
fn non_edit_actions_keep_document_clean() {
    let mut app = fresh();
    app.update(AppMessage::OpenedFile(Ok((
        String::from("/x/a.txt"),
        String::from("hello"),
    ))));
    app.update(AppMessage::TextEditorAction(EditorAction::Click(2), 1));
    assert!(!app.state.documents.get(1).unwrap().changed);
    app.update(AppMessage::TextEditorAction(EditorAction::SelectAll, 1));
    assert!(!app.state.documents.get(1).unwrap().changed);
    app.update(AppMessage::TextEditorAction(EditorAction::Delete(0, 1), 1));
    assert!(app.state.documents.get(1).unwrap().changed);
}

#[test]
fn saved_file_for_unknown_document_is_noop() {
    let mut app = fresh();
    let effects = app.update(AppMessage::SavedFile(42));
    assert!(effects.is_empty());
    assert_eq!(app.view_model().slots.len(), 1);
}

#[test]
fn close_unknown_pane_is_noop() {
    let mut app = fresh();
    let effects = app.update(AppMessage::Action(Action::new(GenericAction::Pane(
        PaneAction::Close(9999),
    ))));
    assert!(effects.is_empty());
    let vm = app.view_model();
    assert_eq!(vm.slots.len(), 1);
    assert_eq!(vm.slots[0].id, 1);
    assert!(matches!(vm.slots[0].pane, Pane::NewDocument));
    assert!(vm.slots[0].focused);
    assert_eq!(app.state.documents.count(), 0);
}

#[test]
fn hotkeys_resolve_against_state() {
    let app = fresh();
    let m = app.on_key_press('o', ctrl());
    assert!(matches!(
        m,
        Some(AppMessage::Action(a)) if matches!(a.generic, GenericAction::File(FileAction::PickFile))
    ));
    let m = app.on_key_press('d', ctrl());
    assert!(matches!(m, Some(AppMessage::LoadTheme(id)) if id == "core.dark"));
    let m = app.on_key_press('t', ctrl());
    assert!(matches!(
        m,
        Some(AppMessage::Action(a)) if matches!(a.generic, GenericAction::Pane(PaneAction::Add(Pane::NewDocument)))
    ));
    // the focused pane's identifier is read at dispatch time
    let m = app.on_key_press('w', ctrl());
    assert!(matches!(
        m,
        Some(AppMessage::Action(a)) if matches!(a.generic, GenericAction::Pane(PaneAction::Close(1)))
    ));
    // unbound chords are dropped, and ctrl+alt folds away from ctrl
    assert!(app.on_key_press('z', ctrl()).is_none());
    assert!(app.on_key_press('o', KeyMods { ctrl: true, alt: true }).is_none());
    assert!(app.on_key_press('o', KeyMods { ctrl: false, alt: false }).is_none());
}

#[test]
fn document_add_reports_the_fresh_id() {
    let mut app = fresh();
    let effects = app.update(AppMessage::GenericAction(GenericAction::Document(
        DocumentAction::Add(strelka::document::DocumentHandler {
            text_content: String::from("x"),
            path: String::from("/p"),
            filename: String::from("p"),
            changed: false,
        }),
    )));
    assert_eq!(effects.len(), 1);
    assert!(matches!(&effects[0], Effect::Emit(AppMessage::AddedDocument(1))));
    assert_eq!(app.state.documents.count(), 1);
}

#[test]
fn document_open_action_adds_editor_pane() {
    let mut app = fresh();
    app.update(AppMessage::GenericAction(GenericAction::Document(DocumentAction::Add(
        strelka::document::DocumentHandler {
            text_content: String::from("x"),
            path: String::from("/p"),
            filename: String::from("p"),
            changed: false,
        },
    ))));
    assert_eq!(app.state.documents.count(), 1);
    drive(&mut app, AppMessage::Action(Action::new(GenericAction::Document(
        DocumentAction::Open(1),
    ))));
    let vm = app.view_model();
    assert_eq!(vm.slots.len(), 2);
    assert!(matches!(vm.slots[1].pane, Pane::Editor(1)));
    assert!(vm.slots[1].focused);
}

#[test]
fn themes_load_and_serve() {
    let mut app = fresh();
    app.update(AppMessage::AddTheme(
        String::from("core.dark"),
        String::from("background = black"),
        ThemeMetadata { id: String::from("core.dark"), name: String::from("Dark") },
    ));
    // loading an unknown theme is a no-op
    app.update(AppMessage::LoadTheme(String::from("nope")));
    assert_eq!(app.theme(), "core.light");
    app.update(AppMessage::LoadTheme(String::from("core.dark")));
    assert_eq!(app.theme(), "core.dark");
    assert_eq!(
        app.state.themes.get_body("core.dark").unwrap(),
        "background = black"
    );
}

#[test]
fn open_directory_resolves_then_sets_workdir() {
    let mut app = fresh();
    let effects = app.update(AppMessage::OpenDirectory(String::from("projects")));
    assert_eq!(effects.len(), 1);
    assert!(matches!(&effects[0], Effect::ResolveDirectory(p) if p == "projects"));
    app.update(AppMessage::ResolvedDirectory(Some(String::from("/home/u/projects"))));
    assert_eq!(
        app.state.config.get("system", "workdir"),
        Some(Value::Text(String::from("/home/u/projects")))
    );
    // a path that was no directory changes nothing
    let mut app2 = fresh();
    app2.update(AppMessage::ResolvedDirectory(None));
    assert_eq!(app2.state.config.get("system", "workdir"), None);
}

#[test]
fn opened_file_failure_is_noop() {
    let mut app = fresh();
    let effects = app.update(AppMessage::OpenedFile(Err(())));
    assert!(effects.is_empty());
    assert_eq!(app.state.documents.count(), 0);
    assert_eq!(app.view_model().slots.len(), 1);
}

#[test]
fn second_open_goes_to_new_tab() {
    let mut app = fresh();
    app.update(AppMessage::OpenedFile(Ok((String::from("/a"), String::from("1")))));
    app.update(AppMessage::OpenedFile(Ok((String::from("/b"), String::from("2")))));
    let vm = app.view_model();
    assert_eq!(vm.slots.len(), 2);
    assert!(matches!(vm.slots[0].pane, Pane::Editor(1)));
    assert!(matches!(vm.slots[1].pane, Pane::Editor(2)));
    assert!(vm.slots[1].focused);
}
