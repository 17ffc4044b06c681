//! The session facade: one owner of all stores, a single reducer through
//! which every state change passes, and effect values describing the
//! asynchronous work the surrounding event loop must perform.  Each
//! effect's completion re-enters the reducer as a message.

use vstd::prelude::*;

use crate::action::{Action, DocumentAction, FileAction, FileActionView, GenericAction,
    GenericActionView, DocumentActionView};
use crate::alist::{alist_map, lemma_alist_at, lemma_alist_dom, lemma_alist_push,
    lemma_alist_update, wf_alist};
use crate::config::{spec_get, spec_insert, Config, ConfigMap};
use crate::document::{ds_apply, DocStoreOp, DocumentHandler, DocumentStore, DocView, DsModel};
use crate::editor::{spec_apply, spec_is_edit, EditorAction, EditorActionView};
use crate::file_explorer::{file_name_of, spec_display_name};
use crate::hotkey::{normalize, spec_normalize, HotKey, HotkeyIntent, HotkeyIntentView, KeyMods,
    Modifiers};
use crate::pane::{Pane, PaneModel, PmModel};
use crate::plugin::{host_process, PluginBehavior, PluginBehaviorView, PluginHost, PluginId,
    PluginInfo, PluginInfoView, PluginRecordView};
use crate::theme::{Catalog, CatalogView, ThemeEntryView, ThemeMetadata};
use crate::text::str_eq;
use crate::{DocumentId, PaneId};

verus! {

/// Everything the reducer owns: documents, panes, configuration, themes.
pub struct State {
    pub documents: DocumentStore,
    pub panes: PaneModel,
    pub config: Config,
    pub themes: Catalog,
}

/// Mathematical image of the session state.
pub struct StateView {
    pub documents: DsModel,
    pub panes: PmModel,
    pub config: ConfigMap,
    pub themes: CatalogView,
}

impl View for State {
    type V = StateView;

    open spec fn view(&self) -> StateView {
        StateView {
            documents: self.documents.model(),
            panes: self.panes.model(),
            config: self.config@,
            themes: self.themes@,
        }
    }
}

impl State {
    /// Well-formedness of every store.
    pub open spec fn wf(&self) -> bool {
        &&& self.documents.wf()
        &&& self.panes.wf()
        &&& self.config.wf()
        &&& self.themes.wf()
    }
}

/// One message fed into the reducer: a converted external event, a user
/// intent, or the completion of an effect.
#[derive(Debug)]
pub enum AppMessage {
    /// Load or unload a registered plugin.
    LoadPlugin(PluginId, bool),
    /// Make a known theme the active one.
    LoadTheme(String),
    /// A discovered theme: identifier, file body, metadata.
    AddTheme(String, String, ThemeMetadata),
    /// Completion of a file dialog or read: path and content, or failure.
    OpenedFile(Result<(String, String), ()>),
    /// A generic action applied directly, skipping the plugin host.
    GenericAction(GenericAction),
    /// A user or plugin intent, routed through the plugin host.
    Action(Action),
    /// Report of the identifier a `DocumentAction::Add` allocated.
    AddedDocument(DocumentId),
    /// Completion of a successful save.
    SavedFile(DocumentId),
    /// Request to make a directory the working directory.
    OpenDirectory(String),
    /// Completion of directory resolution: the canonical path, or nothing
    /// when the path was not a directory.
    ResolvedDirectory(Option<String>),
    /// An editing action for one document's buffer.
    TextEditorAction(EditorAction, DocumentId),
    /// A raw key press from the windowing layer.
    OnKeyPress(char, KeyMods),
    /// Nothing to do.
    Idle,
}

/// Mathematical image of a message.
pub enum AppMessageView {
    LoadPlugin(Seq<char>, bool),
    LoadTheme(Seq<char>),
    AddTheme(Seq<char>, Seq<char>, crate::theme::ThemeMetadataView),
    OpenedFile(Result<(Seq<char>, Seq<char>), ()>),
    GenericAction(GenericActionView),
    Action(GenericActionView),
    AddedDocument(DocumentId),
    SavedFile(DocumentId),
    OpenDirectory(Seq<char>),
    ResolvedDirectory(Option<Seq<char>>),
    TextEditorAction(EditorActionView, DocumentId),
    OnKeyPress(char, KeyMods),
    Idle,
}

impl View for AppMessage {
    type V = AppMessageView;

    open spec fn view(&self) -> AppMessageView {
        match self {
            AppMessage::LoadPlugin(id, load) => AppMessageView::LoadPlugin(id@, *load),
            AppMessage::LoadTheme(id) => AppMessageView::LoadTheme(id@),
            AppMessage::AddTheme(id, body, meta) => AppMessageView::AddTheme(id@, body@, meta@),
            AppMessage::OpenedFile(r) => AppMessageView::OpenedFile(
                match r {
                    Ok((path, content)) => Ok((path@, content@)),
                    Err(()) => Err(()),
                },
            ),
            AppMessage::GenericAction(a) => AppMessageView::GenericAction(a@),
            AppMessage::Action(a) => AppMessageView::Action(a@),
            AppMessage::AddedDocument(id) => AppMessageView::AddedDocument(*id),
            AppMessage::SavedFile(id) => AppMessageView::SavedFile(*id),
            AppMessage::OpenDirectory(p) => AppMessageView::OpenDirectory(p@),
            AppMessage::ResolvedDirectory(p) => AppMessageView::ResolvedDirectory(
                match p {
                    Some(c) => Some(c@),
                    None => None,
                },
            ),
            AppMessage::TextEditorAction(a, id) => AppMessageView::TextEditorAction(a@, *id),
            AppMessage::OnKeyPress(c, mods) => AppMessageView::OnKeyPress(*c, *mods),
            AppMessage::Idle => AppMessageView::Idle,
        }
    }
}

/// One unit of asynchronous work for the event loop.  No effect observes
/// or mutates session state; its completion comes back as a message.
#[derive(Debug)]
pub enum Effect {
    /// Open the OS file dialog; completes as `OpenedFile`.
    PickFile,
    /// Read one file; completes as `OpenedFile`.
    OpenFile(String),
    /// Write `text` to `path`; on success completes as `SavedFile(id)`.
    SaveDocument { id: DocumentId, path: String, text: String },
    /// Canonicalize the path and test that it is a directory; completes
    /// as `ResolvedDirectory`.
    ResolveDirectory(String),
    /// Enumerate the theme directory; each found theme completes as
    /// `AddTheme`.
    LoadThemes,
    /// Feed a message straight back into the reducer.
    Emit(AppMessage),
}

/// Mathematical image of an effect.
pub enum EffectView {
    PickFile,
    OpenFile(Seq<char>),
    SaveDocument { id: DocumentId, path: Seq<char>, text: Seq<char> },
    ResolveDirectory(Seq<char>),
    LoadThemes,
    Emit(AppMessageView),
}

impl View for Effect {
    type V = EffectView;

    open spec fn view(&self) -> EffectView {
        match self {
            Effect::PickFile => EffectView::PickFile,
            Effect::OpenFile(p) => EffectView::OpenFile(p@),
            Effect::SaveDocument { id, path, text } => EffectView::SaveDocument {
                id: *id,
                path: path@,
                text: text@,
            },
            Effect::ResolveDirectory(p) => EffectView::ResolveDirectory(p@),
            Effect::LoadThemes => EffectView::LoadThemes,
            Effect::Emit(m) => EffectView::Emit(m@),
        }
    }
}

/// The character sequences of a list of effects.
pub open spec fn effs_view(v: Seq<Effect>) -> Seq<EffectView> {
    v.map_values(|e: Effect| e@)
}

/// The message an intent resolves to against the current state.
pub open spec fn spec_resolve_intent(i: HotkeyIntentView, s: StateView) -> AppMessageView {
    match i {
        HotkeyIntentView::Dispatch(a) => AppMessageView::Action(a),
        HotkeyIntentView::LoadTheme(id) => AppMessageView::LoadTheme(id),
        HotkeyIntentView::CloseFocusedPane => match s.panes.open {
            Some(id) => AppMessageView::Action(
                GenericActionView::Pane(crate::action::PaneAction::Close(id)),
            ),
            None => AppMessageView::Idle,
        },
    }
}

/// The hotkey registry: each chord bound at most once.
pub struct HotkeyRegistry {
    pub(crate) binds: Vec<(HotKey, HotkeyIntent)>,
}

impl HotkeyRegistry {
    /// The bindings in registration order, as mathematical values.
    pub open(crate) spec fn entry_seq(&self) -> Seq<(HotKey, HotkeyIntentView)> {
        self.binds@.map_values(|e: (HotKey, HotkeyIntent)| (e.0, e.1@))
    }

    /// The bound chords, as a map.
    pub open spec fn map(&self) -> Map<HotKey, HotkeyIntentView> {
        alist_map(self.entry_seq())
    }

    /// Chords are bound at most once.
    pub open spec fn wf(&self) -> bool {
        wf_alist(self.entry_seq())
    }
}

/// The session facade: the stores, the plugin host, and the hotkey
/// registry.
pub struct App {
    pub state: State,
    pub plugin_host: PluginHost,
    pub hotkeys: HotkeyRegistry,
}

/// Mathematical image of the whole session.
pub struct AppView {
    pub state: StateView,
    pub plugins: Seq<PluginRecordView>,
    pub hotkeys: Map<HotKey, HotkeyIntentView>,
}

impl App {
    /// The hotkey bindings in registration order, as mathematical values.
    pub open(crate) spec fn hotkey_seq(&self) -> Seq<(HotKey, HotkeyIntentView)> {
        self.hotkeys.entry_seq()
    }

    /// The bound chords, as a map.
    pub open spec fn hotkey_map(&self) -> Map<HotKey, HotkeyIntentView> {
        self.hotkeys.map()
    }

    /// Well-formedness: every store well formed, chords bound once.
    pub open spec fn wf(&self) -> bool {
        &&& self.state.wf()
        &&& self.hotkeys.wf()
    }
}

impl View for App {
    type V = AppView;

    open spec fn view(&self) -> AppView {
        AppView { state: self.state@, plugins: self.plugin_host@, hotkeys: self.hotkey_map() }
    }
}

/// The message a key press produces: the bound intent resolved against
/// the state, or nothing for an unbound chord.
pub open spec fn spec_on_key(v: AppView, key: char, mods: KeyMods) -> Option<AppMessageView> {
    let h = HotKey { modifiers: spec_normalize(mods), key };
    if v.hotkeys.dom().contains(h) {
        Some(spec_resolve_intent(v.hotkeys[h], v.state))
    } else {
        None
    }
}

impl App {
    /// Binds a chord to an intent, overwriting an existing binding.
    pub fn add_hotkey(&mut self, hotkey: HotKey, intent: HotkeyIntent)
        requires
            old(self).wf(),
        ensures
            final(self).wf(),
            final(self).hotkey_map() == old(self).hotkey_map().insert(hotkey, intent@),
            final(self).state == old(self).state,
            final(self).plugin_host == old(self).plugin_host,
    {
        let hs = Ghost(self.hotkey_seq());
        let iv = Ghost(intent@);
        let n = self.hotkeys.binds.len();
        for i in 0..n
            invariant
                n == self.hotkeys.binds@.len(),
                old(self).wf(),
                hs@ == self.hotkey_seq(),
                hs@ == old(self).hotkey_seq(),
                wf_alist(hs@),
                self.state == old(self).state,
                self.plugin_host == old(self).plugin_host,
                forall|k: int| 0 <= k < i ==> (#[trigger] hs@[k]).0 != hotkey,
        {
            if self.hotkeys.binds[i].0 == hotkey {
                self.hotkeys.binds.remove(i);
                let pair = (hotkey, intent);
                let pv = Ghost((pair.0, pair.1@));
                self.hotkeys.binds.push(pair);
                proof {
                    assert(hs@[i as int].0 == hotkey);
                    crate::alist::lemma_alist_remove(hs@, i as int);
                    assert(self.hotkey_seq() =~= hs@.remove(i as int).push(pv@));
                    lemma_alist_push(hs@.remove(i as int), pv@);
                    assert(pv@.0 == hotkey);
                    assert(self.hotkey_map() == alist_map(hs@).remove(hotkey).insert(
                        hotkey,
                        pv@.1,
                    ));
                    assert(alist_map(hs@).remove(hotkey).insert(hotkey, pv@.1) =~= alist_map(
                        hs@,
                    ).insert(hotkey, pv@.1));
                    assert(self.hotkey_map() == old(self).hotkey_map().insert(hotkey, intent@));
                    let rem = hs@.remove(i as int);
                    assert forall|k: int| 0 <= k < rem.len() implies (#[trigger] rem[k]).0
                        != hotkey by {
                        if k < i as int {
                            assert(rem[k] == hs@[k]);
                        } else {
                            assert(rem[k] == hs@[k + 1]);
                        }
                    }
                    assert(wf_alist(self.hotkey_seq()));
                }
                return ;
            }
        }
        self.hotkeys.binds.push((hotkey, intent));
        proof {
            assert(self.hotkey_seq() =~= hs@.push((hotkey, iv@)));
            lemma_alist_push(hs@, (hotkey, iv@));
            assert(forall|a: int, b: int|
                0 <= a < b < self.hotkey_seq().len() ==> (#[trigger] self.hotkey_seq()[a]).0 != (
                #[trigger] self.hotkey_seq()[b]).0);
        }
    }

    /// Resolves an intent against the current state.
    fn resolve_intent(&self, intent: &HotkeyIntent) -> (m: AppMessage)
        requires
            self.state.panes.wf(),
        ensures
            m@ == spec_resolve_intent(intent@, self.state@),
    {
        match intent {
            HotkeyIntent::Dispatch(a) => AppMessage::Action(Action::new(a.clone())),
            HotkeyIntent::LoadTheme(id) => AppMessage::LoadTheme(id.clone()),
            HotkeyIntent::CloseFocusedPane => {
                match self.state.panes.get_open_id() {
                    Some(id) => AppMessage::Action(
                        Action::new(
                            GenericAction::Pane(crate::action::PaneAction::Close(id)),
                        ),
                    ),
                    None => AppMessage::Idle,
                }
            },
        }
    }

    /// Normalizes the modifiers, looks the chord up, and resolves the
    /// bound intent against the current state; an unbound chord is
    /// dropped.
    pub fn on_key_press(&self, key: char, mods: KeyMods) -> (r: Option<AppMessage>)
        requires
            self.wf(),
        ensures
            match r {
                Some(m) => spec_on_key(self@, key, mods) == Some(m@),
                None => spec_on_key(self@, key, mods) is None,
            },
    {
        let chord = HotKey { modifiers: normalize(mods), key };
        let hs = Ghost(self.hotkey_seq());
        let n = self.hotkeys.binds.len();
        for i in 0..n
            invariant
                n == self.hotkeys.binds@.len(),
                hs@ == self.hotkey_seq(),
                self.wf(),
                chord == (HotKey { modifiers: spec_normalize(mods), key }),
                forall|k: int| 0 <= k < i ==> (#[trigger] hs@[k]).0 != chord,
        {
            if self.hotkeys.binds[i].0 == chord {
                proof {
                    lemma_alist_at(hs@, i as int);
                }
                return Some(self.resolve_intent(&self.hotkeys.binds[i].1));
            }
        }
        proof {
            lemma_alist_dom(hs@, chord);
        }
        None
    }
}

// ---------------------------------------------------------------------
// Ordered-slot surgery: removing or replacing the slot with a given key,
// as deterministic functions on the slot sequence.
// ---------------------------------------------------------------------
/// The slot sequence without the (first) slot keyed `id`.
pub open spec fn remove_key(s: Seq<(u64, Pane)>, id: u64) -> Seq<(u64, Pane)>
    decreases s.len(),
{
    if s.len() == 0 {
        s
    } else if s.first().0 == id {
        s.drop_first()
    } else {
        seq![s.first()] + remove_key(s.drop_first(), id)
    }
}

/// The slot sequence with the (first) slot keyed `id` holding `p`.
pub open spec fn update_key(s: Seq<(u64, Pane)>, id: u64, p: Pane) -> Seq<(u64, Pane)>
    decreases s.len(),
{
    if s.len() == 0 {
        s
    } else if s.first().0 == id {
        seq![(id, p)] + s.drop_first()
    } else {
        seq![s.first()] + update_key(s.drop_first(), id, p)
    }
}

proof fn lemma_remove_key_absent(s: Seq<(u64, Pane)>, id: u64)
    requires
        forall|k: int| 0 <= k < s.len() ==> (#[trigger] s[k]).0 != id,
    ensures
        remove_key(s, id) == s,
    decreases s.len(),
{
    if s.len() > 0 {
        assert(forall|k: int| 0 <= k < s.drop_first().len() ==> (#[trigger] s.drop_first()[k]).0
            != id);
        lemma_remove_key_absent(s.drop_first(), id);
        assert(seq![s.first()] + s.drop_first() =~= s);
    }
}

proof fn lemma_remove_key_at(s: Seq<(u64, Pane)>, i: int)
    requires
        wf_alist(s),
        0 <= i < s.len(),
    ensures
        remove_key(s, s[i].0) == s.remove(i),
    decreases i,
{
    let id = s[i].0;
    if i == 0 {
        assert(s.remove(0) =~= s.drop_first());
    } else {
        assert(s.first().0 != id);
        assert(forall|a: int, b: int|
            0 <= a < b < s.drop_first().len() ==> (#[trigger] s.drop_first()[a]).0 != (
            #[trigger] s.drop_first()[b]).0);
        assert(s.drop_first()[i - 1] == s[i]);
        lemma_remove_key_at(s.drop_first(), i - 1);
        assert(seq![s.first()] + s.drop_first().remove(i - 1) =~= s.remove(i));
    }
}

proof fn lemma_update_key_absent(s: Seq<(u64, Pane)>, id: u64, p: Pane)
    requires
        forall|k: int| 0 <= k < s.len() ==> (#[trigger] s[k]).0 != id,
    ensures
        update_key(s, id, p) == s,
    decreases s.len(),
{
    if s.len() > 0 {
        assert(forall|k: int| 0 <= k < s.drop_first().len() ==> (#[trigger] s.drop_first()[k]).0
            != id);
        lemma_update_key_absent(s.drop_first(), id, p);
        assert(seq![s.first()] + s.drop_first() =~= s);
    }
}

proof fn lemma_update_key_at(s: Seq<(u64, Pane)>, i: int, p: Pane)
    requires
        wf_alist(s),
        0 <= i < s.len(),
    ensures
        update_key(s, s[i].0, p) == s.update(i, (s[i].0, p)),
    decreases i,
{
    let id = s[i].0;
    if i == 0 {
        assert(seq![(id, p)] + s.drop_first() =~= s.update(0, (id, p)));
    } else {
        assert(s.first().0 != id);
        assert(forall|a: int, b: int|
            0 <= a < b < s.drop_first().len() ==> (#[trigger] s.drop_first()[a]).0 != (
            #[trigger] s.drop_first()[b]).0);
        assert(s.drop_first()[i - 1] == s[i]);
        lemma_update_key_at(s.drop_first(), i - 1, p);
        assert(seq![s.first()] + s.drop_first().update(i - 1, (id, p)) =~= s.update(i, (id, p)));
    }
}

// ---------------------------------------------------------------------
// The effect of one generic action on the state, as a function.
// ---------------------------------------------------------------------
/// State after `PaneAction::Close(id)`: the pane leaves; an editor pane
/// takes its document with it; an emptied model is reseeded with a fresh
/// focused welcome pane.
pub open spec fn spec_close_pane(s: StateView, id: u64) -> StateView {
    let removed = if alist_map(s.panes.panes).dom().contains(id) {
        Some(alist_map(s.panes.panes)[id])
    } else {
        None
    };
    let panes1 = remove_key(s.panes.panes, id);
    let open1 = if s.panes.open == Some(id) {
        None
    } else {
        s.panes.open
    };
    let docs1 = match removed {
        Some(Pane::Editor(d)) => s.documents.docs.remove(d),
        _ => s.documents.docs,
    };
    if panes1.len() == 0 {
        StateView {
            panes: PmModel {
                panes: panes1.push((s.panes.next as u64, Pane::NewDocument)),
                open: Some(s.panes.next as u64),
                next: s.panes.next + 1,
            },
            documents: DsModel { docs: docs1, next: s.documents.next },
            ..s
        }
    } else {
        StateView {
            panes: PmModel { panes: panes1, open: open1, next: s.panes.next },
            documents: DsModel { docs: docs1, next: s.documents.next },
            ..s
        }
    }
}

/// State after `PaneAction::Add(pane)`: the pane appended under a fresh
/// identifier and focused.
pub open spec fn spec_add_pane(s: StateView, pane: Pane) -> StateView {
    StateView {
        panes: PmModel {
            panes: s.panes.panes.push((s.panes.next as u64, pane)),
            open: Some(s.panes.next as u64),
            next: s.panes.next + 1,
        },
        ..s
    }
}

/// State and effects of one generic action.  File actions only schedule
/// I/O; pane and document actions mutate their store, and `Document`
/// `Open`/`Save` schedule follow-up work.
pub open spec fn spec_perform(s: StateView, a: GenericActionView) -> (StateView, Seq<EffectView>) {
    match a {
        GenericActionView::File(f) => (
            s,
            match f {
                FileActionView::PickFile => seq![EffectView::PickFile],
                FileActionView::OpenFileCurrentTab(p) => seq![EffectView::OpenFile(p)],
                FileActionView::OpenFileForceCurrentTab(p) => seq![EffectView::OpenFile(p)],
                FileActionView::OpenFileNewTab(p) => seq![EffectView::OpenFile(p)],
            },
        ),
        GenericActionView::Pane(pa) => (
            match pa {
                crate::action::PaneAction::Close(id) => spec_close_pane(s, id),
                crate::action::PaneAction::Open(id) => {
                    if alist_map(s.panes.panes).dom().contains(id) {
                        StateView { panes: PmModel { open: Some(id), ..s.panes }, ..s }
                    } else {
                        s
                    }
                },
                crate::action::PaneAction::Add(pane) => spec_add_pane(s, pane),
                crate::action::PaneAction::Replace(id, pane) => StateView {
                    panes: PmModel { panes: update_key(s.panes.panes, id, pane), ..s.panes },
                    ..s
                },
            },
            Seq::empty(),
        ),
        GenericActionView::Document(da) => match da {
            DocumentActionView::Add(h) => (
                StateView {
                    documents: ds_apply(s.documents, DocStoreOp::Add(h)),
                    ..s
                },
                seq![
                    EffectView::Emit(AppMessageView::AddedDocument(s.documents.next as u64)),
                ],
            ),
            DocumentActionView::Open(id) => (
                s,
                seq![
                    EffectView::Emit(
                        AppMessageView::Action(
                            GenericActionView::Pane(
                                crate::action::PaneAction::Add(Pane::Editor(id)),
                            ),
                        ),
                    ),
                ],
            ),
            DocumentActionView::Save(id) => (
                s,
                if s.documents.docs.dom().contains(id) {
                    seq![
                        EffectView::SaveDocument {
                            id,
                            path: s.documents.docs[id].path,
                            text: s.documents.docs[id].text_content,
                        },
                    ]
                } else {
                    Seq::empty()
                },
            ),
            DocumentActionView::Remove(id) => (
                StateView {
                    documents: ds_apply(s.documents, DocStoreOp::Remove(id)),
                    ..s
                },
                Seq::empty(),
            ),
        },
    }
}

impl App {
    /// Applies one generic action to the stores and returns the scheduled
    /// effects.
    pub fn perform_action(&mut self, action: &GenericAction) -> (effects: Vec<Effect>)
        requires
            old(self).wf(),
            old(self).state.documents.counter() < u64::MAX,
            old(self).state.panes.counter() < u64::MAX,
        ensures
            final(self).wf(),
            final(self).state@ == spec_perform(old(self).state@, action@).0,
            effs_view(effects@) == spec_perform(old(self).state@, action@).1,
            final(self).plugin_host == old(self).plugin_host,
            final(self).hotkeys == old(self).hotkeys,
            final(self).state.documents.counter() <= old(self).state.documents.counter() + 1,
            final(self).state.panes.counter() <= old(self).state.panes.counter() + 1,
    {
        let mut effects: Vec<Effect> = Vec::new();
        match action {
            GenericAction::File(f) => {
                match f {
                    FileAction::PickFile => {
                        effects.push(Effect::PickFile);
                        proof {
                            assert(effs_view(effects@) =~= seq![EffectView::PickFile]);
                        }
                    },
                    FileAction::OpenFileCurrentTab(p) => {
                        effects.push(Effect::OpenFile(p.clone()));
                        proof {
                            assert(effs_view(effects@) =~= seq![EffectView::OpenFile(p@)]);
                        }
                    },
                    FileAction::OpenFileForceCurrentTab(p) => {
                        effects.push(Effect::OpenFile(p.clone()));
                        proof {
                            assert(effs_view(effects@) =~= seq![EffectView::OpenFile(p@)]);
                        }
                    },
                    FileAction::OpenFileNewTab(p) => {
                        effects.push(Effect::OpenFile(p.clone()));
                        proof {
                            assert(effs_view(effects@) =~= seq![EffectView::OpenFile(p@)]);
                        }
                    },
                }
            },
            GenericAction::Pane(pa) => {
                let ps = Ghost(self.state.panes.model().panes);
                match pa {
                    crate::action::PaneAction::Close(id) => {
                        let pane = self.state.panes.remove(*id);
                        proof {
                            lemma_alist_dom(ps@, *id);
                            if alist_map(ps@).dom().contains(*id) {
                                let i = choose|i: int|
                                    0 <= i < ps@.len() && ps@[i].0 == *id
                                        && self.state.panes.model().panes == ps@.remove(i);
                                lemma_remove_key_at(ps@, i);
                            } else {
                                lemma_remove_key_absent(ps@, *id);
                            }
                        }
                        match pane {
                            Some(Pane::Editor(d)) => {
                                self.state.documents.remove(d);
                            },
                            _ => {},
                        }
                        if self.state.panes.count() == 0 {
                            let new_id = self.state.panes.add(Pane::NewDocument);
                            self.state.panes.open(new_id);
                            proof {
                                crate::alist::lemma_alist_push(
                                    remove_key(ps@, *id),
                                    (new_id, Pane::NewDocument),
                                );
                            }
                        }
                        proof {
                            assert(self.state@ == spec_close_pane(old(self).state@, *id));
                            assert(effs_view(effects@) =~= Seq::<EffectView>::empty());
                        }
                    },
                    crate::action::PaneAction::Open(id) => {
                        self.state.panes.open(*id);
                        proof {
                            assert(effs_view(effects@) =~= Seq::<EffectView>::empty());
                        }
                    },
                    crate::action::PaneAction::Add(pane) => {
                        let new_id = self.state.panes.add(*pane);
                        self.state.panes.open(new_id);
                        proof {
                            crate::alist::lemma_alist_push(ps@, (new_id, *pane));
                            assert(self.state@ == spec_add_pane(old(self).state@, *pane));
                            assert(effs_view(effects@) =~= Seq::<EffectView>::empty());
                        }
                    },
                    crate::action::PaneAction::Replace(id, pane) => {
                        self.state.panes.replace(*id, *pane);
                        proof {
                            if alist_map(ps@).dom().contains(*id) {
                                lemma_alist_dom(ps@, *id);
                                let i = choose|i: int| 0 <= i < ps@.len() && ps@[i].0 == *id;
                                lemma_update_key_at(ps@, i, *pane);
                                assert forall|k: int| 0 <= k < ps@.len() implies (
                                #[trigger] self.state.panes.model().panes[k]) == ps@.update(
                                    i,
                                    (*id, *pane),
                                )[k] by {
                                    if k != i {
                                        assert(ps@[k].0 != *id);
                                    }
                                }
                                assert(self.state.panes.model().panes =~= update_key(
                                    ps@,
                                    *id,
                                    *pane,
                                ));
                            } else {
                                lemma_alist_dom(ps@, *id);
                                lemma_update_key_absent(ps@, *id, *pane);
                                assert(self.state.panes.model().panes =~= update_key(
                                    ps@,
                                    *id,
                                    *pane,
                                ));
                            }
                            assert(effs_view(effects@) =~= Seq::<EffectView>::empty());
                        }
                    },
                }
            },
            GenericAction::Document(da) => {
                match da {
                    DocumentAction::Add(h) => {
                        let id = self.state.documents.add(h.clone());
                        effects.push(Effect::Emit(AppMessage::AddedDocument(id)));
                        proof {
                            assert(effs_view(effects@) =~= seq![
                                EffectView::Emit(AppMessageView::AddedDocument(id)),
                            ]);
                        }
                    },
                    DocumentAction::Open(id) => {
                        effects.push(
                            Effect::Emit(
                                AppMessage::Action(
                                    Action::new(
                                        GenericAction::Pane(
                                            crate::action::PaneAction::Add(Pane::Editor(*id)),
                                        ),
                                    ),
                                ),
                            ),
                        );
                        proof {
                            assert(effs_view(effects@) =~= spec_perform(
                                old(self).state@,
                                action@,
                            ).1);
                        }
                    },
                    DocumentAction::Save(id) => {
                        match self.state.documents.get(*id) {
                            Some(h) => {
                                let path = h.path.clone();
                                let text = h.text_content.clone();
                                effects.push(Effect::SaveDocument { id: *id, path, text });
                                proof {
                                    assert(effs_view(effects@) =~= spec_perform(
                                        old(self).state@,
                                        action@,
                                    ).1);
                                }
                            },
                            None => {
                                proof {
                                    assert(effs_view(effects@) =~= Seq::<EffectView>::empty());
                                }
                            },
                        }
                    },
                    DocumentAction::Remove(id) => {
                        self.state.documents.remove(*id);
                        proof {
                            assert(effs_view(effects@) =~= Seq::<EffectView>::empty());
                        }
                    },
                }
            },
        }
        effects
    }
}

// ---------------------------------------------------------------------
// The reducer, as a function from session and message to session and
// effects.
// ---------------------------------------------------------------------
/// States and accumulated effects after the first `j` actions of a list.
pub open spec fn run_actions_upto(
    s: StateView,
    gas: Seq<GenericActionView>,
    j: int,
) -> (StateView, Seq<EffectView>)
    decreases j,
{
    if j <= 0 {
        (s, Seq::empty())
    } else {
        let prev = run_actions_upto(s, gas, j - 1);
        let step = spec_perform(prev.0, gas[j - 1]);
        (step.0, prev.1 + step.1)
    }
}

/// State and effects after a whole action list, applied in order.
pub open spec fn spec_perform_all(s: StateView, gas: Seq<GenericActionView>) -> (
    StateView,
    Seq<EffectView>,
) {
    run_actions_upto(s, gas, gas.len() as int)
}

/// The plugin list with the load flag of every plugin under `id` set.
pub open spec fn set_loaded_view(
    rs: Seq<PluginRecordView>,
    id: Seq<char>,
    loaded: bool,
) -> Seq<PluginRecordView> {
    Seq::new(
        rs.len(),
        |i: int|
            if rs[i].info.id == id {
                PluginRecordView { loaded, ..rs[i] }
            } else {
                rs[i]
            },
    )
}

/// State after a successful open: a handler for the file under a fresh
/// document identifier; the content replaces a focused welcome pane in
/// place, and otherwise opens in a new focused editor pane.
pub open spec fn spec_opened_file(s: StateView, path: Seq<char>, content: Seq<char>) -> StateView {
    let h = DocView {
        text_content: content,
        path,
        filename: spec_display_name(path),
        changed: false,
    };
    let did = s.documents.next as u64;
    let docs1 = ds_apply(s.documents, DocStoreOp::Add(h));
    let focused_new = match s.panes.open {
        Some(pid) => alist_map(s.panes.panes).dom().contains(pid) && alist_map(s.panes.panes)[pid]
            == Pane::NewDocument,
        None => false,
    };
    if focused_new {
        StateView {
            documents: docs1,
            panes: PmModel {
                panes: update_key(s.panes.panes, s.panes.open->0, Pane::Editor(did)),
                ..s.panes
            },
            ..s
        }
    } else {
        StateView {
            documents: docs1,
            panes: PmModel {
                panes: s.panes.panes.push((s.panes.next as u64, Pane::Editor(did))),
                open: Some(s.panes.next as u64),
                next: s.panes.next + 1,
            },
            ..s
        }
    }
}

/// Session and effects after one message.
pub open spec fn spec_update(v: AppView, m: AppMessageView) -> (AppView, Seq<EffectView>) {
    match m {
        AppMessageView::Idle => (v, Seq::empty()),
        AppMessageView::Action(a) => {
            let gas = host_process(v.plugins, a);
            let r = spec_perform_all(v.state, gas);
            (AppView { state: r.0, ..v }, r.1)
        },
        AppMessageView::GenericAction(a) => {
            let r = spec_perform(v.state, a);
            (AppView { state: r.0, ..v }, r.1)
        },
        AppMessageView::AddTheme(id, body, meta) => (
            AppView {
                state: StateView {
                    themes: CatalogView {
                        themes: v.state.themes.themes.insert(
                            id,
                            ThemeEntryView { body, meta },
                        ),
                        active: v.state.themes.active,
                    },
                    ..v.state
                },
                ..v
            },
            Seq::empty(),
        ),
        AppMessageView::LoadTheme(id) => (
            if v.state.themes.themes.dom().contains(id) {
                AppView {
                    state: StateView {
                        themes: CatalogView { active: Some(id), ..v.state.themes },
                        ..v.state
                    },
                    ..v
                }
            } else {
                v
            },
            Seq::empty(),
        ),
        AppMessageView::AddedDocument(_) => (v, Seq::empty()),
        AppMessageView::SavedFile(id) => (
            AppView {
                state: StateView {
                    documents: DsModel {
                        docs: if v.state.documents.docs.dom().contains(id) {
                            v.state.documents.docs.insert(
                                id,
                                DocView { changed: false, ..v.state.documents.docs[id] },
                            )
                        } else {
                            v.state.documents.docs
                        },
                        next: v.state.documents.next,
                    },
                    ..v.state
                },
                ..v
            },
            Seq::empty(),
        ),
        AppMessageView::OnKeyPress(c, mods) => match spec_on_key(v, c, mods) {
            Some(msg) => (v, seq![EffectView::Emit(msg)]),
            None => (v, Seq::empty()),
        },
        AppMessageView::LoadPlugin(id, load) => (
            AppView { plugins: set_loaded_view(v.plugins, id, load), ..v },
            Seq::empty(),
        ),
        AppMessageView::TextEditorAction(a, id) => (
            AppView {
                state: StateView {
                    documents: DsModel {
                        docs: if v.state.documents.docs.dom().contains(id) {
                            v.state.documents.docs.insert(
                                id,
                                DocView {
                                    text_content: spec_apply(
                                        a,
                                        v.state.documents.docs[id].text_content,
                                    ),
                                    changed: v.state.documents.docs[id].changed || spec_is_edit(a),
                                    ..v.state.documents.docs[id]
                                },
                            )
                        } else {
                            v.state.documents.docs
                        },
                        next: v.state.documents.next,
                    },
                    ..v.state
                },
                ..v
            },
            Seq::empty(),
        ),
        AppMessageView::OpenedFile(r) => match r {
            Ok((path, content)) => (
                AppView { state: spec_opened_file(v.state, path, content), ..v },
                Seq::empty(),
            ),
            Err(()) => (v, Seq::empty()),
        },
        AppMessageView::OpenDirectory(p) => (v, seq![EffectView::ResolveDirectory(p)]),
        AppMessageView::ResolvedDirectory(r) => match r {
            Some(canon) => (
                AppView {
                    state: StateView {
                        config: spec_insert(
                            v.state.config,
                            "system"@,
                            "workdir"@,
                            crate::value::ValueView::Text(canon),
                        ),
                        ..v.state
                    },
                    ..v
                },
                Seq::empty(),
            ),
            None => (v, Seq::empty()),
        },
    }
}

/// How many fresh identifiers one message may consume from each
/// allocator.
pub open spec fn spec_budget(v: AppView, m: AppMessageView) -> int {
    match m {
        AppMessageView::Action(a) => host_process(v.plugins, a).len() as int,
        AppMessageView::GenericAction(_) => 1,
        AppMessageView::OpenedFile(_) => 1,
        _ => 0,
    }
}

impl App {
    /// The single reducer: converts one message into store mutations and
    /// scheduled effects.  `Action` messages pass through the plugin host
    /// first; the resulting generic actions apply in list order.
    pub fn update(&mut self, message: AppMessage) -> (effects: Vec<Effect>)
        requires
            old(self).wf(),
            old(self).state.documents.counter() + spec_budget(old(self)@, message@)
                <= u64::MAX,
            old(self).state.panes.counter() + spec_budget(old(self)@, message@) <= u64::MAX,
        ensures
            final(self).wf(),
            final(self)@ == spec_update(old(self)@, message@).0,
            effs_view(effects@) == spec_update(old(self)@, message@).1,
    {
        match message {
            AppMessage::Idle => {
                let effects: Vec<Effect> = Vec::new();
                proof {
                    assert(effs_view(effects@) =~= Seq::<EffectView>::empty());
                }
                effects
            },
            AppMessage::Action(action) => {
                let av = Ghost(action@);
                let gas = self.plugin_host.process_action(&action);
                let gv = Ghost(crate::plugin::gas_view(gas@));
                proof {
                    assert(gv@ == host_process(old(self)@.plugins, av@));
                }
                let mut effects: Vec<Effect> = Vec::new();
                let n = gas.len();
                proof {
                    assert(effs_view(effects@) =~= Seq::<EffectView>::empty());
                }
                for j in 0..n
                    invariant
                        n == gas@.len(),
                        gv@ == crate::plugin::gas_view(gas@),
                        gv@.len() == n,
                        self.wf(),
                        self.plugin_host == old(self).plugin_host,
                        self.hotkeys == old(self).hotkeys,
                        old(self).state.documents.counter() + n <= u64::MAX,
                        old(self).state.panes.counter() + n <= u64::MAX,
                        self.state.documents.counter() <= old(self).state.documents.counter()
                            + j,
                        self.state.panes.counter() <= old(self).state.panes.counter() + j,
                        self.state@ == run_actions_upto(old(self).state@, gv@, j as int).0,
                        effs_view(effects@) == run_actions_upto(old(self).state@, gv@, j as int).1,
                {
                    let mut step = self.perform_action(&gas[j]);
                    proof {
                        assert(gv@[j as int] == gas@[j as int]@);
                    }
                    let pre = Ghost(effs_view(effects@));
                    let sv = Ghost(effs_view(step@));
                    effects.append(&mut step);
                    proof {
                        assert(effs_view(effects@) =~= pre@ + sv@);
                    }
                }
                proof {
                    assert(spec_perform_all(old(self).state@, gv@) == run_actions_upto(
                        old(self).state@,
                        gv@,
                        n as int,
                    ));
                }
                effects
            },
            AppMessage::GenericAction(a) => {
                let effects = self.perform_action(&a);
                effects
            },
            AppMessage::AddTheme(id, body, meta) => {
                self.state.themes.insert(id.as_str(), body, meta);
                let effects: Vec<Effect> = Vec::new();
                proof {
                    assert(effs_view(effects@) =~= Seq::<EffectView>::empty());
                }
                effects
            },
            AppMessage::LoadTheme(id) => {
                self.state.themes.set_active(id.as_str());
                let effects: Vec<Effect> = Vec::new();
                proof {
                    assert(effs_view(effects@) =~= Seq::<EffectView>::empty());
                }
                effects
            },
            AppMessage::AddedDocument(_) => {
                let effects: Vec<Effect> = Vec::new();
                proof {
                    assert(effs_view(effects@) =~= Seq::<EffectView>::empty());
                }
                effects
            },
            AppMessage::SavedFile(id) => {
                self.state.documents.set_changed(id, false);
                let effects: Vec<Effect> = Vec::new();
                proof {
                    assert(effs_view(effects@) =~= Seq::<EffectView>::empty());
                }
                effects
            },
            AppMessage::OnKeyPress(c, mods) => {
                match self.on_key_press(c, mods) {
                    Some(m) => {
                        let mut effects: Vec<Effect> = Vec::new();
                        effects.push(Effect::Emit(m));
                        proof {
                            assert(effs_view(effects@) =~= spec_update(
                                old(self)@,
                                AppMessageView::OnKeyPress(c, mods),
                            ).1);
                        }
                        effects
                    },
                    None => {
                        let effects: Vec<Effect> = Vec::new();
                        proof {
                            assert(effs_view(effects@) =~= Seq::<EffectView>::empty());
                        }
                        effects
                    },
                }
            },
            AppMessage::LoadPlugin(id, load) => {
                if load {
                    self.plugin_host.load_plugin(id.as_str());
                } else {
                    self.plugin_host.unload_plugin(id.as_str());
                }
                proof {
                    assert(self.plugin_host@ =~= set_loaded_view(
                        old(self).plugin_host@,
                        id@,
                        load,
                    ));
                }
                let effects: Vec<Effect> = Vec::new();
                proof {
                    assert(effs_view(effects@) =~= Seq::<EffectView>::empty());
                }
                effects
            },
            AppMessage::TextEditorAction(a, id) => {
                let text_opt = match self.state.documents.get(id) {
                    Some(h) => Some(h.text_content.clone()),
                    None => None,
                };
                match text_opt {
                    Some(text) => {
                        let docs0 = Ghost(self.state.documents.doc_map());
                        let new_text = crate::editor::apply_action(&a, text.as_str());
                        if a.is_edit() {
                            self.state.documents.set_changed(id, true);
                        }
                        self.state.documents.set_text(id, new_text);
                        proof {
                            assert(self.state.documents.doc_map() =~= docs0@.insert(
                                id,
                                DocView {
                                    text_content: spec_apply(a@, docs0@[id].text_content),
                                    changed: docs0@[id].changed || spec_is_edit(a@),
                                    ..docs0@[id]
                                },
                            ));
                        }
                    },
                    None => {},
                }
                let effects: Vec<Effect> = Vec::new();
                proof {
                    assert(effs_view(effects@) =~= Seq::<EffectView>::empty());
                }
                effects
            },
            AppMessage::OpenedFile(result) => {
                match result {
                    Ok((path, content)) => {
                        let pv = Ghost(path@);
                        let cv = Ghost(content@);
                        let filename = file_name_of(path.as_str());
                        let handler = DocumentHandler {
                            text_content: content,
                            path,
                            filename,
                            changed: false,
                        };
                        let hv = Ghost(handler@);
                        proof {
                            assert(hv@ == (DocView {
                                text_content: cv@,
                                path: pv@,
                                filename: spec_display_name(pv@),
                                changed: false,
                            }));
                        }
                        let ps = Ghost(self.state.panes.model().panes);
                        let doc_id = self.state.documents.add(handler);
                        let placed = match self.state.panes.get_open_id() {
                            Some(pid) => {
                                match self.state.panes.get(pid) {
                                    Some(Pane::NewDocument) => {
                                        self.state.panes.replace(pid, Pane::Editor(doc_id));
                                        proof {
                                            lemma_alist_dom(ps@, pid);
                                            let i = choose|i: int|
                                                0 <= i < ps@.len() && ps@[i].0 == pid;
                                            lemma_update_key_at(ps@, i, Pane::Editor(doc_id));
                                            assert forall|k: int|
                                                0 <= k < ps@.len() implies (
                                            #[trigger] self.state.panes.model().panes[k])
                                                == ps@.update(i, (pid, Pane::Editor(doc_id)))[k] by {
                                                if k != i {
                                                    assert(ps@[k].0 != pid);
                                                }
                                            }
                                            assert(self.state.panes.model().panes =~= update_key(
                                                ps@,
                                                pid,
                                                Pane::Editor(doc_id),
                                            ));
                                        }
                                        true
                                    },
                                    _ => false,
                                }
                            },
                            None => false,
                        };
                        if !placed {
                            let pid = self.state.panes.add(Pane::Editor(doc_id));
                            self.state.panes.open(pid);
                            proof {
                                crate::alist::lemma_alist_push(ps@, (pid, Pane::Editor(doc_id)));
                            }
                        }
                        proof {
                            assert(self.state@ == spec_opened_file(old(self).state@, pv@, cv@));
                        }
                    },
                    Err(()) => {},
                }
                let effects: Vec<Effect> = Vec::new();
                proof {
                    assert(effs_view(effects@) =~= Seq::<EffectView>::empty());
                }
                effects
            },
            AppMessage::OpenDirectory(p) => {
                let pv = Ghost(p@);
                let mut effects: Vec<Effect> = Vec::new();
                effects.push(Effect::ResolveDirectory(p));
                proof {
                    assert(effs_view(effects@) =~= seq![EffectView::ResolveDirectory(pv@)]);
                }
                effects
            },
            AppMessage::ResolvedDirectory(r) => {
                match r {
                    Some(canon) => {
                        self.state.config.insert(
                            "system",
                            "workdir",
                            crate::value::Value::Text(canon),
                        );
                    },
                    None => {},
                }
                let effects: Vec<Effect> = Vec::new();
                proof {
                    assert(effs_view(effects@) =~= Seq::<EffectView>::empty());
                }
                effects
            },
        }
    }
}

// ---------------------------------------------------------------------
// Construction and the read model.
// ---------------------------------------------------------------------
/// The one plugin registered at startup.
pub open spec fn spec_initial_plugins() -> Seq<PluginRecordView> {
    seq![
        PluginRecordView {
            info: PluginInfoView {
                name: "ExamplePlugin"@,
                id: "core.example"@,
                author: "krozzzis"@,
                version: "1.0"@,
                description: "An example plugin that do nothing useful)"@,
            },
            loaded: false,
            behavior: PluginBehaviorView::Passive,
        },
    ]
}

/// The default chord bindings.
pub open spec fn spec_default_hotkeys() -> Map<HotKey, HotkeyIntentView> {
    Map::empty().insert(
        HotKey { modifiers: Modifiers::Ctrl, key: 'o' },
        HotkeyIntentView::Dispatch(GenericActionView::File(FileActionView::PickFile)),
    ).insert(
        HotKey { modifiers: Modifiers::Ctrl, key: 'd' },
        HotkeyIntentView::LoadTheme("core.dark"@),
    ).insert(
        HotKey { modifiers: Modifiers::Ctrl, key: 't' },
        HotkeyIntentView::Dispatch(
            GenericActionView::Pane(crate::action::PaneAction::Add(Pane::NewDocument)),
        ),
    ).insert(
        HotKey { modifiers: Modifiers::Ctrl, key: 'w' },
        HotkeyIntentView::CloseFocusedPane,
    ).insert(
        HotKey { modifiers: Modifiers::Ctrl, key: 'b' },
        HotkeyIntentView::Dispatch(
            GenericActionView::Pane(crate::action::PaneAction::Add(Pane::Buffer)),
        ),
    ).insert(
        HotKey { modifiers: Modifiers::Ctrl, key: ',' },
        HotkeyIntentView::Dispatch(
            GenericActionView::Pane(crate::action::PaneAction::Add(Pane::Config)),
        ),
    )
}

/// One plugin-loading message per registered plugin, in order.
pub open spec fn load_plugin_effects(rs: Seq<PluginRecordView>) -> Seq<EffectView> {
    Seq::new(rs.len(), |i: int| EffectView::Emit(AppMessageView::LoadPlugin(rs[i].info.id, true)))
}

/// The theme chosen at startup: the configured one, else the default.
pub open spec fn spec_initial_theme(c: ConfigMap) -> Seq<char> {
    match spec_get(c, "system"@, "theme"@) {
        Some(crate::value::ValueView::Text(id)) => id,
        _ => "core.light"@,
    }
}

/// The startup effects: load each plugin, discover themes, then apply the
/// chosen theme.
pub open spec fn spec_initial_effects(c: ConfigMap) -> Seq<EffectView> {
    load_plugin_effects(spec_initial_plugins()) + seq![
        EffectView::LoadThemes,
        EffectView::Emit(AppMessageView::LoadTheme(spec_initial_theme(c))),
    ]
}

/// Document metadata shown beside an editor pane.
#[derive(Debug)]
pub struct DocMeta {
    pub filename: String,
    pub changed: bool,
}

/// One pane as the view layer sees it.
#[derive(Debug)]
pub struct PaneSlot {
    pub id: PaneId,
    pub pane: Pane,
    pub focused: bool,
    pub document: Option<DocMeta>,
}

/// The read model handed to the view layer each frame.
#[derive(Debug)]
pub struct ViewModel {
    pub slots: Vec<PaneSlot>,
    pub theme: String,
}

/// The theme the session currently serves: the active catalog entry if
/// one was loaded, else the configured one, else the default.
pub open spec fn spec_theme(v: AppView) -> Seq<char> {
    match v.state.themes.active {
        Some(id) => id,
        None => spec_initial_theme(v.state.config),
    }
}

impl App {
    /// A fresh session: empty stores, the example plugin registered, the
    /// default bindings, one focused welcome pane, and the startup
    /// effects.
    pub fn new(config: Config) -> (r: (App, Vec<Effect>))
        requires
            config.wf(),
        ensures
            r.0.wf(),
            r.0@.state.documents == (DsModel { docs: Map::<u64, DocView>::empty(), next: 1int }),
            r.0@.state.panes == (PmModel {
                panes: seq![(1u64, Pane::NewDocument)],
                open: Some(1u64),
                next: 2int,
            }),
            r.0@.state.config == config@,
            r.0@.state.themes == (CatalogView {
                themes: Map::<Seq<char>, ThemeEntryView>::empty(),
                active: None::<Seq<char>>,
            }),
            r.0@.plugins == spec_initial_plugins(),
            r.0@.hotkeys == spec_default_hotkeys(),
            effs_view(r.1@) == spec_initial_effects(config@),
    {
        let mut plugin_host = PluginHost::new();
        let info = PluginInfo::new().name("ExamplePlugin").id("core.example").author(
            "krozzzis",
        ).version("1.0").description("An example plugin that do nothing useful)");
        plugin_host.register_plugin(info, PluginBehavior::Passive);
        proof {
            assert(plugin_host@ =~= spec_initial_plugins());
        }
        let mut panes = PaneModel::new();
        let first_pane = panes.add(Pane::NewDocument);
        proof {
            crate::alist::lemma_alist_push(Seq::<(u64, Pane)>::empty(), (1u64, Pane::NewDocument));
        }
        panes.open(first_pane);
        proof {
            assert(panes.model().panes =~= seq![(1u64, Pane::NewDocument)]);
        }
        let state = State {
            documents: DocumentStore::new(),
            panes,
            config,
            themes: Catalog::new(),
        };
        let mut app = App { state, plugin_host, hotkeys: HotkeyRegistry { binds: Vec::new() } };
        proof {
            assert(app.hotkey_seq() =~= Seq::<(HotKey, HotkeyIntentView)>::empty());
            assert(app.hotkey_map() =~= Map::<HotKey, HotkeyIntentView>::empty());
        }
        app.add_hotkey(
            HotKey { modifiers: Modifiers::Ctrl, key: 'o' },
            HotkeyIntent::Dispatch(GenericAction::File(FileAction::PickFile)),
        );
        app.add_hotkey(
            HotKey { modifiers: Modifiers::Ctrl, key: 'd' },
            HotkeyIntent::LoadTheme("core.dark".to_owned()),
        );
        app.add_hotkey(
            HotKey { modifiers: Modifiers::Ctrl, key: 't' },
            HotkeyIntent::Dispatch(
                GenericAction::Pane(crate::action::PaneAction::Add(Pane::NewDocument)),
            ),
        );
        app.add_hotkey(
            HotKey { modifiers: Modifiers::Ctrl, key: 'w' },
            HotkeyIntent::CloseFocusedPane,
        );
        app.add_hotkey(
            HotKey { modifiers: Modifiers::Ctrl, key: 'b' },
            HotkeyIntent::Dispatch(
                GenericAction::Pane(crate::action::PaneAction::Add(Pane::Buffer)),
            ),
        );
        app.add_hotkey(
            HotKey { modifiers: Modifiers::Ctrl, key: ',' },
            HotkeyIntent::Dispatch(
                GenericAction::Pane(crate::action::PaneAction::Add(Pane::Config)),
            ),
        );
        proof {
            assert(app.hotkey_map() == spec_default_hotkeys());
        }
        let mut effects: Vec<Effect> = Vec::new();
        let ids = app.plugin_host.get_plugin_ids();
        let n = ids.len();
        proof {
            assert(effs_view(effects@) =~= load_plugin_effects(app.plugin_host@).take(0));
        }
        for i in 0..n
            invariant
                n == ids@.len(),
                n == app.plugin_host@.len(),
                forall|k: int|
                    0 <= k < n ==> (#[trigger] ids@[k])@ == app.plugin_host@[k].info.id,
                effs_view(effects@) == load_plugin_effects(app.plugin_host@).take(i as int),
        {
            let msg = AppMessage::LoadPlugin(ids[i].clone(), true);
            let mv = Ghost(msg@);
            let pre = Ghost(effects@);
            effects.push(Effect::Emit(msg));
            proof {
                let le = load_plugin_effects(app.plugin_host@);
                assert(mv@ == AppMessageView::LoadPlugin(app.plugin_host@[i as int].info.id, true));
                assert(effs_view(pre@) == le.take(i as int));
                assert(effs_view(pre@).len() == pre@.len());
                assert(pre@.len() == i);
                assert(effects@.len() == i + 1);
                assert forall|k: int| 0 <= k < i implies effs_view(effects@)[k] == le.take(
                    i + 1,
                )[k] by {
                    assert(effects@[k] == pre@[k]);
                    assert(effs_view(pre@)[k] == le.take(i as int)[k]);
                }
                assert(effects@.last()@ == le[i as int]);
                assert(effs_view(effects@) =~= le.take(i + 1));
            }
        }
        effects.push(Effect::LoadThemes);
        let theme_id = match app.state.config.get("system", "theme") {
            Some(crate::value::Value::Text(t)) => t,
            _ => "core.light".to_owned(),
        };
        effects.push(Effect::Emit(AppMessage::LoadTheme(theme_id)));
        proof {
            assert(load_plugin_effects(app.plugin_host@).take(n as int) =~= load_plugin_effects(
                app.plugin_host@,
            ));
            assert(effs_view(effects@) =~= spec_initial_effects(app.state.config@));
        }
        (app, effects)
    }

    /// The window title.
    pub fn title(&self) -> (t: String)
        ensures
            t@ == "Strelka"@,
    {
        "Strelka".to_owned()
    }

    /// The identifier of the theme the session currently serves.
    pub fn theme(&self) -> (id: String)
        requires
            self.wf(),
        ensures
            id@ == spec_theme(self@),
    {
        match self.state.themes.active_id() {
            Some(id) => id.clone(),
            None => match self.state.config.get("system", "theme") {
                Some(crate::value::Value::Text(t)) => t,
                _ => "core.light".to_owned(),
            },
        }
    }

    /// The read model: every pane in order with its focus flag and, for
    /// editor panes, the document's display metadata; and the current
    /// theme.
    pub fn view_model(&self) -> (vm: ViewModel)
        requires
            self.wf(),
        ensures
            vm.slots@.len() == self@.state.panes.panes.len(),
            forall|i: int|
                0 <= i < vm.slots@.len() ==> {
                    let slot = #[trigger] vm.slots@[i];
                    &&& slot.id == self@.state.panes.panes[i].0
                    &&& slot.pane == self@.state.panes.panes[i].1
                    &&& slot.focused == (self@.state.panes.open == Some(
                        self@.state.panes.panes[i].0,
                    ))
                    &&& match self@.state.panes.panes[i].1 {
                        Pane::Editor(d) => {
                            if self@.state.documents.docs.dom().contains(d) {
                                match slot.document {
                                    Some(m) => m.filename@ == self@.state.documents.docs[d].filename
                                        && m.changed == self@.state.documents.docs[d].changed,
                                    None => false,
                                }
                            } else {
                                slot.document is None
                            }
                        },
                        _ => slot.document is None,
                    }
                },
            vm.theme@ == spec_theme(self@),
    {
        let mut slots: Vec<PaneSlot> = Vec::new();
        let n = self.state.panes.entries.len();
        for i in 0..n
            invariant
                self.wf(),
                n == self.state.panes.entries@.len(),
                slots@.len() == i,
                forall|k: int|
                    0 <= k < i ==> {
                        let slot = #[trigger] slots@[k];
                        &&& slot.id == self@.state.panes.panes[k].0
                        &&& slot.pane == self@.state.panes.panes[k].1
                        &&& slot.focused == (self@.state.panes.open == Some(
                            self@.state.panes.panes[k].0,
                        ))
                        &&& match self@.state.panes.panes[k].1 {
                            Pane::Editor(d) => {
                                if self@.state.documents.docs.dom().contains(d) {
                                    match slot.document {
                                        Some(m) => m.filename@
                                            == self@.state.documents.docs[d].filename && m.changed
                                            == self@.state.documents.docs[d].changed,
                                        None => false,
                                    }
                                } else {
                                    slot.document is None
                                }
                            },
                            _ => slot.document is None,
                        }
                    },
        {
            let id = self.state.panes.entries[i].0;
            let pane = self.state.panes.entries[i].1;
            let focused = match self.state.panes.get_open_id() {
                Some(o) => o == id,
                None => false,
            };
            let document = match pane {
                Pane::Editor(d) => match self.state.documents.get(d) {
                    Some(h) => Some(
                        DocMeta { filename: h.filename.clone(), changed: h.changed },
                    ),
                    None => None,
                },
                _ => None,
            };
            slots.push(PaneSlot { id, pane, focused, document });
        }
        ViewModel { slots, theme: self.theme() }
    }
}

// ---------------------------------------------------------------------
// Laws of the reducer.
// ---------------------------------------------------------------------
/// Closing an editor pane removes its document: after
/// `PaneAction::Close(id)` on a pane holding `Editor(d)`, the store no
/// longer answers for `d`.
pub proof fn lemma_close_removes_document(s: StateView, id: u64, d: u64)
    requires
        alist_map(s.panes.panes).dom().contains(id),
        alist_map(s.panes.panes)[id] == Pane::Editor(d),
    ensures
        !spec_close_pane(s, id).documents.docs.dom().contains(d),
{
}

/// An editing action dirties a document and a motion does not: a non-edit
/// action on a clean document leaves it clean, and an edit action always
/// marks it changed.
pub proof fn lemma_edit_sets_dirty(v: AppView, a: EditorActionView, id: u64)
    requires
        v.state.documents.docs.dom().contains(id),
    ensures
        ({
            let after = spec_update(v, AppMessageView::TextEditorAction(a, id)).0;
            &&& (!spec_is_edit(a) && !v.state.documents.docs[id].changed)
                ==> !after.state.documents.docs[id].changed
            &&& spec_is_edit(a) ==> after.state.documents.docs[id].changed
        }),
{
}

/// A save completion clears the dirty flag exactly when the document is
/// still present, and changes nothing else; on an unknown identifier the
/// whole session is untouched.
pub proof fn lemma_saved_clears_dirty(v: AppView, id: u64)
    ensures
        v.state.documents.docs.dom().contains(id) ==> {
            let after = spec_update(v, AppMessageView::SavedFile(id)).0;
            &&& !after.state.documents.docs[id].changed
            &&& after.state.documents.docs.dom() == v.state.documents.docs.dom()
        },
        !v.state.documents.docs.dom().contains(id) ==> spec_update(
            v,
            AppMessageView::SavedFile(id),
        ).0 == v,
{
    if v.state.documents.docs.dom().contains(id) {
        assert(spec_update(v, AppMessageView::SavedFile(id)).0.state.documents.docs.dom()
            =~= v.state.documents.docs.dom());
    } else {
        assert(spec_update(v, AppMessageView::SavedFile(id)).0.state.documents =~~= v
            .state.documents);
        assert(spec_update(v, AppMessageView::SavedFile(id)).0.state =~~= v.state);
        assert(spec_update(v, AppMessageView::SavedFile(id)).0 =~~= v);
    }
}

} // verus!
