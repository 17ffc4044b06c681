//! Keyboard chords and the intents they are bound to.  A chord is a
//! modifier set and a character; lookup is exact.  Bindings carry a tagged
//! intent rather than a closure; the session resolves an intent against
//! its state when the chord arrives.

use vstd::prelude::*;

use crate::action::{GenericAction, GenericActionView};

verus! {

/// The modifier set of a chord.  Control and alt held together fold into
/// `CtrlAlt`.
#[derive(Clone, Copy, PartialEq, Eq, Structural, Debug)]
pub enum Modifiers {
    /// No modifier held.
    Plain,
    Ctrl,
    Alt,
    CtrlAlt,
}

/// A keyboard chord.  Equality is structural; chords key the binding
/// registry.
#[derive(Clone, Copy, PartialEq, Eq, Structural, Debug)]
pub struct HotKey {
    pub modifiers: Modifiers,
    pub key: char,
}

/// The raw modifier flags delivered by the windowing layer.
#[derive(Clone, Copy, PartialEq, Eq, Structural, Debug)]
pub struct KeyMods {
    pub ctrl: bool,
    pub alt: bool,
}

/// The modifier set a raw flag pair normalizes to.
pub open spec fn spec_normalize(mods: KeyMods) -> Modifiers {
    if mods.ctrl && mods.alt {
        Modifiers::CtrlAlt
    } else if mods.ctrl {
        Modifiers::Ctrl
    } else if mods.alt {
        Modifiers::Alt
    } else {
        Modifiers::Plain
    }
}

/// Folds raw modifier flags into the modifier set.
pub fn normalize(mods: KeyMods) -> (m: Modifiers)
    ensures
        m == spec_normalize(mods),
{
    if mods.ctrl && mods.alt {
        Modifiers::CtrlAlt
    } else if mods.ctrl {
        Modifiers::Ctrl
    } else if mods.alt {
        Modifiers::Alt
    } else {
        Modifiers::Plain
    }
}

/// What a binding does when its chord arrives.
#[derive(Debug)]
pub enum HotkeyIntent {
    /// Send an action through the plugin pipeline.
    Dispatch(GenericAction),
    /// Load a theme by identifier.
    LoadTheme(String),
    /// Close the focused pane, if one is focused.
    CloseFocusedPane,
}

/// Mathematical image of an intent.
pub enum HotkeyIntentView {
    Dispatch(GenericActionView),
    LoadTheme(Seq<char>),
    CloseFocusedPane,
}

impl View for HotkeyIntent {
    type V = HotkeyIntentView;

    open spec fn view(&self) -> HotkeyIntentView {
        match self {
            HotkeyIntent::Dispatch(a) => HotkeyIntentView::Dispatch(a@),
            HotkeyIntent::LoadTheme(id) => HotkeyIntentView::LoadTheme(id@),
            HotkeyIntent::CloseFocusedPane => HotkeyIntentView::CloseFocusedPane,
        }
    }
}

impl Clone for HotkeyIntent {
    fn clone(&self) -> (r: Self)
        ensures
            r@ == self@,
    {
        match self {
            HotkeyIntent::Dispatch(a) => HotkeyIntent::Dispatch(a.clone()),
            HotkeyIntent::LoadTheme(id) => HotkeyIntent::LoadTheme(id.clone()),
            HotkeyIntent::CloseFocusedPane => HotkeyIntent::CloseFocusedPane,
        }
    }
}

} // verus!
