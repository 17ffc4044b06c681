//! The theme catalog: discovered themes by identifier, each with its file
//! body and metadata, and the currently active identifier.  Discovery
//! itself (enumerating the theme directory) is the event loop's work; the
//! catalog only stores what arrives.

use vstd::prelude::*;

use crate::alist::{alist_map, lemma_alist_at, lemma_alist_dom, lemma_alist_push,
    lemma_alist_update, wf_alist};
use crate::text::str_eq;

verus! {

/// Metadata of one theme.
#[derive(Debug)]
pub struct ThemeMetadata {
    pub id: String,
    pub name: String,
}

/// Mathematical image of theme metadata.
pub struct ThemeMetadataView {
    pub id: Seq<char>,
    pub name: Seq<char>,
}

impl View for ThemeMetadata {
    type V = ThemeMetadataView;

    open spec fn view(&self) -> ThemeMetadataView {
        ThemeMetadataView { id: self.id@, name: self.name@ }
    }
}

impl Clone for ThemeMetadata {
    fn clone(&self) -> (r: Self)
        ensures
            r@ == self@,
    {
        ThemeMetadata { id: self.id.clone(), name: self.name.clone() }
    }
}

/// One catalog entry: the theme body as read from its file, and its
/// metadata.
pub struct ThemeEntryView {
    pub body: Seq<char>,
    pub meta: ThemeMetadataView,
}

struct CatalogEntry {
    id: String,
    body: String,
    meta: ThemeMetadata,
}

/// Mathematical image of the catalog: the themes by identifier, and the
/// active identifier.
pub struct CatalogView {
    pub themes: Map<Seq<char>, ThemeEntryView>,
    pub active: Option<Seq<char>>,
}

/// The registry of available themes.
pub struct Catalog {
    entries: Vec<CatalogEntry>,
    active: Option<String>,
}

impl Catalog {
    spec fn entry_seq(&self) -> Seq<(Seq<char>, ThemeEntryView)> {
        self.entries@.map_values(
            |e: CatalogEntry| (e.id@, ThemeEntryView { body: e.body@, meta: e.meta@ }),
        )
    }

    /// Identifiers are pairwise distinct.
    pub closed spec fn wf(&self) -> bool {
        wf_alist(self.entry_seq())
    }
}

impl View for Catalog {
    type V = CatalogView;

    closed spec fn view(&self) -> CatalogView {
        CatalogView {
            themes: alist_map(self.entry_seq()),
            active: match self.active {
                Some(ref id) => Some(id@),
                None => None,
            },
        }
    }
}

impl Catalog {
    /// An empty catalog with no active theme.
    pub fn new() -> (c: Catalog)
        ensures
            c.wf(),
            c@ == (CatalogView {
                themes: Map::<Seq<char>, ThemeEntryView>::empty(),
                active: None::<Seq<char>>,
            }),
    {
        let c = Catalog { entries: Vec::new(), active: None };
        proof {
            assert(c.entry_seq() =~= Seq::<(Seq<char>, ThemeEntryView)>::empty());
            assert(c@.themes =~= Map::<Seq<char>, ThemeEntryView>::empty());
        }
        c
    }

    fn find(&self, id: &str) -> (r: Option<usize>)
        ensures
            match r {
                Some(i) => i < self.entry_seq().len() && self.entry_seq()[i as int].0 == id@,
                None => forall|k: int|
                    0 <= k < self.entry_seq().len() ==> (#[trigger] self.entry_seq()[k]).0 != id@,
            },
    {
        let n = self.entries.len();
        for i in 0..n
            invariant
                n == self.entries@.len(),
                forall|k: int| 0 <= k < i ==> (#[trigger] self.entry_seq()[k]).0 != id@,
        {
            if str_eq(self.entries[i].id.as_str(), id) {
                return Some(i);
            }
        }
        None
    }

    /// Stores one theme, overwriting an entry under the same identifier.
    /// The active identifier does not move.
    pub fn insert(&mut self, id: &str, body: String, meta: ThemeMetadata)
        requires
            old(self).wf(),
        ensures
            final(self).wf(),
            final(self)@ == (CatalogView {
                themes: old(self)@.themes.insert(
                    id@,
                    ThemeEntryView { body: body@, meta: meta@ },
                ),
                active: old(self)@.active,
            }),
    {
        let es = Ghost(self.entry_seq());
        let entry = Ghost(ThemeEntryView { body: body@, meta: meta@ });
        match self.find(id) {
            Some(i) => {
                let mut e = self.entries.remove(i);
                e.body = body;
                e.meta = meta;
                self.entries.insert(i, e);
                proof {
                    assert(self.entry_seq() =~= es@.update(i as int, (id@, entry@)));
                    lemma_alist_update(es@, i as int, (id@, entry@));
                    assert(forall|k: int|
                        0 <= k < self.entry_seq().len() ==> (#[trigger] self.entry_seq()[k]).0
                            == es@[k].0);
                }
            },
            None => {
                let e = CatalogEntry { id: id.to_owned(), body, meta };
                self.entries.push(e);
                proof {
                    assert(self.entry_seq() =~= es@.push((id@, entry@)));
                    lemma_alist_push(es@, (id@, entry@));
                    lemma_alist_dom(es@, id@);
                    assert(forall|a: int, b: int|
                        0 <= a < b < self.entry_seq().len() ==> (#[trigger] self.entry_seq()[a]).0
                            != (#[trigger] self.entry_seq()[b]).0);
                }
            },
        }
    }

    /// The body of one theme, by identifier.
    pub fn get_body(&self, id: &str) -> (r: Option<&String>)
        requires
            self.wf(),
        ensures
            r is Some <==> self@.themes.dom().contains(id@),
            r matches Some(b) ==> self@.themes[id@].body == b@,
    {
        let es = Ghost(self.entry_seq());
        match self.find(id) {
            Some(i) => {
                proof {
                    lemma_alist_at(es@, i as int);
                }
                Some(&self.entries[i].body)
            },
            None => {
                proof {
                    lemma_alist_dom(es@, id@);
                }
                None
            },
        }
    }

    /// Makes a known theme the active one; an unknown identifier is a
    /// no-op.  Answers whether the theme was known.
    pub fn set_active(&mut self, id: &str) -> (found: bool)
        requires
            old(self).wf(),
        ensures
            final(self).wf(),
            found <==> old(self)@.themes.dom().contains(id@),
            final(self)@ == if old(self)@.themes.dom().contains(id@) {
                CatalogView { active: Some(id@), ..old(self)@ }
            } else {
                old(self)@
            },
    {
        let es = Ghost(self.entry_seq());
        match self.find(id) {
            Some(i) => {
                proof {
                    lemma_alist_at(es@, i as int);
                }
                self.active = Some(id.to_owned());
                true
            },
            None => {
                proof {
                    lemma_alist_dom(es@, id@);
                }
                false
            },
        }
    }

    /// The active identifier, if one was set.
    pub fn active_id(&self) -> (r: Option<&String>)
        ensures
            match r {
                Some(id) => self@.active == Some(id@),
                None => self@.active is None,
            },
    {
        match &self.active {
            Some(id) => Some(id),
            None => None,
        }
    }
}

} // verus!
