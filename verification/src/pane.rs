//! Visual panes: an ordered collection of slots, at most one of which is
//! focused.  Identifiers are allocated monotonically, beginning at 1, and
//! are distinct from document identifiers.

use vstd::prelude::*;

use crate::alist::{alist_map, lemma_alist_at, lemma_alist_dom, lemma_alist_len,
    lemma_alist_push, lemma_alist_remove, lemma_alist_update, wf_alist};
use crate::{DocumentId, PaneId};

verus! {

/// What one visual slot shows.  Further variants may be added without
/// affecting the existing contracts.
#[derive(Clone, Copy, PartialEq, Eq, Structural, Debug)]
pub enum Pane {
    /// The empty "welcome" pane.
    NewDocument,
    /// An editor on one open document.
    Editor(DocumentId),
    /// The experimental buffer pane.
    Buffer,
    /// The configuration viewer.
    Config,
}

/// Mathematical state of the pane model: the ordered slots, the focused
/// identifier, and the next fresh identifier.
pub struct PmModel {
    pub panes: Seq<(u64, Pane)>,
    pub open: Option<u64>,
    pub next: int,
}

/// The ordered collection of panes with its focus and its allocator.
pub struct PaneModel {
    pub(crate) entries: Vec<(u64, Pane)>,
    pub(crate) next_id: u64,
    pub(crate) open_id: Option<u64>,
}

impl PaneModel {
    /// The slots in order, as mathematical values.
    pub open(crate) spec fn entry_seq(&self) -> Seq<(u64, Pane)> {
        self.entries@
    }

    /// The next identifier `add` will return.
    pub open(crate) spec fn counter(&self) -> u64 {
        self.next_id
    }

    /// The focused identifier, if any.
    pub open(crate) spec fn focus(&self) -> Option<u64> {
        self.open_id
    }

    /// The panes, by identifier.
    pub open spec fn pane_map(&self) -> Map<u64, Pane> {
        alist_map(self.entry_seq())
    }

    /// The abstract state.
    pub open spec fn model(&self) -> PmModel {
        PmModel { panes: self.entry_seq(), open: self.focus(), next: self.counter() as int }
    }

    /// Well-formedness: identifiers unique and below the counter, the
    /// counter at least 1, and the focus unset or on an existing pane.
    pub open spec fn wf(&self) -> bool {
        &&& wf_alist(self.entry_seq())
        &&& self.counter() >= 1
        &&& forall|i: int|
            0 <= i < self.entry_seq().len() ==> 1 <= (#[trigger] self.entry_seq()[i]).0
                < self.counter()
        &&& match self.focus() {
            Some(id) => self.pane_map().dom().contains(id),
            None => true,
        }
    }

    /// An empty model with nothing focused; the allocator begins at 1.
    pub fn new() -> (m: PaneModel)
        ensures
            m.wf(),
            m.model() == (PmModel { panes: Seq::<(u64, Pane)>::empty(), open: None, next: 1int }),
    {
        let m = PaneModel { entries: Vec::new(), next_id: 1, open_id: None };
        proof {
            assert(m.entry_seq() =~= Seq::<(u64, Pane)>::empty());
        }
        m
    }

    fn find(&self, id: PaneId) -> (r: Option<usize>)
        ensures
            match r {
                Some(i) => i < self.entry_seq().len() && self.entry_seq()[i as int].0 == id,
                None => forall|k: int|
                    0 <= k < self.entry_seq().len() ==> (#[trigger] self.entry_seq()[k]).0 != id,
            },
    {
        let n = self.entries.len();
        for i in 0..n
            invariant
                n == self.entries@.len(),
                forall|k: int| 0 <= k < i ==> (#[trigger] self.entry_seq()[k]).0 != id,
        {
            if self.entries[i].0 == id {
                return Some(i);
            }
        }
        None
    }

    /// Appends a pane under a fresh identifier and returns it.  Adding
    /// does not move the focus.
    pub fn add(&mut self, pane: Pane) -> (id: PaneId)
        requires
            old(self).wf(),
            old(self).counter() < u64::MAX,
        ensures
            final(self).wf(),
            id == old(self).counter(),
            !old(self).pane_map().dom().contains(id),
            final(self).model() == (PmModel {
                panes: old(self).model().panes.push((id, pane)),
                open: old(self).model().open,
                next: old(self).model().next + 1,
            }),
            final(self).pane_map() == old(self).pane_map().insert(id, pane),
    {
        let id = self.next_id;
        let es = Ghost(self.entry_seq());
        proof {
            lemma_alist_dom(es@, id);
        }
        self.entries.push((id, pane));
        self.next_id = id + 1;
        proof {
            lemma_alist_push(es@, (id, pane));
            assert(self.wf());
        }
        id
    }

    /// Focuses an existing pane; an unknown identifier is a no-op.
    pub fn open(&mut self, id: PaneId)
        requires
            old(self).wf(),
        ensures
            final(self).wf(),
            final(self).model() == if old(self).pane_map().dom().contains(id) {
                PmModel { open: Some(id), ..old(self).model() }
            } else {
                old(self).model()
            },
    {
        let es = Ghost(self.entry_seq());
        match self.find(id) {
            Some(i) => {
                proof {
                    lemma_alist_at(es@, i as int);
                }
                self.open_id = Some(id);
            },
            None => {
                proof {
                    lemma_alist_dom(es@, id);
                }
            },
        }
    }

    /// The focused pane, if one is focused.
    pub fn get_open(&self) -> (r: Option<Pane>)
        requires
            self.wf(),
        ensures
            match self.model().open {
                Some(id) => r == Some(self.pane_map()[id]),
                None => r is None,
            },
    {
        let es = Ghost(self.entry_seq());
        match self.open_id {
            Some(id) => {
                match self.find(id) {
                    Some(i) => {
                        proof {
                            lemma_alist_at(es@, i as int);
                        }
                        Some(self.entries[i].1)
                    },
                    None => {
                        proof {
                            lemma_alist_dom(es@, id);
                        }
                        None
                    },
                }
            },
            None => None,
        }
    }

    /// The focused identifier, if any.
    pub fn get_open_id(&self) -> (r: Option<PaneId>)
        ensures
            r == self.model().open,
    {
        self.open_id
    }

    /// The pane under one identifier.
    pub fn get(&self, id: PaneId) -> (r: Option<Pane>)
        requires
            self.wf(),
        ensures
            r is Some <==> self.pane_map().dom().contains(id),
            r matches Some(p) ==> self.pane_map()[id] == p,
    {
        let es = Ghost(self.entry_seq());
        match self.find(id) {
            Some(i) => {
                proof {
                    lemma_alist_at(es@, i as int);
                }
                Some(self.entries[i].1)
            },
            None => {
                proof {
                    lemma_alist_dom(es@, id);
                }
                None
            },
        }
    }

    /// Puts a new pane into an existing slot, keeping its identifier, its
    /// position and (if it was focused) the focus; an unknown identifier
    /// is a no-op.
    pub fn replace(&mut self, id: PaneId, pane: Pane)
        requires
            old(self).wf(),
        ensures
            final(self).wf(),
            final(self).model().open == old(self).model().open,
            final(self).model().next == old(self).model().next,
            final(self).model().panes.len() == old(self).model().panes.len(),
            forall|k: int|
                0 <= k < old(self).model().panes.len() ==> (#[trigger] final(self).model().panes[k])
                    == (if old(self).model().panes[k].0 == id {
                    (id, pane)
                } else {
                    old(self).model().panes[k]
                }),
            final(self).pane_map() == if old(self).pane_map().dom().contains(id) {
                old(self).pane_map().insert(id, pane)
            } else {
                old(self).pane_map()
            },
    {
        let es = Ghost(self.entry_seq());
        match self.find(id) {
            Some(i) => {
                proof {
                    lemma_alist_at(es@, i as int);
                }
                let mut e = self.entries.remove(i);
                e.1 = pane;
                self.entries.insert(i, e);
                proof {
                    assert(self.entry_seq() =~= es@.update(i as int, (id, pane)));
                    lemma_alist_update(es@, i as int, (id, pane));
                    assert(forall|k: int|
                        0 <= k < self.entry_seq().len() ==> (#[trigger] self.entry_seq()[k]).0
                            == es@[k].0);
                    assert(self.wf());
                }
            },
            None => {
                proof {
                    lemma_alist_dom(es@, id);
                }
            },
        }
    }

    /// Removes a pane and returns it; removing the focused pane clears the
    /// focus; an unknown identifier is a no-op answering `None`.  The
    /// counter never goes back.
    pub fn remove(&mut self, id: PaneId) -> (r: Option<Pane>)
        requires
            old(self).wf(),
        ensures
            final(self).wf(),
            final(self).model().next == old(self).model().next,
            r is Some <==> old(self).pane_map().dom().contains(id),
            r matches Some(p) ==> old(self).pane_map()[id] == p,
            final(self).pane_map() == old(self).pane_map().remove(id),
            final(self).model().open == if old(self).model().open == Some(id) {
                None::<u64>
            } else {
                old(self).model().open
            },
            old(self).pane_map().dom().contains(id) ==> exists|i: int|
                0 <= i < old(self).model().panes.len() && old(self).model().panes[i].0 == id
                    && final(self).model().panes == old(self).model().panes.remove(i),
            !old(self).pane_map().dom().contains(id) ==> final(self).model().panes == old(
                self,
            ).model().panes,
    {
        let es = Ghost(self.entry_seq());
        match self.find(id) {
            Some(i) => {
                proof {
                    lemma_alist_at(es@, i as int);
                    lemma_alist_remove(es@, i as int);
                }
                let e = self.entries.remove(i);
                match self.open_id {
                    Some(o) => {
                        if o == id {
                            self.open_id = None;
                        }
                    },
                    None => {},
                }
                proof {
                    assert(self.entry_seq() =~= es@.remove(i as int));
                    assert(forall|k: int|
                        0 <= k < self.entry_seq().len() ==> (#[trigger] self.entry_seq()[k]) == (
                        if k < i as int {
                            es@[k]
                        } else {
                            es@[k + 1]
                        }));
                    if self.open_id is Some {
                        lemma_alist_dom(es@, self.open_id->0);
                        lemma_alist_dom(self.entry_seq(), self.open_id->0);
                        let o = self.open_id->0;
                        let j = choose|j: int| 0 <= j < es@.len() && es@[j].0 == o;
                        if j < i as int {
                            assert(self.entry_seq()[j].0 == o);
                        } else {
                            assert(self.entry_seq()[j - 1].0 == o);
                        }
                    }
                    assert(self.wf());
                    let oldpanes = old(self).model().panes;
                    let w: int = i as int;
                    assert(0 <= w < oldpanes.len() && oldpanes[w].0 == id && self.model().panes
                        == oldpanes.remove(w));
                    assert(exists|j: int|
                        0 <= j < oldpanes.len() && oldpanes[j].0 == id && self.model().panes
                            == oldpanes.remove(j));
                }
                Some(e.1)
            },
            None => {
                proof {
                    lemma_alist_dom(es@, id);
                    assert(self.pane_map().remove(id) =~= self.pane_map());
                }
                None
            },
        }
    }

    /// The number of panes.
    pub fn count(&self) -> (n: usize)
        requires
            self.wf(),
        ensures
            n == self.model().panes.len(),
            n == self.pane_map().dom().len(),
    {
        proof {
            lemma_alist_len(self.entry_seq());
        }
        self.entries.len()
    }
}

/// Focus validity: in a well-formed model — and every operation above
/// keeps the model well formed — the focused identifier is unset or
/// references an existing pane, whatever the pane count.
pub proof fn lemma_focus_valid(m: &PaneModel)
    requires
        m.wf(),
    ensures
        match m.model().open {
            Some(id) => alist_map(m.model().panes).dom().contains(id),
            None => true,
        },
{
}

} // verus!
