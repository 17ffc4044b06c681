//! Open documents: a text buffer with its path, display filename and dirty
//! flag, and the identifier-keyed store that owns them.  Identifiers are
//! allocated monotonically, beginning at 1, and never reused.

use vstd::prelude::*;

use crate::alist::{alist_map, lemma_alist_at, lemma_alist_dom, lemma_alist_len,
    lemma_alist_push, lemma_alist_remove, lemma_alist_update, wf_alist};
use crate::DocumentId;

verus! {

/// An open text buffer with its on-disk path, display filename and dirty
/// flag.
#[derive(Debug)]
pub struct DocumentHandler {
    pub text_content: String,
    pub path: String,
    pub filename: String,
    pub changed: bool,
}

/// Mathematical image of a document handler.
pub struct DocView {
    pub text_content: Seq<char>,
    pub path: Seq<char>,
    pub filename: Seq<char>,
    pub changed: bool,
}

impl View for DocumentHandler {
    type V = DocView;

    open spec fn view(&self) -> DocView {
        DocView {
            text_content: self.text_content@,
            path: self.path@,
            filename: self.filename@,
            changed: self.changed,
        }
    }
}

impl Clone for DocumentHandler {
    fn clone(&self) -> (r: Self)
        ensures
            r@ == self@,
    {
        DocumentHandler {
            text_content: self.text_content.clone(),
            path: self.path.clone(),
            filename: self.filename.clone(),
            changed: self.changed,
        }
    }
}

/// Mathematical state of a document store: the documents and the next
/// fresh identifier.
pub struct DsModel {
    pub docs: Map<u64, DocView>,
    pub next: int,
}

/// One abstract store operation.
pub enum DocStoreOp {
    Add(DocView),
    Remove(u64),
}

/// Effect of one operation on the abstract state: `Add` inserts under the
/// current counter and advances it; `Remove` drops one key.
pub open spec fn ds_apply(m: DsModel, op: DocStoreOp) -> DsModel {
    match op {
        DocStoreOp::Add(d) => DsModel { docs: m.docs.insert(m.next as u64, d), next: m.next + 1 },
        DocStoreOp::Remove(id) => DsModel { docs: m.docs.remove(id), next: m.next },
    }
}

/// Effect of an operation sequence, applied left to right.
pub open spec fn ds_run(m: DsModel, ops: Seq<DocStoreOp>) -> DsModel
    decreases ops.len(),
{
    if ops.len() == 0 {
        m
    } else {
        ds_apply(ds_run(m, ops.drop_last()), ops.last())
    }
}

proof fn lemma_ds_next_monotone(m: DsModel, ops: Seq<DocStoreOp>, i: int, j: int)
    requires
        0 <= i <= j <= ops.len(),
    ensures
        ds_run(m, ops.take(i)).next <= ds_run(m, ops.take(j)).next,
    decreases j - i,
{
    if i < j {
        lemma_ds_next_monotone(m, ops, i, j - 1);
        assert(ops.take(j).drop_last() =~= ops.take(j - 1));
    }
}

/// Identifiers handed out by `add` are strictly increasing: over any
/// operation sequence, an earlier `add` returns a smaller identifier than
/// a later one, whatever removals happen in between.
pub proof fn lemma_add_ids_strictly_increase(m: DsModel, ops: Seq<DocStoreOp>, k: int, l: int)
    requires
        0 <= k < l < ops.len(),
        ops[k] is Add,
        ops[l] is Add,
    ensures
        ds_run(m, ops.take(k)).next < ds_run(m, ops.take(l)).next,
{
    assert(ops.take(k + 1).drop_last() =~= ops.take(k));
    assert(ops.take(k + 1).last() == ops[k]);
    assert(ds_run(m, ops.take(k + 1)).next == ds_run(m, ops.take(k)).next + 1);
    lemma_ds_next_monotone(m, ops, k + 1, l);
}

/// The identifier-keyed collection of open documents.
pub struct DocumentStore {
    pub(crate) entries: Vec<(u64, DocumentHandler)>,
    pub(crate) next_id: u64,
}

impl DocumentStore {
    /// The entries in representation order, as mathematical values.
    pub open(crate) spec fn entry_seq(&self) -> Seq<(u64, DocView)> {
        self.entries@.map_values(|e: (u64, DocumentHandler)| (e.0, e.1@))
    }

    /// The next identifier `add` will return.
    pub open(crate) spec fn counter(&self) -> u64 {
        self.next_id
    }

    /// The stored documents, by identifier.
    pub open spec fn doc_map(&self) -> Map<u64, DocView> {
        alist_map(self.entry_seq())
    }

    /// The abstract state.
    pub open spec fn model(&self) -> DsModel {
        DsModel { docs: self.doc_map(), next: self.counter() as int }
    }

    /// Well-formedness: identifiers unique, all below the counter, and the
    /// counter at least 1.
    pub open spec fn wf(&self) -> bool {
        &&& wf_alist(self.entry_seq())
        &&& self.counter() >= 1
        &&& forall|i: int|
            0 <= i < self.entry_seq().len() ==> 1 <= (#[trigger] self.entry_seq()[i]).0
                < self.counter()
    }

    /// An empty store; the allocator begins at 1.
    pub fn new() -> (s: DocumentStore)
        ensures
            s.wf(),
            s.model() == (DsModel { docs: Map::<u64, DocView>::empty(), next: 1int }),
    {
        let s = DocumentStore { entries: Vec::new(), next_id: 1 };
        proof {
            assert(s.entry_seq() =~= Seq::<(u64, DocView)>::empty());
            assert(s.doc_map() =~= Map::<u64, DocView>::empty());
        }
        s
    }

    fn find(&self, id: DocumentId) -> (r: Option<usize>)
        ensures
            match r {
                Some(i) => i < self.entry_seq().len() && self.entry_seq()[i as int].0 == id,
                None => forall|k: int|
                    0 <= k < self.entry_seq().len() ==> (#[trigger] self.entry_seq()[k]).0 != id,
            },
    {
        let n = self.entries.len();
        for i in 0..n
            invariant
                n == self.entries@.len(),
                forall|k: int| 0 <= k < i ==> (#[trigger] self.entry_seq()[k]).0 != id,
        {
            if self.entries[i].0 == id {
                return Some(i);
            }
        }
        None
    }

    /// Inserts a handler under a fresh identifier and returns it.  The
    /// identifier is the current counter value, so it exceeds every
    /// identifier returned before.
    pub fn add(&mut self, handler: DocumentHandler) -> (id: DocumentId)
        requires
            old(self).wf(),
            old(self).counter() < u64::MAX,
        ensures
            final(self).wf(),
            id == old(self).counter(),
            !old(self).doc_map().dom().contains(id),
            final(self).model() == ds_apply(old(self).model(), DocStoreOp::Add(handler@)),
    {
        let id = self.next_id;
        let hv = Ghost(handler@);
        let es = Ghost(self.entry_seq());
        proof {
            lemma_alist_dom(es@, id);
        }
        self.entries.push((id, handler));
        self.next_id = id + 1;
        proof {
            assert(self.entry_seq() =~= es@.push((id, hv@)));
            lemma_alist_push(es@, (id, hv@));
            assert(self.wf());
        }
        id
    }

    /// Looks a document up; `None` on an unknown identifier.
    pub fn get(&self, id: DocumentId) -> (r: Option<&DocumentHandler>)
        requires
            self.wf(),
        ensures
            r is Some <==> self.doc_map().dom().contains(id),
            r matches Some(h) ==> self.doc_map()[id] == h@,
    {
        let es = Ghost(self.entry_seq());
        match self.find(id) {
            Some(i) => {
                proof {
                    lemma_alist_at(es@, i as int);
                }
                Some(&self.entries[i].1)
            },
            None => {
                proof {
                    lemma_alist_dom(es@, id);
                }
                None
            },
        }
    }

    /// Sets the dirty flag of one document; a no-op on an unknown
    /// identifier.  Answers whether the document was found.
    pub fn set_changed(&mut self, id: DocumentId, changed: bool) -> (found: bool)
        requires
            old(self).wf(),
        ensures
            final(self).wf(),
            found <==> old(self).doc_map().dom().contains(id),
            final(self).counter() == old(self).counter(),
            final(self).doc_map() == if old(self).doc_map().dom().contains(id) {
                old(self).doc_map().insert(
                    id,
                    DocView { changed, ..old(self).doc_map()[id] },
                )
            } else {
                old(self).doc_map()
            },
    {
        let es = Ghost(self.entry_seq());
        match self.find(id) {
            Some(i) => {
                proof {
                    lemma_alist_at(es@, i as int);
                }
                let mut e = self.entries.remove(i);
                e.1.changed = changed;
                let ev = Ghost((e.0, e.1@));
                self.entries.insert(i, e);
                proof {
                    assert(self.entry_seq() =~= es@.update(i as int, ev@));
                    lemma_alist_update(es@, i as int, ev@);
                    assert(forall|k: int|
                        0 <= k < self.entry_seq().len() ==> (#[trigger] self.entry_seq()[k]).0
                            == es@[k].0);
                    assert(self.wf());
                }
                true
            },
            None => {
                proof {
                    lemma_alist_dom(es@, id);
                }
                false
            },
        }
    }

    /// Replaces the buffer text of one document; a no-op on an unknown
    /// identifier.
    pub fn set_text(&mut self, id: DocumentId, text: String) -> (found: bool)
        requires
            old(self).wf(),
        ensures
            final(self).wf(),
            found <==> old(self).doc_map().dom().contains(id),
            final(self).counter() == old(self).counter(),
            final(self).doc_map() == if old(self).doc_map().dom().contains(id) {
                old(self).doc_map().insert(
                    id,
                    DocView { text_content: text@, ..old(self).doc_map()[id] },
                )
            } else {
                old(self).doc_map()
            },
    {
        let es = Ghost(self.entry_seq());
        match self.find(id) {
            Some(i) => {
                proof {
                    lemma_alist_at(es@, i as int);
                }
                let mut e = self.entries.remove(i);
                e.1.text_content = text;
                let ev = Ghost((e.0, e.1@));
                self.entries.insert(i, e);
                proof {
                    assert(self.entry_seq() =~= es@.update(i as int, ev@));
                    lemma_alist_update(es@, i as int, ev@);
                    assert(forall|k: int|
                        0 <= k < self.entry_seq().len() ==> (#[trigger] self.entry_seq()[k]).0
                            == es@[k].0);
                    assert(self.wf());
                }
                true
            },
            None => {
                proof {
                    lemma_alist_dom(es@, id);
                }
                false
            },
        }
    }

    /// Removes a document and returns its handler; an unknown identifier
    /// is a no-op answering `None`.  The counter never goes back.
    pub fn remove(&mut self, id: DocumentId) -> (r: Option<DocumentHandler>)
        requires
            old(self).wf(),
        ensures
            final(self).wf(),
            final(self).model() == ds_apply(old(self).model(), DocStoreOp::Remove(id)),
            r is Some <==> old(self).doc_map().dom().contains(id),
            r matches Some(h) ==> old(self).doc_map()[id] == h@,
    {
        let es = Ghost(self.entry_seq());
        match self.find(id) {
            Some(i) => {
                proof {
                    lemma_alist_at(es@, i as int);
                    lemma_alist_remove(es@, i as int);
                }
                let e = self.entries.remove(i);
                proof {
                    assert(self.entry_seq() =~= es@.remove(i as int));
                    assert(forall|k: int|
                        0 <= k < self.entry_seq().len() ==> (#[trigger] self.entry_seq()[k]) == (
                        if k < i as int {
                            es@[k]
                        } else {
                            es@[k + 1]
                        }));
                    assert(self.wf());
                }
                Some(e.1)
            },
            None => {
                proof {
                    lemma_alist_dom(es@, id);
                    assert(self.doc_map().remove(id) =~= self.doc_map());
                }
                None
            },
        }
    }

    /// The number of open documents.
    pub fn count(&self) -> (n: usize)
        requires
            self.wf(),
        ensures
            n == self.doc_map().dom().len(),
    {
        proof {
            lemma_alist_len(self.entry_seq());
        }
        self.entries.len()
    }
}

} // verus!
