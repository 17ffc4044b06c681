//! Association lists viewed as mathematical maps.  The identifier-keyed
//! stores (documents, panes) and the name-keyed registries (hotkeys,
//! themes) are all represented this way.

use vstd::prelude::*;

verus! {

/// The map described by an association list; later entries overwrite
/// earlier ones.
pub open spec fn alist_map<K, V>(s: Seq<(K, V)>) -> Map<K, V>
    decreases s.len(),
{
    if s.len() == 0 {
        Map::empty()
    } else {
        alist_map(s.drop_last()).insert(s.last().0, s.last().1)
    }
}

/// Keys are pairwise distinct.
pub open spec fn wf_alist<K, V>(s: Seq<(K, V)>) -> bool {
    forall|i: int, j: int| 0 <= i < j < s.len() ==> s[i].0 != s[j].0
}

pub proof fn lemma_alist_dom<K, V>(s: Seq<(K, V)>, k: K)
    ensures
        alist_map(s).dom().contains(k) <==> exists|i: int| 0 <= i < s.len() && s[i].0 == k,
    decreases s.len(),
{
    if s.len() > 0 {
        lemma_alist_dom::<K, V>(s.drop_last(), k);
        if alist_map(s).dom().contains(k) {
            if s.last().0 != k {
                let i = choose|i: int| 0 <= i < s.len() - 1 && s.drop_last()[i].0 == k;
                assert(s[i].0 == k);
            }
        }
        if exists|i: int| 0 <= i < s.len() && s[i].0 == k {
            let i = choose|i: int| 0 <= i < s.len() && s[i].0 == k;
            if i < s.len() - 1 {
                assert(s.drop_last()[i].0 == k);
            }
        }
    }
}

pub proof fn lemma_alist_at<K, V>(s: Seq<(K, V)>, i: int)
    requires
        wf_alist(s),
        0 <= i < s.len(),
    ensures
        alist_map(s).dom().contains(s[i].0),
        alist_map(s)[s[i].0] == s[i].1,
    decreases s.len(),
{
    lemma_alist_dom(s, s[i].0);
    if i < s.len() - 1 {
        assert(s.drop_last()[i] == s[i]);
        lemma_alist_at(s.drop_last(), i);
        assert(s.last().0 != s[i].0);
    }
}

pub proof fn lemma_alist_update<K, V>(s: Seq<(K, V)>, i: int, e: (K, V))
    requires
        wf_alist(s),
        0 <= i < s.len(),
        e.0 == s[i].0,
    ensures
        alist_map(s.update(i, e)) == alist_map(s).insert(e.0, e.1),
        wf_alist(s.update(i, e)),
    decreases s.len(),
{
    let su = s.update(i, e);
    assert(forall|k: int| 0 <= k < s.len() ==> su[k].0 == s[k].0);
    if i == s.len() - 1 {
        assert(su.drop_last() =~= s.drop_last());
        assert(alist_map(su) =~= alist_map(s).insert(e.0, e.1));
    } else {
        assert(su.drop_last() =~= s.drop_last().update(i, e));
        assert(s.drop_last()[i] == s[i]);
        lemma_alist_update(s.drop_last(), i, e);
        assert(s.last().0 != e.0);
        assert(su.last() == s.last());
        assert(alist_map(su) =~= alist_map(s).insert(e.0, e.1));
    }
}

pub proof fn lemma_alist_push<K, V>(s: Seq<(K, V)>, e: (K, V))
    ensures
        alist_map(s.push(e)) == alist_map(s).insert(e.0, e.1),
{
    assert(s.push(e).drop_last() =~= s);
}

pub proof fn lemma_alist_remove<K, V>(s: Seq<(K, V)>, i: int)
    requires
        wf_alist(s),
        0 <= i < s.len(),
    ensures
        alist_map(s.remove(i)) == alist_map(s).remove(s[i].0),
        wf_alist(s.remove(i)),
    decreases s.len(),
{
    let sr = s.remove(i);
    assert(forall|k: int|
        0 <= k < sr.len() ==> sr[k] == (if k < i {
            s[k]
        } else {
            s[k + 1]
        }));
    if i == s.len() - 1 {
        assert(sr =~= s.drop_last());
        lemma_alist_dom(s.drop_last(), s[i].0);
        assert(alist_map(sr) =~= alist_map(s).remove(s[i].0));
    } else {
        assert(sr.last() == s.last());
        assert(sr.drop_last() =~= s.drop_last().remove(i));
        assert(s.drop_last()[i] == s[i]);
        lemma_alist_remove(s.drop_last(), i);
        assert(s.last().0 != s[i].0);
        assert(alist_map(sr) =~= alist_map(s).remove(s[i].0));
    }
}

pub proof fn lemma_alist_len<K, V>(s: Seq<(K, V)>)
    requires
        wf_alist(s),
    ensures
        alist_map(s).dom().finite(),
        alist_map(s).dom().len() == s.len(),
    decreases s.len(),
{
    if s.len() > 0 {
        lemma_alist_len(s.drop_last());
        lemma_alist_dom(s.drop_last(), s.last().0);
        assert(!alist_map(s.drop_last()).dom().contains(s.last().0));
        assert(alist_map(s).dom() =~= alist_map(s.drop_last()).dom().insert(s.last().0));
    }
}

} // verus!
