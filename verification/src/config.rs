//! The configuration store: a two-level mapping from a namespace and a
//! property name to a `Value`.  Both levels are unordered for lookup;
//! duplicate insertion overwrites.  The store is represented as an
//! association list with unique names, and viewed as a mathematical
//! two-level map.

use vstd::prelude::*;
use vstd::string::StringExecFns;

use crate::text::str_eq;
use crate::value::{Value, ValueView};

verus! {

/// One property entry of a namespace.
pub(crate) struct Prop {
    pub key: String,
    pub value: Value,
}

/// One namespace with its properties.
pub(crate) struct Namespace {
    pub name: String,
    pub props: Vec<Prop>,
}

/// Mathematical image of a property entry.
pub struct PropView {
    pub key: Seq<char>,
    pub value: ValueView,
}

/// Mathematical image of a namespace entry.
pub struct NsView {
    pub name: Seq<char>,
    pub props: Seq<PropView>,
}

impl View for Prop {
    type V = PropView;

    open(crate) spec fn view(&self) -> PropView {
        PropView { key: self.key@, value: self.value@ }
    }
}

impl View for Namespace {
    type V = NsView;

    open(crate) spec fn view(&self) -> NsView {
        NsView { name: self.name@, props: self.props@.map_values(|p: Prop| p@) }
    }
}

/// The abstract content of a configuration: namespace -> property -> value.
pub type ConfigMap = Map<Seq<char>, Map<Seq<char>, ValueView>>;

/// The map described by a property list; later entries overwrite earlier
/// ones.
pub open spec fn props_map(ps: Seq<PropView>) -> Map<Seq<char>, ValueView>
    decreases ps.len(),
{
    if ps.len() == 0 {
        Map::empty()
    } else {
        props_map(ps.drop_last()).insert(ps.last().key, ps.last().value)
    }
}

/// The two-level map described by a namespace list; later entries
/// overwrite earlier ones.
pub open spec fn entries_map(es: Seq<NsView>) -> ConfigMap
    decreases es.len(),
{
    if es.len() == 0 {
        Map::empty()
    } else {
        entries_map(es.drop_last()).insert(es.last().name, props_map(es.last().props))
    }
}

/// Property keys are pairwise distinct.
pub open spec fn wf_props(ps: Seq<PropView>) -> bool {
    forall|i: int, j: int| 0 <= i < j < ps.len() ==> ps[i].key != ps[j].key
}

/// Namespace names are pairwise distinct and every property list is
/// well formed.
pub open spec fn wf_entries(es: Seq<NsView>) -> bool {
    &&& forall|i: int, j: int| 0 <= i < j < es.len() ==> es[i].name != es[j].name
    &&& forall|i: int| 0 <= i < es.len() ==> wf_props(#[trigger] es[i].props)
}

/// Lookup of one property in the abstract map.
pub open spec fn spec_get(m: ConfigMap, ns: Seq<char>, prop: Seq<char>) -> Option<ValueView> {
    if m.dom().contains(ns) && m[ns].dom().contains(prop) {
        Some(m[ns][prop])
    } else {
        None
    }
}

/// Insertion of one property into the abstract map; creates the namespace
/// when absent.
pub open spec fn spec_insert(
    m: ConfigMap,
    ns: Seq<char>,
    prop: Seq<char>,
    v: ValueView,
) -> ConfigMap {
    let inner = if m.dom().contains(ns) {
        m[ns]
    } else {
        Map::empty()
    };
    m.insert(ns, inner.insert(prop, v))
}

/// Removal of one property from the abstract map; the namespace itself
/// stays, possibly empty.
pub open spec fn spec_remove(m: ConfigMap, ns: Seq<char>, prop: Seq<char>) -> ConfigMap {
    if m.dom().contains(ns) {
        m.insert(ns, m[ns].remove(prop))
    } else {
        m
    }
}

/// Merge of two abstract maps: entries of `b` overwrite entries of `a`
/// property by property; namespaces only in one side survive unchanged.
pub open spec fn spec_merge(a: ConfigMap, b: ConfigMap) -> ConfigMap {
    Map::new(
        |n: Seq<char>| a.dom().contains(n) || b.dom().contains(n),
        |n: Seq<char>|
            if a.dom().contains(n) && b.dom().contains(n) {
                a[n].union_prefer_right(b[n])
            } else if b.dom().contains(n) {
                b[n]
            } else {
                a[n]
            },
    )
}

/// After `insert(ns, prop, v)`, `get(ns, prop)` yields `v`.
pub proof fn lemma_insert_get(m: ConfigMap, ns: Seq<char>, prop: Seq<char>, v: ValueView)
    ensures
        spec_get(spec_insert(m, ns, prop, v), ns, prop) == Some(v),
{
}

/// Insertion leaves every other property unchanged.
pub proof fn lemma_insert_get_other(
    m: ConfigMap,
    ns: Seq<char>,
    prop: Seq<char>,
    v: ValueView,
    n2: Seq<char>,
    p2: Seq<char>,
)
    requires
        n2 != ns || p2 != prop,
    ensures
        spec_get(spec_insert(m, ns, prop, v), n2, p2) == spec_get(m, n2, p2),
{
}

/// A merged map answers with `b`'s value where `b` has one, else with
/// `a`'s.
pub proof fn lemma_merge_get(a: ConfigMap, b: ConfigMap, n: Seq<char>, p: Seq<char>)
    ensures
        spec_get(spec_merge(a, b), n, p) == if spec_get(b, n, p) is Some {
            spec_get(b, n, p)
        } else {
            spec_get(a, n, p)
        },
{
}

/// Merge is associative.
pub proof fn lemma_merge_assoc(a: ConfigMap, b: ConfigMap, c: ConfigMap)
    ensures
        spec_merge(spec_merge(a, b), c) == spec_merge(a, spec_merge(b, c)),
{
    assert(spec_merge(spec_merge(a, b), c) =~~= spec_merge(a, spec_merge(b, c)));
}

/// Makes the namespace exist in the abstract map, with unchanged (or no)
/// properties.
pub open spec fn spec_touch(m: ConfigMap, ns: Seq<char>) -> ConfigMap {
    let inner = if m.dom().contains(ns) {
        m[ns]
    } else {
        Map::empty()
    };
    m.insert(ns, inner)
}

/// The first `j` properties of `ps` inserted into `m` under namespace `n`,
/// in order.
pub open spec fn apply_props_upto(
    m: ConfigMap,
    n: Seq<char>,
    ps: Seq<PropView>,
    j: int,
) -> ConfigMap
    decreases j,
{
    if j <= 0 {
        m
    } else {
        let prev = apply_props_upto(m, n, ps, j - 1);
        spec_insert(prev, n, ps[j - 1].key, ps[j - 1].value)
    }
}

/// One whole namespace entry applied onto `m`: the namespace made to
/// exist, then each property inserted in order.
pub open spec fn apply_ns_full(m: ConfigMap, ns: NsView) -> ConfigMap {
    apply_props_upto(spec_touch(m, ns.name), ns.name, ns.props, ns.props.len() as int)
}

/// The first `i` namespace entries of `es` applied onto `m`, in order.
pub open spec fn apply_nss_upto(m: ConfigMap, es: Seq<NsView>, i: int) -> ConfigMap
    decreases i,
{
    if i <= 0 {
        m
    } else {
        apply_ns_full(apply_nss_upto(m, es, i - 1), es[i - 1])
    }
}

/// The inner map under `n` in `m`, or the empty map.
pub open spec fn inner_or_empty(m: ConfigMap, n: Seq<char>) -> Map<Seq<char>, ValueView> {
    if m.dom().contains(n) {
        m[n]
    } else {
        Map::empty()
    }
}

proof fn lemma_apply_props_closed(m: ConfigMap, n: Seq<char>, ps: Seq<PropView>, j: int)
    requires
        0 <= j <= ps.len(),
    ensures
        apply_props_upto(spec_touch(m, n), n, ps, j) == m.insert(
            n,
            inner_or_empty(m, n).union_prefer_right(props_map(ps.take(j))),
        ),
    decreases j,
{
    if j == 0 {
        assert(props_map(ps.take(0)) =~= Map::<Seq<char>, ValueView>::empty());
        assert(spec_touch(m, n) =~~= m.insert(
            n,
            inner_or_empty(m, n).union_prefer_right(props_map(ps.take(0))),
        ));
    } else {
        lemma_apply_props_closed(m, n, ps, j - 1);
        assert(ps.take(j).drop_last() =~= ps.take(j - 1));
        assert(props_map(ps.take(j)) == props_map(ps.take(j - 1)).insert(
            ps[j - 1].key,
            ps[j - 1].value,
        ));
        assert(apply_props_upto(spec_touch(m, n), n, ps, j) =~~= m.insert(
            n,
            inner_or_empty(m, n).union_prefer_right(props_map(ps.take(j))),
        ));
    }
}

proof fn lemma_merge_singleton(m: ConfigMap, n: Seq<char>, pm: Map<Seq<char>, ValueView>)
    ensures
        spec_merge(m, Map::<Seq<char>, Map<Seq<char>, ValueView>>::empty().insert(n, pm))
            == m.insert(n, inner_or_empty(m, n).union_prefer_right(pm)),
{
    assert(spec_merge(m, Map::<Seq<char>, Map<Seq<char>, ValueView>>::empty().insert(n, pm))
        =~~= m.insert(n, inner_or_empty(m, n).union_prefer_right(pm)));
}

proof fn lemma_merge_empty(m: ConfigMap)
    ensures
        spec_merge(m, Map::<Seq<char>, Map<Seq<char>, ValueView>>::empty()) == m,
{
    assert(spec_merge(m, Map::<Seq<char>, Map<Seq<char>, ValueView>>::empty()) =~~= m);
}

pub(crate) proof fn lemma_apply_nss_merge(a: ConfigMap, es: Seq<NsView>, i: int)
    requires
        wf_entries(es),
        0 <= i <= es.len(),
    ensures
        apply_nss_upto(a, es, i) == spec_merge(a, entries_map(es.take(i))),
    decreases i,
{
    if i == 0 {
        assert(es.take(0) =~= Seq::<NsView>::empty());
        lemma_merge_empty(a);
    } else {
        lemma_apply_nss_merge(a, es, i - 1);
        let prev = spec_merge(a, entries_map(es.take(i - 1)));
        let ns = es[i - 1];
        lemma_apply_props_closed(prev, ns.name, ns.props, ns.props.len() as int);
        assert(ns.props.take(ns.props.len() as int) =~= ns.props);
        lemma_merge_singleton(prev, ns.name, props_map(ns.props));
        let single = Map::<Seq<char>, Map<Seq<char>, ValueView>>::empty().insert(
            ns.name,
            props_map(ns.props),
        );
        lemma_merge_assoc(a, entries_map(es.take(i - 1)), single);
        assert(es.take(i).drop_last() =~= es.take(i - 1));
        assert(entries_map(es.take(i)) == entries_map(es.take(i - 1)).insert(
            ns.name,
            props_map(ns.props),
        ));
        lemma_entries_map_dom(es.take(i - 1), ns.name);
        assert(forall|k: int| 0 <= k < i - 1 ==> es.take(i - 1)[k] == es[k]);
        assert(!entries_map(es.take(i - 1)).dom().contains(ns.name));
        assert(spec_merge(entries_map(es.take(i - 1)), single) =~~= entries_map(es.take(i)));
        assert(apply_nss_upto(a, es, i) == spec_merge(a, entries_map(es.take(i))));
    }
}

/// The typed two-level key/value store.
pub struct Config {
    pub(crate) entries: Vec<Namespace>,
}

impl Config {
    /// The namespaces in representation order, as mathematical values.
    pub open(crate) spec fn entry_view(&self) -> Seq<NsView> {
        self.entries@.map_values(|n: Namespace| n@)
    }

    /// Well-formedness: names and keys are unique at their level.
    pub open spec fn wf(&self) -> bool {
        wf_entries(self.entry_view())
    }
}

impl View for Config {
    type V = ConfigMap;

    open spec fn view(&self) -> ConfigMap {
        entries_map(self.entry_view())
    }
}

// ---------------------------------------------------------------------
// Association-list reasoning: the fold `entries_map` / `props_map` agrees
// with positional lookup when names are unique.
// ---------------------------------------------------------------------
proof fn lemma_props_map_dom(ps: Seq<PropView>, k: Seq<char>)
    ensures
        props_map(ps).dom().contains(k) <==> exists|i: int| 0 <= i < ps.len() && ps[i].key == k,
    decreases ps.len(),
{
    if ps.len() > 0 {
        lemma_props_map_dom(ps.drop_last(), k);
        if props_map(ps).dom().contains(k) {
            if ps.last().key != k {
                let i = choose|i: int| 0 <= i < ps.len() - 1 && ps.drop_last()[i].key == k;
                assert(ps[i].key == k);
            }
        }
        if exists|i: int| 0 <= i < ps.len() && ps[i].key == k {
            let i = choose|i: int| 0 <= i < ps.len() && ps[i].key == k;
            if i < ps.len() - 1 {
                assert(ps.drop_last()[i].key == k);
            }
        }
    }
}

proof fn lemma_props_map_at(ps: Seq<PropView>, i: int)
    requires
        wf_props(ps),
        0 <= i < ps.len(),
    ensures
        props_map(ps).dom().contains(ps[i].key),
        props_map(ps)[ps[i].key] == ps[i].value,
    decreases ps.len(),
{
    lemma_props_map_dom(ps, ps[i].key);
    if i < ps.len() - 1 {
        assert(ps.drop_last()[i] == ps[i]);
        lemma_props_map_at(ps.drop_last(), i);
        assert(ps.last().key != ps[i].key);
    }
}

proof fn lemma_props_map_update(ps: Seq<PropView>, i: int, p: PropView)
    requires
        wf_props(ps),
        0 <= i < ps.len(),
        p.key == ps[i].key,
    ensures
        props_map(ps.update(i, p)) == props_map(ps).insert(p.key, p.value),
    decreases ps.len(),
{
    let psu = ps.update(i, p);
    if i == ps.len() - 1 {
        assert(psu.drop_last() =~= ps.drop_last());
        assert(props_map(psu) =~= props_map(ps).insert(p.key, p.value));
    } else {
        assert(psu.drop_last() =~= ps.drop_last().update(i, p));
        assert(ps.drop_last()[i] == ps[i]);
        lemma_props_map_update(ps.drop_last(), i, p);
        assert(ps.last().key != p.key);
        assert(psu.last() == ps.last());
        assert(props_map(psu) =~= props_map(ps).insert(p.key, p.value));
    }
}

proof fn lemma_props_map_push(ps: Seq<PropView>, p: PropView)
    ensures
        props_map(ps.push(p)) == props_map(ps).insert(p.key, p.value),
{
    assert(ps.push(p).drop_last() =~= ps);
}

proof fn lemma_props_map_remove(ps: Seq<PropView>, i: int)
    requires
        wf_props(ps),
        0 <= i < ps.len(),
    ensures
        props_map(ps.remove(i)) == props_map(ps).remove(ps[i].key),
    decreases ps.len(),
{
    let psr = ps.remove(i);
    if i == ps.len() - 1 {
        assert(psr =~= ps.drop_last());
        lemma_props_map_dom(ps.drop_last(), ps[i].key);
        assert(props_map(psr) =~= props_map(ps).remove(ps[i].key));
    } else {
        assert(psr.last() == ps.last());
        assert(psr.drop_last() =~= ps.drop_last().remove(i));
        assert(ps.drop_last()[i] == ps[i]);
        lemma_props_map_remove(ps.drop_last(), i);
        assert(ps.last().key != ps[i].key);
        assert(props_map(psr) =~= props_map(ps).remove(ps[i].key));
    }
}

proof fn lemma_entries_map_dom(es: Seq<NsView>, n: Seq<char>)
    ensures
        entries_map(es).dom().contains(n) <==> exists|i: int| 0 <= i < es.len() && es[i].name == n,
    decreases es.len(),
{
    if es.len() > 0 {
        lemma_entries_map_dom(es.drop_last(), n);
        if entries_map(es).dom().contains(n) {
            if es.last().name != n {
                let i = choose|i: int| 0 <= i < es.len() - 1 && es.drop_last()[i].name == n;
                assert(es[i].name == n);
            }
        }
        if exists|i: int| 0 <= i < es.len() && es[i].name == n {
            let i = choose|i: int| 0 <= i < es.len() && es[i].name == n;
            if i < es.len() - 1 {
                assert(es.drop_last()[i].name == n);
            }
        }
    }
}

proof fn lemma_entries_map_at(es: Seq<NsView>, i: int)
    requires
        forall|a: int, b: int| 0 <= a < b < es.len() ==> es[a].name != es[b].name,
        0 <= i < es.len(),
    ensures
        entries_map(es).dom().contains(es[i].name),
        entries_map(es)[es[i].name] == props_map(es[i].props),
    decreases es.len(),
{
    lemma_entries_map_dom(es, es[i].name);
    if i < es.len() - 1 {
        assert(es.drop_last()[i] == es[i]);
        lemma_entries_map_at(es.drop_last(), i);
        assert(es.last().name != es[i].name);
    }
}

proof fn lemma_entries_map_update(es: Seq<NsView>, i: int, ns: NsView)
    requires
        forall|a: int, b: int| 0 <= a < b < es.len() ==> es[a].name != es[b].name,
        0 <= i < es.len(),
        ns.name == es[i].name,
    ensures
        entries_map(es.update(i, ns)) == entries_map(es).insert(ns.name, props_map(ns.props)),
    decreases es.len(),
{
    let esu = es.update(i, ns);
    if i == es.len() - 1 {
        assert(esu.drop_last() =~= es.drop_last());
        assert(entries_map(esu) =~= entries_map(es).insert(ns.name, props_map(ns.props)));
    } else {
        assert(esu.drop_last() =~= es.drop_last().update(i, ns));
        assert(es.drop_last()[i] == es[i]);
        lemma_entries_map_update(es.drop_last(), i, ns);
        assert(es.last().name != ns.name);
        assert(esu.last() == es.last());
        assert(entries_map(esu) =~= entries_map(es).insert(ns.name, props_map(ns.props)));
    }
}

proof fn lemma_entries_map_push(es: Seq<NsView>, ns: NsView)
    ensures
        entries_map(es.push(ns)) == entries_map(es).insert(ns.name, props_map(ns.props)),
{
    assert(es.push(ns).drop_last() =~= es);
}

impl Config {
    /// An empty store.
    pub fn new() -> (c: Config)
        ensures
            c@ == ConfigMap::empty(),
            c.wf(),
            c.entry_view() == Seq::<NsView>::empty(),
    {
        let c = Config { entries: Vec::new() };
        proof {
            assert(c.entry_view() =~= Seq::<NsView>::empty());
        }
        c
    }

    fn find_ns(&self, name: &str) -> (r: Option<usize>)
        ensures
            match r {
                Some(i) => i < self.entry_view().len() && self.entry_view()[i as int].name
                    == name@,
                None => forall|k: int|
                    0 <= k < self.entry_view().len() ==> (#[trigger] self.entry_view()[k]).name
                        != name@,
            },
    {
        let n = self.entries.len();
        for i in 0..n
            invariant
                n == self.entries@.len(),

                forall|k: int|
                    0 <= k < i ==> (#[trigger] self.entry_view()[k]).name != name@,
        {
            if str_eq(self.entries[i].name.as_str(), name) {
                return Some(i);
            }
        }
        None
    }
}

impl Clone for Prop {
    fn clone(&self) -> (r: Self)
        ensures
            r@ == self@,
    {
        Prop { key: self.key.clone(), value: self.value.clone() }
    }
}

impl Clone for Namespace {
    fn clone(&self) -> (r: Self)
        ensures
            r@ == self@,
    {
        let mut props: Vec<Prop> = Vec::new();
        let n = self.props.len();
        for j in 0..n
            invariant
                n == self.props@.len(),
                props@.len() == j,
                forall|k: int| 0 <= k < j ==> (#[trigger] props@[k])@ == self.props@[k]@,
        {
            props.push(self.props[j].clone());
        }
        let r = Namespace { name: self.name.clone(), props };
        proof {
            assert(r@.props =~= self@.props);
        }
        r
    }
}

impl Clone for Config {
    fn clone(&self) -> (r: Self)
        ensures
            r.entry_view() == self.entry_view(),
            r@ == self@,
            r.wf() == self.wf(),
    {
        let mut entries: Vec<Namespace> = Vec::new();
        let n = self.entries.len();
        for i in 0..n
            invariant
                n == self.entries@.len(),
                entries@.len() == i,
                forall|k: int| 0 <= k < i ==> (#[trigger] entries@[k])@ == self.entries@[k]@,
        {
            entries.push(self.entries[i].clone());
        }
        let r = Config { entries };
        proof {
            assert(r.entry_view() =~= self.entry_view());
        }
        r
    }
}

impl Default for Config {
    /// An empty store.
    fn default() -> (c: Config)
        ensures
            c@ == ConfigMap::empty(),
            c.wf(),
            c.entry_view() == Seq::<NsView>::empty(),
    {
        Config::new()
    }
}

fn find_prop(props: &Vec<Prop>, key: &str) -> (r: Option<usize>)
    ensures
        match r {
            Some(j) => j < props@.len() && props@[j as int]@.key == key@,
            None => forall|k: int|
                0 <= k < props@.len() ==> (#[trigger] props@[k]@).key != key@,
        },
{
    let n = props.len();
    for j in 0..n
        invariant
            n == props@.len(),
            forall|k: int| 0 <= k < j ==> (#[trigger] props@[k]@).key != key@,
    {
        if str_eq(props[j].key.as_str(), key) {
            return Some(j);
        }
    }
    None
}

impl Config {
    /// Looks one property up; `None` when the namespace or the property is
    /// absent.
    pub fn get(&self, namespace: &str, property: &str) -> (r: Option<Value>)
        requires
            self.wf(),
        ensures
            r is Some <==> spec_get(self@, namespace@, property@) is Some,
            r matches Some(v) ==> spec_get(self@, namespace@, property@) == Some(v@),
    {
        let ev = Ghost(self.entry_view());
        match self.find_ns(namespace) {
            Some(i) => {
                let props = &self.entries[i].props;
                proof {
                    lemma_entries_map_at(ev@, i as int);
                    lemma_entries_map_dom(ev@, namespace@);
                    assert(ev@[i as int].props == props@.map_values(|p: Prop| p@));
                }
                match find_prop(props, property) {
                    Some(j) => {
                        proof {
                            lemma_props_map_at(ev@[i as int].props, j as int);
                        }
                        Some(self.entries[i].props[j].value.clone())
                    },
                    None => {
                        proof {
                            lemma_props_map_dom(ev@[i as int].props, property@);
                        }
                        None
                    },
                }
            },
            None => {
                proof {
                    lemma_entries_map_dom(ev@, namespace@);
                }
                None
            },
        }
    }

    /// Inserts one property, overwriting an existing one; creates the
    /// namespace when absent.
    pub fn insert(&mut self, namespace: &str, property: &str, value: Value)
        requires
            old(self).wf(),
        ensures
            final(self).wf(),
            final(self)@ == spec_insert(old(self)@, namespace@, property@, value@),
    {
        let ev = Ghost(self.entry_view());
        let p = Ghost(PropView { key: property@, value: value@ });
        match self.find_ns(namespace) {
            Some(i) => {
                proof {
                    lemma_entries_map_at(ev@, i as int);
                    lemma_entries_map_dom(ev@, namespace@);
                }
                let mut ns = self.entries.remove(i);
                let pv = Ghost(ns@.props);
                proof {
                    assert(pv@ == ev@[i as int].props);
                    assert(wf_props(pv@));
                }
                match find_prop(&ns.props, property) {
                    Some(j) => {
                        let mut pr = ns.props.remove(j);
                        pr.value = value;
                        ns.props.insert(j, pr);
                        proof {
                            assert(ns@.props =~= pv@.update(j as int, p@));
                            lemma_props_map_update(pv@, j as int, p@);
                            assert(wf_props(ns@.props)) by {
                                assert(forall|k: int|
                                    0 <= k < pv@.len() ==> (#[trigger] ns@.props[k]).key
                                        == pv@[k].key);
                            }
                        }
                    },
                    None => {
                        let key = property.to_owned();
                        ns.props.push(Prop { key, value });
                        proof {
                            assert(ns@.props =~= pv@.push(p@));
                            lemma_props_map_push(pv@, p@);
                            lemma_props_map_dom(pv@, property@);
                            assert(wf_props(ns@.props)) by {
                                assert(forall|k: int|
                                    0 <= k < pv@.len() ==> (#[trigger] ns@.props[k]) == pv@[k]);
                                assert(ns@.props[pv@.len() as int].key == property@);
                            }
                        }
                    },
                }
                let nsv = Ghost(ns@);
                self.entries.insert(i, ns);
                proof {
                    let evn = self.entry_view();
                    assert(evn =~= ev@.update(i as int, nsv@));
                    lemma_entries_map_update(ev@, i as int, nsv@);
                    assert(self@ =~= spec_insert(old(self)@, namespace@, property@, value@));
                    assert forall|k: int| 0 <= k < evn.len() implies (#[trigger] evn[k]).name
                        == ev@[k].name by {}
                    assert forall|k: int| 0 <= k < evn.len() implies wf_props(
                        (#[trigger] evn[k]).props,
                    ) by {
                        if k != i as int {
                            assert(evn[k] == ev@[k]);
                        }
                    }
                    assert(final(self).wf());
                }
            },
            None => {
                proof {
                    lemma_entries_map_dom(ev@, namespace@);
                }
                let name = namespace.to_owned();
                let key = property.to_owned();
                let mut props: Vec<Prop> = Vec::new();
                props.push(Prop { key, value });
                let ns = Namespace { name, props };
                let nsv = Ghost(ns@);
                proof {
                    assert(nsv@.props =~= seq![p@]);
                    assert(nsv@.props.drop_last() =~= Seq::<PropView>::empty());
                    assert(props_map(Seq::<PropView>::empty()) == Map::<Seq<char>,
                        ValueView,
                    >::empty());
                }
                self.entries.push(ns);
                proof {
                    let evn = self.entry_view();
                    assert(evn =~= ev@.push(nsv@));
                    lemma_entries_map_push(ev@, nsv@);
                    assert(props_map(nsv@.props) =~= Map::<Seq<char>, ValueView>::empty().insert(
                        property@,
                        value@,
                    ));
                    assert(self@ =~= spec_insert(old(self)@, namespace@, property@, value@));
                    assert(wf_props(nsv@.props));
                    assert forall|k: int| 0 <= k < evn.len() implies wf_props(
                        (#[trigger] evn[k]).props,
                    ) by {
                        if k < ev@.len() {
                            assert(evn[k] == ev@[k]);
                        }
                    }
                    assert forall|a: int, b: int| 0 <= a < b < evn.len() implies evn[a].name
                        != evn[b].name by {
                        if b < ev@.len() {
                            assert(evn[a] == ev@[a] && evn[b] == ev@[b]);
                        } else {
                            assert(evn[a] == ev@[a] && evn[b].name == namespace@);
                        }
                    }
                    assert(final(self).wf());
                }
            },
        }
    }

    /// Makes the namespace exist, with unchanged (or no) properties.
    pub(crate) fn ensure_ns(&mut self, namespace: &str)
        requires
            old(self).wf(),
        ensures
            final(self).wf(),
            final(self)@ == spec_touch(old(self)@, namespace@),
    {
        let ev = Ghost(self.entry_view());
        match self.find_ns(namespace) {
            Some(i) => {
                proof {
                    lemma_entries_map_at(ev@, i as int);
                    lemma_entries_map_dom(ev@, namespace@);
                    assert(self@ =~= spec_touch(old(self)@, namespace@));
                }
            },
            None => {
                proof {
                    lemma_entries_map_dom(ev@, namespace@);
                }
                let name = namespace.to_owned();
                let ns = Namespace { name, props: Vec::new() };
                let nsv = Ghost(ns@);
                self.entries.push(ns);
                proof {
                    let evn = self.entry_view();
                    assert(nsv@.props =~= Seq::<PropView>::empty());
                    assert(evn =~= ev@.push(nsv@));
                    lemma_entries_map_push(ev@, nsv@);
                    assert(self@ =~= spec_touch(old(self)@, namespace@));
                    assert(wf_props(nsv@.props));
                    assert forall|k: int| 0 <= k < evn.len() implies wf_props(
                        (#[trigger] evn[k]).props,
                    ) by {
                        if k < ev@.len() {
                            assert(evn[k] == ev@[k]);
                        }
                    }
                    assert forall|a: int, b: int| 0 <= a < b < evn.len() implies evn[a].name
                        != evn[b].name by {
                        if b < ev@.len() {
                            assert(evn[a] == ev@[a] && evn[b] == ev@[b]);
                        } else {
                            assert(evn[a] == ev@[a] && evn[b].name == namespace@);
                        }
                    }
                    assert(final(self).wf());
                }
            },
        }
    }

    /// Applies every property of `other` onto `self`; on a conflict
    /// `other`'s value wins.  Namespaces of `other` exist afterwards even
    /// when empty.
    pub fn merge(&mut self, other: &Config)
        requires
            old(self).wf(),
            other.wf(),
        ensures
            final(self).wf(),
            final(self)@ == spec_merge(old(self)@, other@),
    {
        let oev = Ghost(other.entry_view());
        let n = other.entries.len();
        for i in 0..n
            invariant
                self.wf(),
                other.wf(),
                n == other.entries@.len(),
                oev@ == other.entry_view(),
                self@ == apply_nss_upto(old(self)@, oev@, i as int),
        {
            let name_g = Ghost(oev@[i as int].name);
            let props_g = Ghost(oev@[i as int].props);
            self.ensure_ns(other.entries[i].name.as_str());
            let m = other.entries[i].props.len();
            proof {
                assert(m == props_g@.len());
            }
            for j in 0..m
                invariant
                    self.wf(),
                    other.wf(),
                    n == other.entries@.len(),
                    i < n,
                    oev@ == other.entry_view(),
                    m == props_g@.len(),
                    name_g@ == oev@[i as int].name,
                    props_g@ == oev@[i as int].props,
                    self@ == apply_props_upto(
                        spec_touch(apply_nss_upto(old(self)@, oev@, i as int), name_g@),
                        name_g@,
                        props_g@,
                        j as int,
                    ),
            {
                let entry = &other.entries[i];
                let value = entry.props[j].value.clone();
                self.insert(entry.name.as_str(), entry.props[j].key.as_str(), value);
                proof {
                    assert(entry@ == oev@[i as int]);
                    assert(entry.props@[j as int]@ == props_g@[j as int]);
                }
            }
            proof {
                assert(self@ == apply_ns_full(
                    apply_nss_upto(old(self)@, oev@, i as int),
                    oev@[i as int],
                ));
            }
        }
        proof {
            lemma_apply_nss_merge(old(self)@, oev@, n as int);
            assert(oev@.take(n as int) =~= oev@);
        }
    }

    /// Removes one property and returns its value; a missing namespace or
    /// property is a no-op answering `None`.
    pub fn remove_property(&mut self, namespace: &str, property: &str) -> (r: Option<Value>)
        requires
            old(self).wf(),
        ensures
            final(self).wf(),
            final(self)@ == spec_remove(old(self)@, namespace@, property@),
            r is Some <==> spec_get(old(self)@, namespace@, property@) is Some,
            r matches Some(v) ==> spec_get(old(self)@, namespace@, property@) == Some(v@),
    {
        let ev = Ghost(self.entry_view());
        match self.find_ns(namespace) {
            Some(i) => {
                proof {
                    lemma_entries_map_at(ev@, i as int);
                    lemma_entries_map_dom(ev@, namespace@);
                }
                let mut ns = self.entries.remove(i);
                let pv = Ghost(ns@.props);
                proof {
                    assert(pv@ == ev@[i as int].props);
                    assert(wf_props(pv@));
                }
                let r = match find_prop(&ns.props, property) {
                    Some(j) => {
                        proof {
                            lemma_props_map_at(pv@, j as int);
                            lemma_props_map_remove(pv@, j as int);
                        }
                        let pr = ns.props.remove(j);
                        proof {
                            assert(ns@.props =~= pv@.remove(j as int));
                            assert(wf_props(ns@.props)) by {
                                assert(forall|k: int|
                                    0 <= k < pv@.len() - 1 ==> (#[trigger] ns@.props[k]) == (
                                    if k < j {
                                        pv@[k]
                                    } else {
                                        pv@[k + 1]
                                    }));
                            }
                        }
                        Some(pr.value)
                    },
                    None => {
                        proof {
                            lemma_props_map_dom(pv@, property@);
                            assert(props_map(pv@).remove(property@) =~= props_map(pv@));
                        }
                        None
                    },
                };
                let nsv = Ghost(ns@);
                self.entries.insert(i, ns);
                proof {
                    let evn = self.entry_view();
                    assert(evn =~= ev@.update(i as int, nsv@));
                    lemma_entries_map_update(ev@, i as int, nsv@);
                    assert(self@ =~= spec_remove(old(self)@, namespace@, property@));
                    assert forall|k: int| 0 <= k < evn.len() implies (#[trigger] evn[k]).name
                        == ev@[k].name by {}
                    assert forall|k: int| 0 <= k < evn.len() implies wf_props(
                        (#[trigger] evn[k]).props,
                    ) by {
                        if k != i as int {
                            assert(evn[k] == ev@[k]);
                        }
                    }
                    assert(final(self).wf());
                }
                r
            },
            None => {
                proof {
                    lemma_entries_map_dom(ev@, namespace@);
                }
                None
            },
        }
    }
}

} // verus!
