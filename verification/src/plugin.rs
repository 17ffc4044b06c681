//! The plugin host: a registry of plugins in registration order.  A
//! loaded plugin may rewrite one incoming action into an ordered list of
//! generic actions; the first loaded plugin that answers wins, and the
//! default is to pass the action through unchanged.
//!
//! Plugin behavior is, on purpose, a closed capability rather than an
//! open trait: either passive, or a table of rewrite rules matched
//! against the incoming action alone.  This narrows the extension
//! surface — a plugin cannot observe the session state while rewriting,
//! and there are no registration or load hooks beyond the lifecycle flag
//! — but in exchange the whole pipeline is a function of the registry
//! and the action, and every contract downstream of `process_action` is
//! exact.  A richer plugin therefore lives outside the session core and
//! speaks to it the same way the window does: by feeding messages in.

use vstd::prelude::*;

use crate::action::{same_generic_action, Action, GenericAction, GenericActionView};
use crate::text::str_eq;

verus! {

/// Identifier of a registered plugin.
pub type PluginId = String;

/// Metadata of a plugin.
#[derive(Debug)]
pub struct PluginInfo {
    pub name: String,
    pub id: String,
    pub author: String,
    pub version: String,
    pub description: String,
}

/// Mathematical image of plugin metadata.
pub struct PluginInfoView {
    pub name: Seq<char>,
    pub id: Seq<char>,
    pub author: Seq<char>,
    pub version: Seq<char>,
    pub description: Seq<char>,
}

impl View for PluginInfo {
    type V = PluginInfoView;

    open spec fn view(&self) -> PluginInfoView {
        PluginInfoView {
            name: self.name@,
            id: self.id@,
            author: self.author@,
            version: self.version@,
            description: self.description@,
        }
    }
}

impl PluginInfo {
    /// Empty metadata, to be filled by the builder methods.
    pub fn new() -> (r: PluginInfo)
        ensures
            r@.name.len() == 0,
            r@.id.len() == 0,
            r@.author.len() == 0,
            r@.version.len() == 0,
            r@.description.len() == 0,
    {
        PluginInfo {
            name: String::new(),
            id: String::new(),
            author: String::new(),
            version: String::new(),
            description: String::new(),
        }
    }

    /// Sets the display name.
    pub fn name(self, name: &str) -> (r: PluginInfo)
        ensures
            r@ == (PluginInfoView { name: name@, ..self@ }),
    {
        PluginInfo { name: name.to_owned(), ..self }
    }

    /// Sets the identifier.
    pub fn id(self, id: &str) -> (r: PluginInfo)
        ensures
            r@ == (PluginInfoView { id: id@, ..self@ }),
    {
        PluginInfo { id: id.to_owned(), ..self }
    }

    /// Sets the author.
    pub fn author(self, author: &str) -> (r: PluginInfo)
        ensures
            r@ == (PluginInfoView { author: author@, ..self@ }),
    {
        PluginInfo { author: author.to_owned(), ..self }
    }

    /// Sets the version text.
    pub fn version(self, version: &str) -> (r: PluginInfo)
        ensures
            r@ == (PluginInfoView { version: version@, ..self@ }),
    {
        PluginInfo { version: version.to_owned(), ..self }
    }

    /// Sets the description.
    pub fn description(self, description: &str) -> (r: PluginInfo)
        ensures
            r@ == (PluginInfoView { description: description@, ..self@ }),
    {
        PluginInfo { description: description.to_owned(), ..self }
    }
}

/// One rewrite rule: an action it answers to, and what it emits then.
#[derive(Debug)]
pub struct RewriteRule {
    pub on: GenericAction,
    pub emit: Vec<GenericAction>,
}

/// Mathematical image of a rewrite rule.
pub struct RewriteRuleView {
    pub on: GenericActionView,
    pub emit: Seq<GenericActionView>,
}

/// The character sequences of a list of generic actions.
pub open spec fn gas_view(s: Seq<GenericAction>) -> Seq<GenericActionView> {
    s.map_values(|g: GenericAction| g@)
}

impl View for RewriteRule {
    type V = RewriteRuleView;

    open spec fn view(&self) -> RewriteRuleView {
        RewriteRuleView { on: self.on@, emit: gas_view(self.emit@) }
    }
}

/// What a plugin does with an incoming action.
#[derive(Debug)]
pub enum PluginBehavior {
    /// Passes every action through unchanged.
    Passive,
    /// Rewrites an exactly matching action into a fixed list; other
    /// actions pass through.
    Rewrite(Vec<RewriteRule>),
}

/// Mathematical image of a behavior.
pub enum PluginBehaviorView {
    Passive,
    Rewrite(Seq<RewriteRuleView>),
}

impl View for PluginBehavior {
    type V = PluginBehaviorView;

    open spec fn view(&self) -> PluginBehaviorView {
        match self {
            PluginBehavior::Passive => PluginBehaviorView::Passive,
            PluginBehavior::Rewrite(rules) => PluginBehaviorView::Rewrite(
                rules@.map_values(|r: RewriteRule| r@),
            ),
        }
    }
}

/// One registered plugin: metadata, lifecycle flag, behavior.
#[derive(Debug)]
pub struct PluginRecord {
    pub info: PluginInfo,
    pub loaded: bool,
    pub behavior: PluginBehavior,
}

/// Mathematical image of a plugin record.
pub struct PluginRecordView {
    pub info: PluginInfoView,
    pub loaded: bool,
    pub behavior: PluginBehaviorView,
}

impl View for PluginRecord {
    type V = PluginRecordView;

    open spec fn view(&self) -> PluginRecordView {
        PluginRecordView { info: self.info@, loaded: self.loaded, behavior: self.behavior@ }
    }
}

/// The registry of plugins, in registration order.
#[derive(Debug)]
pub struct PluginHost {
    pub(crate) plugins: Vec<PluginRecord>,
}

impl PluginHost {
    /// The registered plugins in order, as mathematical values.
    pub open(crate) spec fn records(&self) -> Seq<PluginRecordView> {
        self.plugins@.map_values(|r: PluginRecord| r@)
    }
}

impl View for PluginHost {
    type V = Seq<PluginRecordView>;

    open spec fn view(&self) -> Seq<PluginRecordView> {
        self.records()
    }
}

/// What a rule table answers for one action: the emission of the first
/// matching rule, or nothing.
pub open spec fn rule_output(
    rules: Seq<RewriteRuleView>,
    a: GenericActionView,
) -> Option<Seq<GenericActionView>>
    decreases rules.len(),
{
    if rules.len() == 0 {
        None
    } else if rules.first().on == a {
        Some(rules.first().emit)
    } else {
        rule_output(rules.drop_first(), a)
    }
}

/// What a behavior answers for one action; `None` passes through.
pub open spec fn behavior_output(
    b: PluginBehaviorView,
    a: GenericActionView,
) -> Option<Seq<GenericActionView>> {
    match b {
        PluginBehaviorView::Passive => None,
        PluginBehaviorView::Rewrite(rules) => rule_output(rules, a),
    }
}

/// The action list the host produces: the answer of the first loaded
/// plugin that gives one, else the action itself.
pub open spec fn host_process(
    rs: Seq<PluginRecordView>,
    a: GenericActionView,
) -> Seq<GenericActionView>
    decreases rs.len(),
{
    if rs.len() == 0 {
        seq![a]
    } else if rs.first().loaded && behavior_output(rs.first().behavior, a) is Some {
        behavior_output(rs.first().behavior, a)->0
    } else {
        host_process(rs.drop_first(), a)
    }
}

fn clone_actions(v: &Vec<GenericAction>) -> (r: Vec<GenericAction>)
    ensures
        gas_view(r@) == gas_view(v@),
{
    let mut r: Vec<GenericAction> = Vec::new();
    let n = v.len();
    for i in 0..n
        invariant
            n == v@.len(),
            r@.len() == i,
            forall|k: int| 0 <= k < i ==> (#[trigger] r@[k])@ == v@[k]@,
    {
        r.push(v[i].clone());
    }
    proof {
        assert(gas_view(r@) =~= gas_view(v@));
    }
    r
}

fn rules_answer(rules: &Vec<RewriteRule>, action: &GenericAction) -> (r: Option<
    Vec<GenericAction>,
>)
    ensures
        r is Some <==> rule_output(rules@.map_values(|x: RewriteRule| x@), action@) is Some,
        r matches Some(v) ==> Some(gas_view(v@)) == rule_output(
            rules@.map_values(|x: RewriteRule| x@),
            action@,
        ),
{
    let rv = Ghost(rules@.map_values(|x: RewriteRule| x@));
    proof {
        assert(rv@.skip(0) =~= rv@);
    }
    let n = rules.len();
    for i in 0..n
        invariant
            n == rules@.len(),
            rv@ == rules@.map_values(|x: RewriteRule| x@),
            rule_output(rv@, action@) == rule_output(rv@.skip(i as int), action@),
    {
        proof {
            assert(rv@.skip(i as int).first() == rv@[i as int]);
            assert(rv@.skip(i as int).drop_first() =~= rv@.skip(i + 1));
        }
        if same_generic_action(&rules[i].on, action) {
            return Some(clone_actions(&rules[i].emit));
        }
    }
    proof {
        assert(rv@.skip(n as int) =~= Seq::<RewriteRuleView>::empty());
    }
    None
}

impl PluginHost {
    /// An empty registry.
    pub fn new() -> (h: PluginHost)
        ensures
            h@ == Seq::<PluginRecordView>::empty(),
    {
        let h = PluginHost { plugins: Vec::new() };
        proof {
            assert(h@ =~= Seq::<PluginRecordView>::empty());
        }
        h
    }

    /// Registers a plugin, unloaded, at the end of the order.  A second
    /// registration under an already-used identifier is rejected.
    pub fn register_plugin(&mut self, info: PluginInfo, behavior: PluginBehavior) -> (ok: bool)
        ensures
            ok <==> !(exists|i: int|
                0 <= i < old(self)@.len() && (#[trigger] old(self)@[i]).info.id == info@.id),
            ok ==> final(self)@ == old(self)@.push(
                PluginRecordView { info: info@, loaded: false, behavior: behavior@ },
            ),
            !ok ==> final(self)@ == old(self)@,
    {
        let n = self.plugins.len();
        for i in 0..n
            invariant
                n == self.plugins@.len(),
                forall|k: int| 0 <= k < i ==> (#[trigger] self@[k]).info.id != info@.id,
        {
            if str_eq(self.plugins[i].info.id.as_str(), info.id.as_str()) {
                proof {
                    assert((#[trigger] self@[i as int]).info.id == info@.id);
                }
                return false;
            }
        }
        let rec = PluginRecord { info, loaded: false, behavior };
        let rv = Ghost(rec@);
        self.plugins.push(rec);
        proof {
            assert(self@ =~= old(self)@.push(rv@));
        }
        true
    }

    /// The identifiers of the registered plugins, in registration order.
    pub fn get_plugin_ids(&self) -> (ids: Vec<String>)
        ensures
            ids@.len() == self@.len(),
            forall|i: int| 0 <= i < self@.len() ==> (#[trigger] ids@[i])@ == self@[i].info.id,
    {
        let mut ids: Vec<String> = Vec::new();
        let n = self.plugins.len();
        for i in 0..n
            invariant
                n == self.plugins@.len(),
                ids@.len() == i,
                forall|k: int| 0 <= k < i ==> (#[trigger] ids@[k])@ == self@[k].info.id,
        {
            ids.push(self.plugins[i].info.id.clone());
        }
        ids
    }

    fn set_loaded(&mut self, id: &str, loaded: bool) -> (found: bool)
        ensures
            final(self)@.len() == old(self)@.len(),
            forall|i: int|
                0 <= i < old(self)@.len() ==> (#[trigger] final(self)@[i]) == (if old(
                    self,
                )@[i].info.id == id@ {
                    PluginRecordView { loaded, ..old(self)@[i] }
                } else {
                    old(self)@[i]
                }),
            found <==> exists|i: int|
                0 <= i < old(self)@.len() && (#[trigger] old(self)@[i]).info.id == id@,
    {
        let mut found = false;
        let n = self.plugins.len();
        for i in 0..n
            invariant
                n == self.plugins@.len(),
                self@.len() == old(self)@.len(),
                forall|k: int|
                    i <= k < n ==> (#[trigger] self@[k]) == old(self)@[k],
                forall|k: int|
                    0 <= k < i ==> (#[trigger] self@[k]) == (if old(self)@[k].info.id == id@ {
                        PluginRecordView { loaded, ..old(self)@[k] }
                    } else {
                        old(self)@[k]
                    }),
                found <==> exists|k: int|
                    0 <= k < i && (#[trigger] old(self)@[k]).info.id == id@,
        {
            let snap = Ghost(self@);
            proof {
                assert(snap@[i as int] == old(self)@[i as int]);
            }
            if str_eq(self.plugins[i].info.id.as_str(), id) {
                let mut rec = self.plugins.remove(i);
                rec.loaded = loaded;
                let rv = Ghost(rec@);
                self.plugins.insert(i, rec);
                proof {
                    assert(snap@[i as int] == old(self)@[i as int]);
                    assert(self@ =~= snap@.update(i as int, rv@));
                    assert(old(self)@[i as int].info.id == id@);
                    assert(rv@ == (PluginRecordView { loaded, ..old(self)@[i as int] }));
                }
                found = true;
            }
        }
        found
    }

    /// Marks a plugin loaded; an unknown identifier is a no-op.
    pub fn load_plugin(&mut self, id: &str) -> (found: bool)
        ensures
            final(self)@.len() == old(self)@.len(),
            forall|i: int|
                0 <= i < old(self)@.len() ==> (#[trigger] final(self)@[i]) == (if old(
                    self,
                )@[i].info.id == id@ {
                    PluginRecordView { loaded: true, ..old(self)@[i] }
                } else {
                    old(self)@[i]
                }),
            found <==> exists|i: int|
                0 <= i < old(self)@.len() && (#[trigger] old(self)@[i]).info.id == id@,
    {
        self.set_loaded(id, true)
    }

    /// Marks a plugin unloaded; an unknown identifier is a no-op.
    pub fn unload_plugin(&mut self, id: &str) -> (found: bool)
        ensures
            final(self)@.len() == old(self)@.len(),
            forall|i: int|
                0 <= i < old(self)@.len() ==> (#[trigger] final(self)@[i]) == (if old(
                    self,
                )@[i].info.id == id@ {
                    PluginRecordView { loaded: false, ..old(self)@[i] }
                } else {
                    old(self)@[i]
                }),
            found <==> exists|i: int|
                0 <= i < old(self)@.len() && (#[trigger] old(self)@[i]).info.id == id@,
    {
        self.set_loaded(id, false)
    }

    /// Offers one action to the loaded plugins in registration order; the
    /// first that answers determines the resulting list, and with no
    /// answer the action passes through as a singleton.
    pub fn process_action(&self, action: &Action) -> (out: Vec<GenericAction>)
        ensures
            gas_view(out@) == host_process(self@, action@),
    {
        proof {
            assert(self@.skip(0) =~= self@);
        }
        let n = self.plugins.len();
        for i in 0..n
            invariant
                n == self.plugins@.len(),
                host_process(self@, action@) == host_process(self@.skip(i as int), action@),
        {
            proof {
                assert(self@.skip(i as int).first() == self@[i as int]);
                assert(self@.skip(i as int).drop_first() =~= self@.skip(i + 1));
            }
            if self.plugins[i].loaded {
                match &self.plugins[i].behavior {
                    PluginBehavior::Passive => {},
                    PluginBehavior::Rewrite(rules) => {
                        match rules_answer(rules, &action.generic) {
                            Some(out) => {
                                return out;
                            },
                            None => {},
                        }
                    },
                }
            }
        }
        proof {
            assert(self@.skip(n as int) =~= Seq::<PluginRecordView>::empty());
        }
        let mut out: Vec<GenericAction> = Vec::new();
        out.push(action.generic.clone());
        proof {
            assert(gas_view(out@) =~= seq![action@]);
        }
        out
    }
}

} // verus!
