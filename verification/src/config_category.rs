//! Configuration as a category: objects are configuration states, morphisms
//! are reconfigurations (partial updates with a cost), composition chains
//! reconfigurations (changes merge, later ones winning) and the identity is
//! the no-op reconfiguration.
//!
//! Costs are binary64 bit patterns; the cost of a composite (the sum of the
//! two costs) is computed by the numeric front end and handed in.

use vstd::prelude::*;
use vstd::string::*;
use std::collections::HashMap;
use crate::keyed::{entry_map, keys_distinct, set_entry, lemma_entry_map_views};

verus! {

/// A configuration value. `Float` holds a binary64 bit pattern.
#[derive(Debug, Clone, PartialEq)]
pub enum ConfigValue {
    Bool(bool),
    Int(i64),
    Float(u64),
    Str(String),
}

/// Mathematical view of a configuration value.
pub enum ValueView {
    Bool(bool),
    Int(i64),
    Float(u64),
    Str(Seq<char>),
}

impl View for ConfigValue {
    type V = ValueView;

    open spec fn view(&self) -> ValueView {
        match self {
            ConfigValue::Bool(b) => ValueView::Bool(*b),
            ConfigValue::Int(i) => ValueView::Int(*i),
            ConfigValue::Float(f) => ValueView::Float(*f),
            ConfigValue::Str(s) => ValueView::Str(s@),
        }
    }
}

impl ConfigValue {
    /// A copy of the value.
    pub fn duplicate(&self) -> (r: Self)
        ensures
            r@ == self@,
    {
        match self {
            ConfigValue::Bool(b) => ConfigValue::Bool(*b),
            ConfigValue::Int(i) => ConfigValue::Int(*i),
            ConfigValue::Float(f) => ConfigValue::Float(*f),
            ConfigValue::Str(s) => ConfigValue::Str(s.clone()),
        }
    }
}

/// Key-value parameters, each key at most once.
pub type ParamMap = Vec<(String, ConfigValue)>;

/// The parameters as a map; a later entry for a key overrides an earlier
/// one.
pub open spec fn param_map(entries: Seq<(String, ConfigValue)>) -> Map<Seq<char>, ValueView> {
    entry_map(entries)
}

/// A PLATO configuration state.
#[derive(Debug, Clone)]
pub struct Config {
    /// Unique config identifier.
    pub id: String,
    /// Key-value parameters.
    pub params: ParamMap,
    /// Version.
    pub version: u64,
}

/// A morphism (reconfiguration) from one config to another. `cost` is a
/// binary64 bit pattern.
#[derive(Debug, Clone)]
pub struct Reconfiguration {
    pub source_id: String,
    pub target_id: String,
    /// Changes applied.
    pub changes: ParamMap,
    /// Cost of this reconfiguration.
    pub cost: u64,
}

/// Mathematical view of a reconfiguration.
pub struct ReconfigurationView {
    pub source: Seq<char>,
    pub target: Seq<char>,
    pub changes: Map<Seq<char>, ValueView>,
    pub cost: u64,
}

impl View for Reconfiguration {
    type V = ReconfigurationView;

    open spec fn view(&self) -> ReconfigurationView {
        ReconfigurationView {
            source: self.source_id@,
            target: self.target_id@,
            changes: param_map(self.changes@),
            cost: self.cost,
        }
    }
}

/// `g ∘ f` with the given cost: defined when `f` ends where `g` starts; it
/// goes from the source of `f` to the target of `g` and applies the
/// changes of `f` and then those of `g`.
pub open spec fn composite(f: ReconfigurationView, g: ReconfigurationView, cost: u64) -> Option<
    ReconfigurationView,
> {
    if f.target != g.source {
        None
    } else {
        Some(
            ReconfigurationView {
                source: f.source,
                target: g.target,
                changes: f.changes.union_prefer_right(g.changes),
                cost,
            },
        )
    }
}

/// The identity at `id`: no changes, cost +0.0.
pub open spec fn identity_at(id: Seq<char>) -> ReconfigurationView {
    ReconfigurationView { source: id, target: id, changes: Map::empty(), cost: 0 }
}

/// The category of configurations.
#[derive(Debug, Clone)]
pub struct ConfigCategory {
    /// Objects (configs), keyed by their identifiers.
    pub configs: Vec<Config>,
    /// Morphisms (reconfigurations).
    pub morphisms: Vec<Reconfiguration>,
}

/// A functor from one config category to another (config transformation).
#[derive(Debug, Clone)]
pub struct ConfigFunctor {
    /// Mapping of object IDs.
    pub object_map: HashMap<String, String>,
    /// Mapping of morphism indices.
    pub morphism_map: HashMap<usize, usize>,
}

/// A copy of the parameters.
pub fn copy_params(entries: &ParamMap) -> (r: ParamMap)
    ensures
        r@.len() == entries@.len(),
        forall|i: int|
            0 <= i < r@.len() ==> (#[trigger] r@[i]).0@ == entries@[i].0@ && r@[i].1@
                == entries@[i].1@,
        param_map(r@) == param_map(entries@),
        keys_distinct(entries@) ==> keys_distinct(r@),
{
    let mut r: ParamMap = Vec::new();
    let mut i: usize = 0;
    while i < entries.len()
        invariant
            i <= entries.len(),
            r@.len() == i,
            forall|k: int|
                0 <= k < i ==> (#[trigger] r@[k]).0@ == entries@[k].0@ && r@[k].1@
                    == entries@[k].1@,
            param_map(r@) == param_map(entries@.take(i as int)),
        decreases entries.len() - i,
    {
        let entry = (entries[i].0.clone(), entries[i].1.duplicate());
        r.push(entry);
        proof {
            let t = entries@.take(i + 1);
            assert(t.drop_last() =~= entries@.take(i as int));
            lemma_entry_map_views(r@, t);
        }
        i = i + 1;
    }
    proof {
        assert(entries@.take(entries@.len() as int) =~= entries@);
        if keys_distinct(entries@) {
            assert forall|a: int, b: int|
                0 <= a < r@.len() && 0 <= b < r@.len() && a != b implies (#[trigger] r@[a]).0@ != (
            #[trigger] r@[b]).0@ by {
                assert(entries@[a].0@ != entries@[b].0@);
            }
        }
    }
    r
}

/// `base` overridden by `over`: every entry of `over`, in order, set on a
/// copy of `base`.
pub fn merged_changes(base: &ParamMap, over: &ParamMap) -> (r: ParamMap)
    requires
        keys_distinct(base@),
    ensures
        keys_distinct(r@),
        param_map(r@) == param_map(base@).union_prefer_right(param_map(over@)),
{
    let mut r = copy_params(base);
    let mut i: usize = 0;
    while i < over.len()
        invariant
            i <= over.len(),
            keys_distinct(r@),
            param_map(r@) == param_map(base@).union_prefer_right(param_map(over@.take(i as int))),
        decreases over.len() - i,
    {
        let key = over[i].0.clone();
        let value = over[i].1.duplicate();
        set_entry(&mut r, key, value);
        proof {
            assert(over@.take(i + 1).drop_last() =~= over@.take(i as int));
            assert(param_map(r@) =~= param_map(base@).union_prefer_right(
                param_map(over@.take(i + 1)),
            ));
        }
        i = i + 1;
    }
    proof {
        assert(over@.take(over@.len() as int) =~= over@);
    }
    r
}

impl ConfigCategory {
    /// An empty category.
    pub fn new() -> (c: Self)
        ensures
            c.configs@.len() == 0,
            c.morphisms@.len() == 0,
    {
        ConfigCategory { configs: Vec::new(), morphisms: Vec::new() }
    }

    /// No two configs share an identifier.
    pub open spec fn ids_distinct(&self) -> bool {
        forall|i: int, j: int|
            0 <= i < self.configs@.len() && 0 <= j < self.configs@.len() && i != j ==> (
            #[trigger] self.configs@[i]).id@ != (#[trigger] self.configs@[j]).id@
    }

    /// Add a configuration object; it replaces the config with the same
    /// identifier, if any.
    pub fn add_config(&mut self, config: Config)
        ensures
            final(self).morphisms == old(self).morphisms,
            (forall|i: int|
                0 <= i < old(self).configs@.len() ==> (#[trigger] old(self).configs@[i]).id@
                    != config.id@) ==> final(self).configs@ == old(self).configs@.push(config),
            forall|i: int|
                0 <= i < old(self).configs@.len() && (#[trigger] old(self).configs@[i]).id@
                    == config.id@ && (forall|j: int|
                    0 <= j < i ==> old(self).configs@[j].id@ != config.id@) ==> final(self).configs@
                    == old(self).configs@.update(i, config),
            old(self).ids_distinct() ==> final(self).ids_distinct(),
    {
        let mut i: usize = 0;
        while i < self.configs.len()
            invariant
                i <= self.configs.len(),
                self.configs == old(self).configs,
                self.morphisms == old(self).morphisms,
                forall|j: int| 0 <= j < i ==> (#[trigger] self.configs@[j]).id@ != config.id@,
            decreases self.configs.len() - i,
        {
            if self.configs[i].id == config.id {
                let ghost before = self.configs@;
                self.configs.set(i, config);
                proof {
                    assert forall|a: int, b: int|
                        0 <= a < self.configs@.len() && 0 <= b < self.configs@.len() && a != b
                            && old(self).ids_distinct() implies (#[trigger] self.configs@[a]).id@ != (
                    #[trigger] self.configs@[b]).id@ by {
                        if a != i {
                            assert(before[a] == self.configs@[a]);
                        }
                        if b != i {
                            assert(before[b] == self.configs@[b]);
                        }
                    }
                    assert forall|k: int|
                        0 <= k < before.len() && (#[trigger] before[k]).id@ == config.id@ && (forall|
                            j: int,
                        | 0 <= j < k ==> before[j].id@ != config.id@) implies self.configs@
                        == before.update(k, config) by {
                        if k > i {
                            assert(before[i as int].id@ == config.id@);
                        }
                    }
                }
                return;
            }
            i = i + 1;
        }
        let ghost before = self.configs@;
        self.configs.push(config);
        proof {
            assert forall|a: int, b: int|
                0 <= a < self.configs@.len() && 0 <= b < self.configs@.len() && a != b
                    && old(self).ids_distinct() implies (#[trigger] self.configs@[a]).id@ != (
            #[trigger] self.configs@[b]).id@ by {
                if a < before.len() {
                    assert(before[a] == self.configs@[a]);
                }
                if b < before.len() {
                    assert(before[b] == self.configs@[b]);
                }
            }
        }
    }

    /// Add a morphism (reconfiguration).
    pub fn add_morphism(&mut self, morphism: Reconfiguration)
        ensures
            final(self).configs == old(self).configs,
            final(self).morphisms@ == old(self).morphisms@.push(morphism),
    {
        self.morphisms.push(morphism);
    }

    /// Identity morphism: a no-op reconfiguration with cost +0.0.
    pub fn identity(config_id: &str) -> (r: Reconfiguration)
        ensures
            r@ == identity_at(config_id@),
            keys_distinct(r.changes@),
    {
        let r = Reconfiguration {
            source_id: String::from_str(config_id),
            target_id: String::from_str(config_id),
            changes: Vec::new(),
            cost: 0,
        };
        proof {
            assert(param_map(r.changes@) =~= Map::empty());
        }
        r
    }

    /// Compose two morphisms, `g ∘ f`, giving the composite the cost
    /// `cost`. `None` when the target of `f` is not the source of `g`.
    pub fn compose(f: &Reconfiguration, g: &Reconfiguration, cost: u64) -> (r: Option<
        Reconfiguration,
    >)
        requires
            keys_distinct(f.changes@),
        ensures
            r matches Some(c) ==> keys_distinct(c.changes@),
            match r {
                Some(c) => composite(f@, g@, cost) == Some(c@),
                None => composite(f@, g@, cost) is None,
            },
    {
        if f.target_id != g.source_id {
            return None;
        }
        let changes = merged_changes(&f.changes, &g.changes);
        Some(
            Reconfiguration {
                source_id: f.source_id.clone(),
                target_id: g.target_id.clone(),
                changes,
                cost,
            },
        )
    }

    /// Number of configs.
    pub fn len(&self) -> (n: usize)
        ensures
            n == self.configs@.len(),
    {
        self.configs.len()
    }

    /// Whether there are no configs.
    pub fn is_empty(&self) -> (r: bool)
        ensures
            r == (self.configs@.len() == 0),
    {
        self.configs.len() == 0
    }
}

impl Default for ConfigCategory {
    fn default() -> (c: Self)
        ensures
            c.configs@.len() == 0,
            c.morphisms@.len() == 0,
    {
        ConfigCategory::new()
    }
}

/// Left identity: `f ∘ id` is `f` up to its cost.
pub proof fn law_identity_left(f: ReconfigurationView, cost: u64)
    ensures
        composite(identity_at(f.source), f, cost) == Some(ReconfigurationView { cost, ..f }),
{
    assert(Map::<Seq<char>, ValueView>::empty().union_prefer_right(f.changes) =~= f.changes);
}

/// Right identity: `id ∘ f` is `f` up to its cost.
pub proof fn law_identity_right(f: ReconfigurationView, cost: u64)
    ensures
        composite(f, identity_at(f.target), cost) == Some(ReconfigurationView { cost, ..f }),
{
    assert(f.changes.union_prefer_right(Map::<Seq<char>, ValueView>::empty()) =~= f.changes);
}

/// Associativity: for composable `f`, `g`, `h`, `(h ∘ g) ∘ f` and
/// `h ∘ (g ∘ f)` both exist and agree on source, target and changes.
pub proof fn law_associative(
    f: ReconfigurationView,
    g: ReconfigurationView,
    h: ReconfigurationView,
    c1: u64,
    c2: u64,
    c3: u64,
    c4: u64,
)
    requires
        f.target == g.source,
        g.target == h.source,
    ensures
        ({
            let left = composite(composite(f, g, c1).unwrap(), h, c2);
            let right = composite(f, composite(g, h, c3).unwrap(), c4);
            &&& left is Some
            &&& right is Some
            &&& left.unwrap().source == right.unwrap().source
            &&& left.unwrap().target == right.unwrap().target
            &&& left.unwrap().changes == right.unwrap().changes
        }),
{
    let left = f.changes.union_prefer_right(g.changes).union_prefer_right(h.changes);
    let right = f.changes.union_prefer_right(g.changes.union_prefer_right(h.changes));
    assert(left =~= right);
}

/// Composition `g ∘ f` exists exactly when `f` ends where `g` starts; it
/// then goes from the source of `f` to the target of `g`, changes exactly
/// the keys either changes, gives each key changed by `g` the value of
/// `g`, and each key changed only by `f` the value of `f`.
pub proof fn law_compose_changes(f: ReconfigurationView, g: ReconfigurationView, cost: u64)
    ensures
        composite(f, g, cost) is Some <==> f.target == g.source,
        composite(f, g, cost) matches Some(h) ==> {
            &&& h.source == f.source
            &&& h.target == g.target
            &&& h.cost == cost
            &&& h.changes.dom() == f.changes.dom() + g.changes.dom()
            &&& forall|k: Seq<char>| #[trigger] g.changes.dom().contains(k) ==> h.changes[k] == g.changes[k]
            &&& forall|k: Seq<char>|
                #[trigger] f.changes.dom().contains(k) && !g.changes.dom().contains(k) ==> h.changes[k]
                    == f.changes[k]
        },
{
    if f.target == g.source {
        let h = composite(f, g, cost).unwrap();
        assert(h.changes.dom() =~= f.changes.dom() + g.changes.dom());
    }
}

} // verus!
