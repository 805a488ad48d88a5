//! The catalog and what is computed from it.

use crate::catalog::{ChainDef, ChainDefView};
use crate::env::Env;
use crate::error::Error;
use crate::graph::{
    closure, complete, each_once, edge, expected_stages, has_cycle, keep, layer, layer_count,
    layer_occupied, layered_in, lemma_closed_set_covers, lemma_cycle_never_layered,
    lemma_layer_count_unique, lemma_reach_step, lemma_resolved_within, lemma_root_reachable,
    lemma_stages_sound, lemma_stall_has_cycle, pre_done, prerequisites_first, reachable, resolved,
    stage, stages, stalls_at, Graph, Name,
};
use crate::text::{
    copy_opt_text, copy_opt_texts, copy_texts, lemma_bytes_le_total, lemma_bytes_le_transitive,
    name_le, same_text, str_le,
};
use vstd::prelude::*;

verus! {

/// The catalog: chains under distinct names, in the order they were added,
/// and the environment that every task starts from.
#[derive(Debug)]
pub struct Config {
    chains: Vec<(String, ChainDef)>,
    env: Env,
}

/// The mathematical view of `Config`.
pub struct ConfigView {
    pub chains: Seq<(Seq<char>, ChainDefView)>,
    pub env: Map<Seq<char>, Seq<char>>,
}

impl ConfigView {
    /// Position `i` holds the chain called `name`.
    pub open spec fn holds(self, i: int, name: Name) -> bool {
        0 <= i < self.chains.len() && self.chains[i].0 == name
    }

    /// The catalog has a chain called `name`.
    pub open spec fn has(self, name: Name) -> bool {
        exists|i: int| self.holds(i, name)
    }

    /// The position of the chain called `name`.
    pub open spec fn index_of(self, name: Name) -> int {
        choose|i: int| self.holds(i, name)
    }

    /// The chain called `name`.
    pub open spec fn chain(self, name: Name) -> ChainDefView {
        self.chains[self.index_of(name)].1
    }

    /// The names of the chains, in catalog order.
    pub open spec fn names(self) -> Seq<Name> {
        Seq::new(self.chains.len(), |i: int| self.chains[i].0)
    }

    /// The prerequisites of each chain.
    pub open spec fn graph(self) -> Graph {
        Map::new(|n: Name| self.has(n), |n: Name| self.chain(n).prerequisites())
    }

    /// The catalog with `chain` under `name`: in the place of the chain
    /// that had the name, or at the end where none had it.
    pub open spec fn with_chain(self, name: Name, chain: ChainDefView) -> ConfigView {
        if self.has(name) {
            ConfigView { chains: self.chains.update(self.index_of(name), (name, chain)), env: self.env }
        } else {
            ConfigView { chains: self.chains.push((name, chain)), env: self.env }
        }
    }

    /// No two chains share a name.
    pub open spec fn well_formed(self) -> bool {
        forall|i: int, j: int|
            0 <= i < self.chains.len() && 0 <= j < self.chains.len() && i != j ==> self.chains[i].0
                != self.chains[j].0
    }
}

/// The catalog version that this library reads.
pub open spec fn supported_version() -> Seq<char> {
    "0.5"@
}

/// The catalog that holds the given chains, added in order, and the given
/// environment.
pub open spec fn loaded(entries: Seq<(Seq<char>, ChainDefView)>, env: Map<Seq<char>, Seq<char>>) -> ConfigView
    decreases entries.len(),
{
    if entries.len() == 0 {
        ConfigView { chains: Seq::empty(), env }
    } else {
        loaded(entries.drop_last(), env).with_chain(entries.last().0, entries.last().1)
    }
}

/// What a listing says of a chain.
#[derive(Debug)]
pub struct ChainInfo {
    pub name: String,
    pub description: Option<String>,
    pub pre: Option<Vec<String>>,
}

/// The mathematical view of `ChainInfo`.
pub struct ChainInfoView {
    pub name: Seq<char>,
    pub description: Option<Seq<char>>,
    pub pre: Option<Seq<Seq<char>>>,
}

impl DeepView for ChainInfo {
    type V = ChainInfoView;

    open spec fn deep_view(&self) -> ChainInfoView {
        ChainInfoView {
            name: self.name@,
            description: self.description.deep_view(),
            pre: self.pre.deep_view(),
        }
    }
}

impl View for ChainInfo {
    type V = ChainInfoView;

    open spec fn view(&self) -> ChainInfoView {
        self.deep_view()
    }
}

/// The chains of a catalog, for display.
#[derive(Debug)]
pub struct ChainList {
    pub chains: Vec<ChainInfo>,
}

/// The stages of a request, for display.
#[derive(Debug)]
pub struct StageList {
    pub stages: Vec<Vec<String>>,
}

/// What a listing says of a catalog entry.
pub open spec fn info_of(entry: (Seq<char>, ChainDefView)) -> ChainInfoView {
    ChainInfoView { name: entry.0, description: entry.1.description, pre: entry.1.pre }
}

/// Position `t` of a listing holds `info`.
pub open spec fn lists(out: Seq<ChainInfoView>, t: int, info: ChainInfoView) -> bool {
    0 <= t < out.len() && out[t] == info
}

/// The listing shows the chain at position `i` of the catalog.
pub open spec fn shown(cv: ConfigView, out: Seq<ChainInfoView>, i: int) -> bool {
    exists|t: int| lists(out, t, info_of(cv.chains[i]))
}

/// Position `t` of the listing shows one of the first `n` chains of the
/// catalog.
pub open spec fn taken(cv: ConfigView, n: int, out: Seq<ChainInfoView>, t: int) -> bool {
    exists|i: int| 0 <= i < n && lists(out, t, info_of(cv.chains[i]))
}

/// The listing is in the order of names.
pub open spec fn in_name_order(out: Seq<ChainInfoView>) -> bool {
    forall|a: int, b: int| 0 <= a < b < out.len() ==> name_le(out[a].name, out[b].name)
}

/// `out` lists the first `n` chains of the catalog, each once, in the
/// order of their names.
pub open spec fn is_listing(cv: ConfigView, n: int, out: Seq<ChainInfoView>) -> bool {
    &&& out.len() == n
    &&& in_name_order(out)
    &&& forall|i: int| 0 <= i < n ==> #[trigger] shown(cv, out, i)
    &&& forall|t: int| 0 <= t < out.len() ==> #[trigger] taken(cv, n, out, t)
}

/// The names that a request lists.
pub open spec fn requested(exec: Seq<Seq<char>>) -> Set<Name> {
    exec.to_set()
}

/// How many positions of `flags` are not set.
pub open spec fn count_unset(flags: Seq<bool>) -> nat
    decreases flags.len(),
{
    if flags.len() == 0 {
        0
    } else {
        count_unset(flags.drop_last()) + if flags.last() {
            0nat
        } else {
            1nat
        }
    }
}

proof fn lemma_count_unset_set(flags: Seq<bool>, i: int)
    requires
        0 <= i < flags.len(),
        !flags[i],
    ensures
        count_unset(flags.update(i, true)) < count_unset(flags),
    decreases flags.len(),
{
    let after = flags.update(i, true);
    if i == flags.len() - 1 {
        assert(after.drop_last() == flags.drop_last());
    } else {
        assert(after.drop_last() == flags.drop_last().update(i, true));
        lemma_count_unset_set(flags.drop_last(), i);
    }
}

proof fn lemma_count_unset_grows(before: Seq<bool>, after: Seq<bool>)
    requires
        before.len() == after.len(),
        forall|i: int| 0 <= i < before.len() && before[i] ==> after[i],
    ensures
        count_unset(after) <= count_unset(before),
    decreases before.len(),
{
    if before.len() > 0 {
        lemma_count_unset_grows(before.drop_last(), after.drop_last());
    }
}

proof fn lemma_count_unset_drops(before: Seq<bool>, after: Seq<bool>, i: int)
    requires
        before.len() == after.len(),
        forall|j: int| 0 <= j < before.len() && before[j] ==> after[j],
        0 <= i < before.len(),
        !before[i],
        after[i],
    ensures
        count_unset(after) < count_unset(before),
    decreases before.len(),
{
    if i == before.len() - 1 {
        lemma_count_unset_grows(before.drop_last(), after.drop_last());
    } else {
        lemma_count_unset_drops(before.drop_last(), after.drop_last(), i);
    }
}

/// `x` is a chain that was visited, or a name that waits to be.
pub open spec fn covered(cv: ConfigView, seen: Seq<bool>, pending: Seq<String>, x: Name) -> bool {
    ||| exists|i: int| cv.holds(i, x) && seen[i]
    ||| exists|k: int| 0 <= k < pending.len() && pending[k]@ == x
}

/// The names and prerequisites of a well-formed catalog as the graph sees
/// them.
pub proof fn lemma_graph_of(cv: ConfigView, i: int)
    requires
        cv.well_formed(),
        0 <= i < cv.chains.len(),
    ensures
        cv.has(cv.chains[i].0),
        cv.index_of(cv.chains[i].0) == i,
        cv.graph().contains_key(cv.chains[i].0),
        cv.graph()[cv.chains[i].0] == cv.chains[i].1.prerequisites(),
{
    assert(cv.holds(i, cv.chains[i].0));
}

/// The chains of a catalog are finitely many.
pub proof fn lemma_graph_finite(cv: ConfigView)
    ensures
        cv.graph().dom().finite(),
{
    let names = cv.names();
    vstd::seq_lib::seq_to_set_is_finite(names);
    assert forall|n: Name| cv.graph().dom().contains(n) implies names.to_set().contains(n) by {
        let i = choose|i: int| cv.holds(i, n);
        assert(names[i] == n);
    }
    assert(cv.graph().dom().subset_of(names.to_set()));
    vstd::set_lib::lemma_len_subset(cv.graph().dom(), names.to_set());
}

/// A chain called `name` is done.
pub open spec fn met(cv: ConfigView, done: Seq<bool>, name: Name) -> bool {
    exists|t: int| cv.holds(t, name) && done[t]
}

/// Every prerequisite of the chain at `i` is done.
pub open spec fn settled(cv: ConfigView, done: Seq<bool>, i: int) -> bool {
    forall|j: int|
        0 <= j < cv.chains[i].1.prerequisites().len() ==> met(
            cv,
            done,
            #[trigger] cv.chains[i].1.prerequisites()[j],
        )
}

/// For each chain, whether it is out of the way: not reachable, or done.
pub open spec fn closed_flags(seen: Seq<bool>, done: Seq<bool>) -> Seq<bool> {
    Seq::new(seen.len(), |i: int| !seen[i] || done[i])
}

impl View for Config {
    type V = ConfigView;

    closed spec fn view(&self) -> ConfigView {
        ConfigView { chains: self.chains.deep_view(), env: self.env@ }
    }
}

impl Config {
    #[verifier::type_invariant]
    spec fn distinct(self) -> bool {
        self@.well_formed()
    }

    /// The catalog without chains, with the environment `env`.
    pub fn new(env: Env) -> (out: Config)
        ensures
            out@.chains.len() == 0,
            out@.env == env@,
            out@.well_formed(),
    {
        let out = Config { chains: Vec::new(), env };
        assert(out.chains.deep_view() =~= Seq::empty());
        out
    }

    /// Puts `chain` under `name`: in the place of the chain that had the
    /// name, or at the end where none had it.
    pub fn insert(&mut self, name: String, chain: ChainDef)
        ensures
            final(self)@ == old(self)@.with_chain(name@, chain@),
            final(self)@.well_formed(),
    {
        proof {
            use_type_invariant(&*self);
        }
        let ghost cv = self@;
        let found = self.find(&name);
        let mut chains: Vec<(String, ChainDef)> = Vec::new();
        std::mem::swap(&mut chains, &mut self.chains);
        let ghost n = name@;
        let ghost c = chain@;
        match found {
            Some(i) => {
                assert(cv.holds(i as int, n));
                assert(cv.index_of(n) == i);
                chains.set(i, (name, chain));
                assert(chains.deep_view() =~= cv.chains.update(i as int, (n, c)));
            },
            None => {
                chains.push((name, chain));
                assert(chains.deep_view() =~= cv.chains.push((n, c)));
                assert forall|a: int, b: int|
                    0 <= a < chains.deep_view().len() && 0 <= b < chains.deep_view().len() && a
                        != b implies chains.deep_view()[a].0 != chains.deep_view()[b].0 by {
                    if a < cv.chains.len() {
                        assert(!cv.holds(a, n));
                    }
                    if b < cv.chains.len() {
                        assert(!cv.holds(b, n));
                    }
                }
            },
        }
        self.chains = chains;
    }

    /// Reads a catalog that declares `version`: the chains are added in
    /// the order given, a later chain replacing an earlier one of the same
    /// name, and `env` is the environment that every task starts from.
    /// A version other than the supported one is refused.
    pub fn load(version: &str, chains: Vec<(String, ChainDef)>, env: Option<Env>) -> (out: Result<
        Config,
        Error,
    >)
        ensures
            match out {
                Ok(cfg) => {
                    &&& version@ == supported_version()
                    &&& cfg@ == loaded(
                        chains.deep_view(),
                        match env {
                            Some(e) => e@,
                            None => Map::empty(),
                        },
                    )
                    &&& cfg@.well_formed()
                },
                Err(Error::VersionIncompatible(found)) => version@ != supported_version() && found@
                    == version@,
                Err(_) => false,
            },
    {
        if !same_text(version, "0.5") {
            return Err(Error::VersionIncompatible(version.to_owned()));
        }
        let globals = match env {
            Some(e) => e,
            None => Env::new(),
        };
        let ghost all = chains.deep_view();
        let ghost vars = globals@;
        let mut cfg = Config::new(globals);
        let mut rest = chains;
        let ghost mut k: int = 0;
        proof {
            assert(all.take(0) =~= Seq::empty());
            assert(cfg@.chains =~= Seq::empty());
            assert(cfg@ == loaded(all.take(0), vars));
            assert(rest.deep_view() =~= all.skip(0));
        }
        while rest.len() > 0
            invariant
                0 <= k <= all.len(),
                rest.len() == all.len() - k,
                rest.deep_view() == all.skip(k),
                cfg@ == loaded(all.take(k), vars),
                cfg@.well_formed(),
            decreases rest.len(),
        {
            let ghost before = rest.deep_view();
            let (name, chain) = rest.remove(0);
            proof {
                assert(before[0] == (name@, chain@));
                assert(all.skip(k)[0] == all[k]);
                assert(all.take(k + 1).drop_last() =~= all.take(k));
                assert(all.take(k + 1).last() == all[k]);
                assert(rest.deep_view() =~= all.skip(k + 1)) by {
                    assert forall|j: int| 0 <= j < rest.len() implies rest.deep_view()[j] == all.skip(
                        k + 1,
                    )[j] by {
                        assert(before[j + 1] == all.skip(k)[j + 1]);
                    }
                }
            }
            cfg.insert(name, chain);
            proof {
                k = k + 1;
            }
        }
        proof {
            assert(all.take(k) =~= all);
        }
        Ok(cfg)
    }

    /// The number of chains.
    pub fn len(&self) -> (n: usize)
        ensures
            n == self@.chains.len(),
    {
        self.chains.len()
    }

    /// The name of the chain at position `i`.
    pub fn name_at(&self, i: usize) -> (name: &String)
        requires
            i < self@.chains.len(),
        ensures
            name@ == self@.chains[i as int].0,
    {
        &self.chains[i].0
    }

    /// The chain at position `i`.
    pub fn chain_at(&self, i: usize) -> (chain: &ChainDef)
        requires
            i < self@.chains.len(),
        ensures
            chain@ == self@.chains[i as int].1,
    {
        &self.chains[i].1
    }

    /// The environment that every task starts from.
    pub fn env(&self) -> (env: &Env)
        ensures
            env@ == self@.env,
    {
        &self.env
    }

    /// The position of the chain called `name`, if the catalog has it.
    pub fn position(&self, name: &str) -> (r: Option<usize>)
        ensures
            self@.well_formed(),
            match r {
                Some(i) => self@.holds(i as int, name@) && self@.index_of(name@) == i,
                None => !self@.has(name@),
            },
    {
        proof {
            use_type_invariant(self);
        }
        let key = name.to_owned();
        self.find(&key)
    }

    /// The chains of the catalog with their descriptions and
    /// prerequisites, each once, in the order of their names.
    pub fn list(&self) -> (out: ChainList)
        ensures
            is_listing(self@, self@.chains.len() as int, out.chains.deep_view()),
    {
        let ghost cv = self@;
        let mut out: Vec<ChainInfo> = Vec::new();
        let mut i: usize = 0;
        while i < self.chains.len()
            invariant
                cv == self@,
                i <= cv.chains.len(),
                is_listing(cv, i as int, out.deep_view()),
            decreases self.chains.len() - i,
        {
            let info = ChainInfo {
                name: self.chains[i].0.clone(),
                description: copy_opt_text(&self.chains[i].1.description),
                pre: copy_opt_texts(&self.chains[i].1.pre),
            };
            assert(info.deep_view() == info_of(cv.chains[i as int]));
            let ghost before = out.deep_view();
            let mut at: usize = 0;
            while at < out.len() && str_le(out[at].name.as_str(), info.name.as_str())
                invariant
                    at <= out.len(),
                    before == out.deep_view(),
                    forall|t: int| 0 <= t < at ==> name_le(#[trigger] before[t].name, info.name@),
                decreases out.len() - at,
            {
                assert(before[at as int].name == out[at as int].name@);
                at = at + 1;
            }
            proof {
                if at < out.len() {
                    assert(before[at as int].name == out[at as int].name@);
                    assert(!name_le(before[at as int].name, info.name@));
                }
            }
            let ghost added = info.deep_view();
            out.insert(at, info);
            proof {
                let after = out.deep_view();
                assert(after =~= before.insert(at as int, added));
                assert forall|a: int, b: int| 0 <= a < b < after.len() implies name_le(
                    after[a].name,
                    after[b].name,
                ) by {
                    let x = vstd::utf8::encode_utf8(added.name);
                    if a == at {
                        let y = vstd::utf8::encode_utf8(before[at as int].name);
                        let z = vstd::utf8::encode_utf8(before[b - 1].name);
                        lemma_bytes_le_total(y, x);
                        if at < b - 1 {
                            assert(name_le(before[at as int].name, before[b - 1].name));
                            lemma_bytes_le_transitive(x, y, z);
                        }
                    } else if b == at {
                        assert(after[a] == before[a]);
                    } else if a < at && at < b {
                        assert(after[a] == before[a]);
                        assert(after[b] == before[b - 1]);
                        assert(name_le(before[a].name, before[b - 1].name));
                    } else if b < at {
                        assert(after[a] == before[a]);
                        assert(after[b] == before[b]);
                        assert(name_le(before[a].name, before[b].name));
                    } else {
                        assert(after[a] == before[a - 1]);
                        assert(after[b] == before[b - 1]);
                        assert(name_le(before[a - 1].name, before[b - 1].name));
                    }
                }
                assert forall|j: int| 0 <= j < i + 1 implies #[trigger] shown(cv, after, j) by {
                    if j < i {
                        assert(shown(cv, before, j));
                        let t = choose|t: int| lists(before, t, info_of(cv.chains[j]));
                        if t < at {
                            assert(lists(after, t, info_of(cv.chains[j])));
                        } else {
                            assert(after[t + 1] == before[t]);
                            assert(lists(after, t + 1, info_of(cv.chains[j])));
                        }
                    } else {
                        assert(lists(after, at as int, info_of(cv.chains[j])));
                    }
                }
                assert forall|t: int| 0 <= t < after.len() implies #[trigger] taken(
                    cv,
                    i + 1,
                    after,
                    t,
                ) by {
                    if t == at {
                        assert(lists(after, t, info_of(cv.chains[i as int])));
                    } else {
                        let s = if t < at {
                            t
                        } else {
                            t - 1
                        };
                        assert(after[t] == before[s]);
                        assert(taken(cv, i as int, before, s));
                        let j = choose|j: int| 0 <= j < i && lists(before, s, info_of(cv.chains[j]));
                        assert(0 <= j < i + 1 && lists(after, t, info_of(cv.chains[j])));
                    }
                }
            }
            i = i + 1;
        }
        ChainList { chains: out }
    }

    /// The stages in which the requested chains and all that they depend
    /// on would run, as `determine_order` gives them.
    pub fn plan(&self, chains: &Vec<String>) -> (out: Result<StageList, Error>)
        ensures
            match out {
                Ok(list) => {
                    &&& complete(self@.graph(), requested(chains.deep_view()))
                    &&& !has_cycle(self@.graph(), requested(chains.deep_view()))
                    &&& list.stages.deep_view() == expected_stages(
                        self@.names(),
                        self@.graph(),
                        requested(chains.deep_view()),
                    )
                },
                Err(Error::ChainNotFound(name)) => {
                    &&& reachable(self@.graph(), requested(chains.deep_view()), name@)
                    &&& !self@.graph().contains_key(name@)
                },
                Err(Error::CycleDetected) => {
                    &&& complete(self@.graph(), requested(chains.deep_view()))
                    &&& has_cycle(self@.graph(), requested(chains.deep_view()))
                },
                Err(_) => false,
            },
            out is Ok <==> complete(self@.graph(), requested(chains.deep_view())) && !has_cycle(
                self@.graph(),
                requested(chains.deep_view()),
            ),
    {
        match self.determine_order(chains) {
            Ok(stages) => Ok(StageList { stages }),
            Err(e) => Err(e),
        }
    }

    /// The position of the chain called `name`, if the catalog has it.
    fn find(&self, name: &String) -> (r: Option<usize>)
        ensures
            match r {
                Some(i) => self@.holds(i as int, name@),
                None => !self@.has(name@),
            },
    {
        let mut i: usize = 0;
        while i < self.chains.len()
            invariant
                i <= self.chains.len(),
                forall|j: int| 0 <= j < i ==> !self@.holds(j, name@),
            decreases self.chains.len() - i,
        {
            if self.chains[i].0 == *name {
                assert(self@.holds(i as int, name@));
                return Some(i);
            }
            i = i + 1;
        }
        None
    }

    /// Which chains the requested names depend on, themselves included; or
    /// a name among them that the catalog lacks.
    fn reach(&self, exec: &Vec<String>) -> (out: Result<Vec<bool>, String>)
        ensures
            match out {
                Ok(seen) => {
                    &&& seen.len() == self@.chains.len()
                    &&& complete(self@.graph(), requested(exec.deep_view()))
                    &&& forall|i: int|
                        0 <= i < seen.len() ==> (seen[i] <==> reachable(
                            self@.graph(),
                            requested(exec.deep_view()),
                            #[trigger] self@.chains[i].0,
                        ))
                },
                Err(name) => reachable(self@.graph(), requested(exec.deep_view()), name@)
                    && !self@.graph().contains_key(name@),
            },
    {
        proof {
            use_type_invariant(self);
        }
        let ghost cv = self@;
        let ghost g = cv.graph();
        let ghost roots = requested(exec.deep_view());
        let n = self.chains.len();
        let mut seen: Vec<bool> = Vec::new();
        while seen.len() < n
            invariant
                seen.len() <= n,
                forall|i: int| 0 <= i < seen.len() ==> !seen[i],
            decreases n - seen.len(),
        {
            seen.push(false);
        }
        let mut pending = copy_texts(exec);
        proof {
            assert forall|k: int| 0 <= k < pending.len() implies reachable(g, roots, #[trigger] pending[k]@) by {
                assert(pending.deep_view()[k] == exec.deep_view()[k]);
                assert(roots.contains(exec.deep_view()[k]));
                lemma_root_reachable(g, roots, pending[k]@);
            }
            assert forall|x: Name| roots.contains(x) implies covered(cv, seen@, pending@, x) by {
                let k = choose|k: int| 0 <= k < exec.deep_view().len() && exec.deep_view()[k] == x;
                assert(pending.deep_view()[k] == exec.deep_view()[k]);
                assert(pending@[k]@ == x);
            }
        }
        while pending.len() > 0
            invariant
                cv == self@,
                g == cv.graph(),
                roots == requested(exec.deep_view()),
                cv.well_formed(),
                n == self.chains.len(),
                seen.len() == n,
                forall|k: int| 0 <= k < pending.len() ==> reachable(g, roots, #[trigger] pending[k]@),
                forall|i: int| 0 <= i < n && seen[i] ==> reachable(g, roots, #[trigger] cv.chains[i].0),
                forall|x: Name| roots.contains(x) ==> covered(cv, seen@, pending@, x),
                forall|i: int, j: int|
                    0 <= i < n && seen[i] && 0 <= j < cv.chains[i].1.prerequisites().len() ==> covered(
                        cv,
                        seen@,
                        pending@,
                        #[trigger] cv.chains[i].1.prerequisites()[j],
                    ),
            decreases count_unset(seen@), pending.len(),
        {
            let ghost seen0 = seen@;
            let ghost pending0 = pending@;
            let name = pending.pop().unwrap();
            assert(name@ == pending0[pending0.len() - 1]@);
            assert(reachable(g, roots, name@));
            match self.find(&name) {
                None => {
                    return Err(name);
                },
                Some(i) => {
                    let ghost rest = pending@;
                    if !seen[i] {
                        seen.set(i, true);
                        proof {
                            lemma_count_unset_set(seen0, i as int);
                            lemma_graph_of(cv, i as int);
                        }
                        match &self.chains[i].1.pre {
                            Some(list) => {
                                assert(cv.chains[i as int].1.prerequisites() == list.deep_view());
                                let mut j: usize = 0;
                                while j < list.len()
                                    invariant
                                        j <= list.len(),
                                        pending@.len() == rest.len() + j,
                                        forall|k: int| 0 <= k < rest.len() ==> pending@[k] == rest[k],
                                        forall|k: int| 0 <= k < j ==> pending@[rest.len() + k]@ == list[k]@,
                                    decreases list.len() - j,
                                {
                                    pending.push(list[j].clone());
                                    j = j + 1;
                                }
                                proof {
                                    assert forall|k: int| 0 <= k < pending.len() implies reachable(
                                        g,
                                        roots,
                                        #[trigger] pending[k]@,
                                    ) by {
                                        if k < rest.len() {
                                            assert(pending@[k] == rest[k]);
                                            assert(pending@[k] == pending0[k]);
                                        } else {
                                            let t = k - rest.len();
                                            assert(pending@[rest.len() + t]@ == list[t]@);
                                            assert(list.deep_view()[t] == list[t]@);
                                            assert(g[name@].contains(list.deep_view()[t]));
                                            lemma_reach_step(g, roots, name@, pending[k]@);
                                        }
                                    }
                                    assert forall|j: int|
                                        0 <= j < cv.chains[i as int].1.prerequisites().len() implies covered(
                                        cv,
                                        seen@,
                                        pending@,
                                        #[trigger] cv.chains[i as int].1.prerequisites()[j],
                                    ) by {
                                        assert(list.deep_view()[j] == list[j]@);
                                        assert(pending@[rest.len() + j]@ == list[j]@);
                                    }
                                }
                            },
                            None => {
                                assert(cv.chains[i as int].1.prerequisites().len() == 0);
                                assert forall|k: int| 0 <= k < pending.len() implies reachable(
                                    g,
                                    roots,
                                    #[trigger] pending[k]@,
                                ) by {
                                    assert(pending@[k] == pending0[k]);
                                }
                            },
                        }
                    } else {
                        assert forall|k: int| 0 <= k < pending.len() implies reachable(
                            g,
                            roots,
                            #[trigger] pending[k]@,
                        ) by {
                            assert(pending@[k] == pending0[k]);
                        }
                    }
                    proof {
                        assert(cv.holds(i as int, name@));
                        assert forall|x: Name| covered(cv, seen0, pending0, x) implies covered(
                            cv,
                            seen@,
                            pending@,
                            x,
                        ) by {
                            if exists|t: int| cv.holds(t, x) && seen0[t] {
                                let t = choose|t: int| cv.holds(t, x) && seen0[t];
                                assert(cv.holds(t, x) && seen@[t]);
                            } else {
                                let k = choose|k: int| 0 <= k < pending0.len() && pending0[k]@ == x;
                                if k < rest.len() {
                                    assert(pending@[k] == rest[k]);
                                    assert(pending@[k] == pending0[k]);
                                    assert(0 <= k < pending@.len() && pending@[k]@ == x);
                                } else {
                                    assert(x == name@);
                                    assert(cv.holds(i as int, x) && seen@[i as int]);
                                }
                            }
                        }
                        assert forall|t: int, j: int|
                            0 <= t < n && seen[t] && 0 <= j < cv.chains[t].1.prerequisites().len() implies covered(
                            cv,
                            seen@,
                            pending@,
                            #[trigger] cv.chains[t].1.prerequisites()[j],
                        ) by {
                            if seen0[t] {
                                assert(covered(cv, seen0, pending0, cv.chains[t].1.prerequisites()[j]));
                            } else {
                                assert(t == i);
                            }
                        }
                        assert forall|t: int| 0 <= t < n && seen[t] implies reachable(
                            g,
                            roots,
                            #[trigger] cv.chains[t].0,
                        ) by {
                            if !seen0[t] {
                                assert(t == i);
                            }
                        }
                    }
                },
            }
        }
        proof {
            let s = Set::new(|x: Name| exists|i: int| cv.holds(i, x) && seen@[i]);
            assert forall|r: Name| roots.contains(r) implies s.contains(r) by {
                assert(covered(cv, seen@, pending@, r));
            }
            assert forall|a: Name, b: Name| s.contains(a) && #[trigger] edge(g, a, b) implies s.contains(
                b,
            ) by {
                let i = choose|i: int| cv.holds(i, a) && seen@[i];
                lemma_graph_of(cv, i);
                let j = choose|j: int| 0 <= j < g[a].len() && g[a][j] == b;
                assert(covered(cv, seen@, pending@, cv.chains[i].1.prerequisites()[j]));
            }
            assert forall|x: Name| reachable(g, roots, x) implies g.contains_key(x) by {
                lemma_closed_set_covers(g, roots, s, x);
            }
            assert forall|i: int| 0 <= i < seen.len() implies (seen[i] <==> reachable(
                g,
                roots,
                #[trigger] cv.chains[i].0,
            )) by {
                if reachable(g, roots, cv.chains[i].0) {
                    lemma_closed_set_covers(g, roots, s, cv.chains[i].0);
                    let t = choose|t: int| cv.holds(t, cv.chains[i].0) && seen@[t];
                    assert(t == i);
                }
            }
        }
        Ok(seen)
    }
    /// Whether every prerequisite of the chain at `i` is done.
    fn all_met(&self, i: usize, done: &Vec<bool>) -> (r: bool)
        requires
            i < self@.chains.len(),
            done.len() == self@.chains.len(),
        ensures
            r == settled(self@, done@, i as int),
    {
        proof {
            use_type_invariant(self);
        }
        let ghost cv = self@;
        match &self.chains[i].1.pre {
            None => {
                assert(cv.chains[i as int].1.prerequisites().len() == 0);
                true
            },
            Some(list) => {
                assert(cv.chains[i as int].1.prerequisites() == list.deep_view());
                let mut j: usize = 0;
                while j < list.len()
                    invariant
                        cv == self@,
                        cv.well_formed(),
                        i < cv.chains.len(),
                        cv.chains[i as int].1.prerequisites() == list.deep_view(),
                        j <= list.len(),
                        done.len() == cv.chains.len(),
                        forall|k: int| 0 <= k < j ==> met(cv, done@, #[trigger] list.deep_view()[k]),
                    decreases list.len() - j,
                {
                    assert(list.deep_view()[j as int] == list[j as int]@);
                    let found = self.find(&list[j]);
                    let ok = match found {
                        Some(t) => done[t],
                        None => false,
                    };
                    if !ok {
                        assert(!met(cv, done@, list.deep_view()[j as int])) by {
                            if met(cv, done@, list.deep_view()[j as int]) {
                                let t = choose|t: int| cv.holds(t, list.deep_view()[j as int]) && done@[t];
                                assert(found is Some);
                                assert(t == found->0);
                            }
                        }
                        return false;
                    }
                    j = j + 1;
                }
                true
            },
        }
    }

    /// For each chain, whether it is reachable, not done, and has all its
    /// prerequisites done.
    fn ready_flags(&self, seen: &Vec<bool>, done: &Vec<bool>) -> (out: Vec<bool>)
        requires
            seen.len() == self@.chains.len(),
            done.len() == self@.chains.len(),
        ensures
            out.len() == self@.chains.len(),
            forall|i: int|
                0 <= i < out.len() ==> (#[trigger] out[i] <==> seen[i] && !done[i] && settled(
                    self@,
                    done@,
                    i,
                )),
    {
        let n = self.chains.len();
        let mut out: Vec<bool> = Vec::new();
        let mut i: usize = 0;
        while i < n
            invariant
                n == self@.chains.len(),
                seen.len() == n,
                done.len() == n,
                i <= n,
                out.len() == i,
                forall|k: int|
                    0 <= k < i ==> (#[trigger] out[k] <==> seen[k] && !done[k] && settled(
                        self@,
                        done@,
                        k,
                    )),
            decreases n - i,
        {
            let flag = seen[i] && !done[i] && self.all_met(i, done);
            out.push(flag);
            i = i + 1;
        }
        out
    }

    /// The names of the flagged chains, in catalog order.
    fn pick(&self, flags: &Vec<bool>, Ghost(members): Ghost<Set<Name>>) -> (out: Vec<String>)
        requires
            flags.len() == self@.chains.len(),
            forall|i: int| 0 <= i < flags.len() ==> flags[i] == members.contains(#[trigger] self@.chains[i].0),
        ensures
            out.deep_view() == keep(self@.names(), members),
            out.len() == 0 <==> forall|i: int| 0 <= i < flags.len() ==> !flags[i],
    {
        let ghost names = self@.names();
        let n = self.chains.len();
        let mut out: Vec<String> = Vec::new();
        let mut i: usize = 0;
        proof {
            assert(names.take(0) =~= Seq::<Name>::empty());
            reveal(Seq::filter);
            assert(out.deep_view() =~= keep(names.take(0), members));
        }
        while i < n
            invariant
                names == self@.names(),
                n == self@.chains.len(),
                flags.len() == n,
                forall|k: int| 0 <= k < flags.len() ==> flags[k] == members.contains(#[trigger] self@.chains[k].0),
                i <= n,
                out.deep_view() == keep(names.take(i as int), members),
                out.len() == 0 <==> forall|k: int| 0 <= k < i ==> !flags[k],
            decreases n - i,
        {
            let ghost before = out.deep_view();
            proof {
                assert(names.take(i + 1) =~= names.take(i as int).push(names[i as int]));
                names.take(i as int).lemma_filter_push(names[i as int], |x: Name| members.contains(x));
                assert(names[i as int] == self@.chains[i as int].0);
            }
            if flags[i] {
                out.push(self.chains[i].0.clone());
                assert(out.deep_view() =~= before.push(names[i as int]));
            }
            i = i + 1;
        }
        assert(names.take(n as int) =~= names);
        out
    }

    /// Whether a reachable chain is not done yet.
    fn any_open(seen: &Vec<bool>, done: &Vec<bool>) -> (r: bool)
        requires
            seen.len() == done.len(),
        ensures
            r <==> exists|i: int| 0 <= i < seen.len() && seen[i] && !done[i],
    {
        let mut i: usize = 0;
        while i < seen.len()
            invariant
                seen.len() == done.len(),
                i <= seen.len(),
                forall|k: int| 0 <= k < i ==> !(seen[k] && !done[k]),
            decreases seen.len() - i,
        {
            if seen[i] && !done[i] {
                return true;
            }
            i = i + 1;
        }
        false
    }

    /// Orders the chains that the requested names depend on into stages.
    ///
    /// Every chain comes in the first stage that follows the stages of all
    /// its prerequisites, and within a stage the chains stand in catalog
    /// order.  The request fails with `ChainNotFound` where a requested name
    /// or a prerequisite of a reachable chain is not in the catalog, the
    /// error naming one such name, and else with `CycleDetected` where a
    /// reachable chain depends on itself.
    pub fn determine_order(&self, exec: &Vec<String>) -> (out: Result<Vec<Vec<String>>, Error>)
        ensures
            match out {
                Ok(order) => {
                    &&& complete(self@.graph(), requested(exec.deep_view()))
                    &&& !has_cycle(self@.graph(), requested(exec.deep_view()))
                    &&& order.deep_view() == expected_stages(
                        self@.names(),
                        self@.graph(),
                        requested(exec.deep_view()),
                    )
                    &&& prerequisites_first(self@.graph(), order.deep_view())
                    &&& each_once(
                        closure(self@.graph(), requested(exec.deep_view())),
                        order.deep_view(),
                    )
                },
                Err(Error::ChainNotFound(name)) => {
                    &&& reachable(self@.graph(), requested(exec.deep_view()), name@)
                    &&& !self@.graph().contains_key(name@)
                },
                Err(Error::CycleDetected) => {
                    &&& complete(self@.graph(), requested(exec.deep_view()))
                    &&& has_cycle(self@.graph(), requested(exec.deep_view()))
                },
                Err(_) => false,
            },
            out is Ok <==> complete(self@.graph(), requested(exec.deep_view())) && !has_cycle(
                self@.graph(),
                requested(exec.deep_view()),
            ),
            out matches Err(Error::CycleDetected) <==> complete(
                self@.graph(),
                requested(exec.deep_view()),
            ) && has_cycle(self@.graph(), requested(exec.deep_view())),
            out matches Err(Error::ChainNotFound(_)) <==> !complete(
                self@.graph(),
                requested(exec.deep_view()),
            ),
    {
        proof {
            use_type_invariant(self);
        }
        let ghost cv = self@;
        let ghost g = cv.graph();
        let ghost roots = requested(exec.deep_view());
        let ghost c = closure(g, roots);
        let ghost names = cv.names();
        let n = self.chains.len();
        let seen = match self.reach(exec) {
            Err(name) => {
                return Err(Error::ChainNotFound(name));
            },
            Ok(seen) => seen,
        };
        let mut done: Vec<bool> = Vec::new();
        while done.len() < n
            invariant
                done.len() <= n,
                forall|i: int| 0 <= i < done.len() ==> !done[i],
            decreases n - done.len(),
        {
            done.push(false);
        }
        let mut order: Vec<Vec<String>> = Vec::new();
        proof {
            assert(order.deep_view() =~= stages(names, g, c, 0));
        }
        loop
            invariant
                cv == self@,
                g == cv.graph(),
                roots == requested(exec.deep_view()),
                c == closure(g, roots),
                names == cv.names(),
                cv.well_formed(),
                complete(g, roots),
                n == cv.chains.len(),
                seen.len() == n,
                done.len() == n,
                forall|i: int| 0 <= i < n ==> (seen[i] <==> reachable(g, roots, #[trigger] cv.chains[i].0)),
                forall|i: int|
                    0 <= i < n ==> (done[i] <==> resolved(g, c, order.len() as nat).contains(
                        #[trigger] cv.chains[i].0,
                    )),
                order.deep_view() == stages(names, g, c, order.len() as nat),
                forall|j: nat| j < order.len() ==> #[trigger] layer_occupied(g, c, j),
            decreases count_unset(closed_flags(seen@, done@)),
        {
            let ghost k = order.len() as nat;
            let ghost now = resolved(g, c, k);
            proof {
                lemma_resolved_within(g, c, k);
            }
            if !Self::any_open(&seen, &done) {
                proof {
                    assert forall|x: Name| c.contains(x) implies now.contains(x) by {
                        assert(g.contains_key(x));
                        let i = choose|i: int| cv.holds(i, x);
                        assert(seen[i]);
                        assert(now.contains(cv.chains[i].0));
                    }
                    assert(now =~= c);
                    assert(layered_in(g, c, k));
                    lemma_layer_count_unique(g, c, k, layer_count(g, c));
                    if has_cycle(g, roots) {
                        lemma_cycle_never_layered(g, roots, k);
                    }
                    assert forall|x: Name| c.contains(x) implies names.contains(x) by {
                        assert(g.contains_key(x));
                        let i = choose|i: int| cv.holds(i, x);
                        assert(names[i] == x);
                    }
                    lemma_stages_sound(names, g, c, k);
                }
                return Ok(order);
            }
            let flags = self.ready_flags(&seen, &done);
            proof {
                assert forall|i: int| 0 <= i < n implies flags[i] == layer(g, c, k).contains(
                    #[trigger] cv.chains[i].0,
                ) by {
                    lemma_graph_of(cv, i);
                    let me = cv.chains[i].0;
                    let pre = cv.chains[i].1.prerequisites();
                    if settled(cv, done@, i) {
                        assert forall|j: int| 0 <= j < g[me].len() implies now.contains(#[trigger] g[me][j]) by {
                            assert(met(cv, done@, pre[j]));
                            let t = choose|t: int| cv.holds(t, pre[j]) && done@[t];
                            assert(now.contains(cv.chains[t].0));
                        }
                    }
                    if pre_done(g, me, now) {
                        assert forall|j: int| 0 <= j < pre.len() implies met(cv, done@, #[trigger] pre[j]) by {
                            assert(now.contains(g[me][j]));
                            assert(c.contains(pre[j]));
                            assert(g.contains_key(pre[j]));
                            let t = choose|t: int| cv.holds(t, pre[j]);
                            assert(done@[t] <==> now.contains(cv.chains[t].0));
                            assert(cv.holds(t, pre[j]) && done@[t]);
                        }
                    }
                }
            }
            let names_now = self.pick(&flags, Ghost(layer(g, c, k)));
            if names_now.len() == 0 {
                proof {
                    assert forall|x: Name| !layer(g, c, k).contains(x) by {
                        if layer(g, c, k).contains(x) {
                            assert(g.contains_key(x));
                            let i = choose|i: int| cv.holds(i, x);
                            assert(flags[i] == layer(g, c, k).contains(cv.chains[i].0));
                        }
                    }
                    let i = choose|i: int| 0 <= i < seen.len() && seen[i] && !done[i];
                    assert(c.contains(cv.chains[i].0) && !now.contains(cv.chains[i].0));
                    assert(stalls_at(g, c, k));
                    lemma_graph_finite(cv);
                    lemma_stall_has_cycle(g, roots, k);
                }
                return Err(Error::CycleDetected);
            }
            let ghost done0 = done@;
            let mut i: usize = 0;
            while i < n
                invariant
                    i <= n,
                    n == flags.len(),
                    done.len() == n,
                    done0.len() == n,
                    forall|t: int| 0 <= t < i ==> #[trigger] done[t] == (done0[t] || flags[t]),
                    forall|t: int| i <= t < n ==> #[trigger] done[t] == done0[t],
                decreases n - i,
            {
                let value = done[i] || flags[i];
                done.set(i, value);
                i = i + 1;
            }
            let ghost before = order.deep_view();
            order.push(names_now);
            proof {
                assert(order.deep_view() =~= before.push(stage(names, g, c, k)));
                assert(order.deep_view() =~= stages(names, g, c, k + 1));
                let w = choose|w: int| 0 <= w < flags.len() && flags[w];
                assert(layer(g, c, k).contains(cv.chains[w].0));
                assert(layer_occupied(g, c, k));
                assert forall|t: int| 0 <= t < n implies (done[t] <==> resolved(g, c, k + 1).contains(
                    #[trigger] cv.chains[t].0,
                )) by {
                    assert(done0[t] <==> now.contains(cv.chains[t].0));
                    assert(flags[t] == layer(g, c, k).contains(cv.chains[t].0));
                }
                assert(!done0[w]);
                lemma_count_unset_drops(closed_flags(seen@, done0), closed_flags(seen@, done@), w);
            }
        }
    }
}

} // verus!
