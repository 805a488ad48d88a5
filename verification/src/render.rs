//! Rendering a catalog into an execution plan.

use crate::args::{assigned, ArgTree};
use crate::catalog::{ChainDef, MatrixEntry, MatrixEntryView, Shell, TaskDef};
use crate::env::Env;
use crate::error::{Error, ErrorView};
use crate::graph::{closure, complete, expected_stages, has_cycle, occurs, reachable, Name};
use crate::matrix::{lemma_positions_len, lemma_product_entry, lemma_product_select, positions, select};
use crate::model::{requested, Config, ConfigView};
use crate::outside::{cartesian_product, json_leaves, json_plain, product, render_strict};
use crate::plan::{
    chain_results, combos, fails_first, lemma_collect_err, lemma_collect_ok, lemma_collected,
    matrix_env, matrix_results, no_entry, or_empty, outcome, render_chain, render_matrix,
    render_named, render_plan, render_stage, render_task, resolve_shell, resolve_workdir,
    stage_results, task_results, Chain, Execution, Matrix, Stage, Task, TaskView,
};
use crate::text::{copy_opt_text, copy_texts};
use vstd::prelude::*;

verus! {

/// A copy of a shell.
pub fn copy_shell(shell: &Shell) -> (out: Shell)
    ensures
        out@ == shell@,
{
    Shell { program: shell.program.clone(), args: copy_texts(&shell.args) }
}

/// The shell of a task: its own, else its chain's, else `sh -c`.
pub fn shell_for(task: &TaskDef, chain: &ChainDef) -> (out: Shell)
    ensures
        out@ == resolve_shell(task@, chain@),
{
    match &task.shell {
        Some(shell) => copy_shell(shell),
        None => match &chain.shell {
            Some(shell) => copy_shell(shell),
            None => {
                let mut args: Vec<String> = Vec::new();
                args.push("-c".to_owned());
                let out = Shell { program: "sh".to_owned(), args };
                assert(out.args.deep_view() =~= seq!["-c"@]);
                out
            },
        },
    }
}

/// The working directory of a task: its own, else its chain's.
pub fn workdir_for(task: &TaskDef, chain: &ChainDef) -> (out: Option<String>)
    ensures
        out.deep_view() == resolve_workdir(task@, chain@),
{
    match &task.workdir {
        Some(dir) => Some(dir.clone()),
        None => copy_opt_text(&chain.workdir),
    }
}

/// The environment of a task: the catalog's, overridden by the chain's, by
/// that of the matrix combination and at last by the task's own.
pub fn env_for(globals: &Env, chain: &ChainDef, combination: &Env, task: &TaskDef) -> (out: Env)
    ensures
        out@ == globals@.union_prefer_right(or_empty(chain@.env)).union_prefer_right(
            combination@,
        ).union_prefer_right(or_empty(task@.env)),
{
    let mut out = globals.duplicate();
    match &chain.env {
        Some(vars) => {
            out.extend(vars);
        },
        None => {
            assert(out@.union_prefer_right(Map::empty()) =~= out@);
        },
    }
    out.extend(combination);
    match &task.env {
        Some(vars) => {
            out.extend(vars);
        },
        None => {
            assert(out@.union_prefer_right(Map::empty()) =~= out@);
        },
    }
    out
}

/// The environment of the combination that takes entry `picks[d]` of each
/// dimension `d`.
fn combination_env(dims: &Vec<Vec<MatrixEntry>>, picks: &Vec<usize>) -> (out: Env)
    requires
        picks.len() == dims.len(),
        forall|d: int| 0 <= d < dims.len() ==> picks[d] < (#[trigger] dims[d]).len(),
    ensures
        out@ == matrix_env(select(dims.deep_view(), picks@)),
{
    let ghost combo = select(dims.deep_view(), picks@);
    let mut out = Env::new();
    let mut d: usize = 0;
    proof {
        assert(combo.take(0) =~= Seq::empty());
    }
    while d < dims.len()
        invariant
            d <= dims.len(),
            picks.len() == dims.len(),
            forall|e: int| 0 <= e < dims.len() ==> picks[e] < (#[trigger] dims[e]).len(),
            combo == select(dims.deep_view(), picks@),
            out@ == matrix_env(combo.take(d as int)),
        decreases dims.len() - d,
    {
        proof {
            assert(combo.take(d + 1).drop_last() =~= combo.take(d as int));
            assert(combo.take(d + 1).last() == combo[d as int]);
            assert(dims[d as int].len() > picks[d as int]);
            assert(combo[d as int] == dims.deep_view()[d as int][picks[d as int] as int]);
            assert(dims.deep_view()[d as int] == dims[d as int].deep_view());
            assert(combo[d as int] == dims[d as int][picks[d as int] as int]@);
        }
        match &dims[d][picks[d]].env {
            Some(vars) => {
                out.extend(vars);
            },
            None => {
                assert(out@.union_prefer_right(Map::empty()) =~= out@);
            },
        }
        d = d + 1;
    }
    assert(combo.take(dims.len() as int) =~= combo);
    out
}

/// One task rendered against the argument values in `data`.
fn render_one(
    task: &TaskDef,
    chain: &ChainDef,
    combination: &Env,
    globals: &Env,
    data: &serde_json::Value,
    Ghost(combo): Ghost<Seq<MatrixEntryView>>,
) -> (out: Result<Task, Error>)
    requires
        json_plain(*data),
        combination@ == matrix_env(combo),
    ensures
        outcome(out) == render_task(task@, chain@, combo, globals@, json_leaves(*data)),
{
    match render_strict(task.script.as_str(), data) {
        Err(cause) => Err(Error::TemplateRenderFailed(cause)),
        Ok(cmd) => Ok(
            Task {
                cmd,
                env: env_for(globals, chain, combination, task),
                workdir: workdir_for(task, chain),
                shell: shell_for(task, chain),
            },
        ),
    }
}

/// The tasks of a chain rendered for one combination of its matrix.
fn render_tasks(
    chain: &ChainDef,
    combination: &Env,
    globals: &Env,
    data: &serde_json::Value,
    Ghost(combo): Ghost<Seq<MatrixEntryView>>,
) -> (out: Result<Matrix, Error>)
    requires
        json_plain(*data),
        combination@ == matrix_env(combo),
    ensures
        outcome(out) == render_matrix(chain@, combo, globals@, json_leaves(*data)),
{
    let ghost rs = task_results(chain@, combo, globals@, json_leaves(*data));
    let mut tasks: Vec<Task> = Vec::new();
    let mut i: usize = 0;
    while i < chain.tasks.len()
        invariant
            json_plain(*data),
            combination@ == matrix_env(combo),
            rs == task_results(chain@, combo, globals@, json_leaves(*data)),
            i <= chain.tasks.len(),
            tasks.len() == i,
            forall|j: int| 0 <= j < i ==> #[trigger] rs[j] == Ok::<TaskView, ErrorView>(tasks[j]@),
        decreases chain.tasks.len() - i,
    {
        assert(chain@.tasks[i as int] == chain.tasks[i as int]@);
        match render_one(&chain.tasks[i], chain, combination, globals, data, Ghost(combo)) {
            Err(e) => {
                proof {
                    assert(rs[i as int] == Err::<TaskView, ErrorView>(e@));
                    assert(fails_first(rs, i as int));
                    lemma_collect_err(rs, i as int);
                }
                return Err(e);
            },
            Ok(task) => {
                tasks.push(task);
            },
        }
        i = i + 1;
    }
    proof {
        assert forall|j: int| 0 <= j < rs.len() implies rs[j] == Ok::<TaskView, ErrorView>(
            tasks.deep_view()[j],
        ) by {
            assert(tasks.deep_view()[j] == tasks[j]@);
        }
        lemma_collect_ok(rs, tasks.deep_view());
    }
    Ok(Matrix { tasks })
}

/// For each dimension the positions of its entries, from the first on.
fn entry_positions(dims: &Vec<Vec<MatrixEntry>>) -> (out: Vec<Vec<usize>>)
    ensures
        out.deep_view() == positions(dims.deep_view()),
{
    let mut out: Vec<Vec<usize>> = Vec::new();
    let mut d: usize = 0;
    while d < dims.len()
        invariant
            d <= dims.len(),
            out.len() == d,
            forall|e: int|
                0 <= e < d ==> (#[trigger] out[e]).len() == dims[e].len() && forall|i: int|
                    0 <= i < out[e].len() ==> out[e][i] == i,
        decreases dims.len() - d,
    {
        let mut list: Vec<usize> = Vec::new();
        let mut i: usize = 0;
        while i < dims[d].len()
            invariant
                d < dims.len(),
                i <= dims[d as int].len(),
                list.len() == i,
                forall|j: int| 0 <= j < i ==> list[j] == j,
            decreases dims[d as int].len() - i,
        {
            list.push(i);
            i = i + 1;
        }
        out.push(list);
        d = d + 1;
    }
    proof {
        let want = positions(dims.deep_view());
        assert(out.deep_view().len() == want.len());
        assert forall|e: int| 0 <= e < want.len() implies out.deep_view()[e] == want[e] by {
            assert(dims.deep_view()[e] == dims[e].deep_view());
            assert(out.deep_view()[e] == out[e].deep_view());
            assert(out[e].deep_view() =~= want[e]);
        }
        assert(out.deep_view() =~= want);
    }
    out
}

/// A chain rendered: its tasks for every combination of its matrix.
fn render_combinations(chain: &ChainDef, globals: &Env, data: &serde_json::Value) -> (out: Result<
    Chain,
    Error,
>)
    requires
        json_plain(*data),
    ensures
        outcome(out) == render_chain(chain@, globals@, json_leaves(*data)),
{
    let ghost rs = matrix_results(chain@, globals@, json_leaves(*data));
    match &chain.matrix {
        None => {
            let ghost combo = seq![no_entry()];
            let combination = Env::new();
            proof {
                assert(combos(chain@) == seq![combo]);
                assert(combo.drop_last() =~= Seq::empty());
                assert(matrix_env(combo) =~= Map::<Seq<char>, Seq<char>>::empty()) by {
                    reveal_with_fuel(matrix_env, 2);
                }
                assert(rs.len() == 1);
                assert(rs[0] == render_matrix(chain@, combo, globals@, json_leaves(*data)));
            }
            match render_tasks(chain, &combination, globals, data, Ghost(combo)) {
                Err(e) => {
                    proof {
                        assert(fails_first(rs, 0));
                        lemma_collect_err(rs, 0);
                    }
                    Err(e)
                },
                Ok(tasks) => {
                    let ghost view = tasks@;
                    let mut matrix: Vec<Matrix> = Vec::new();
                    matrix.push(tasks);
                    proof {
                        assert(matrix.deep_view() =~= seq![view]);
                        lemma_collect_ok(rs, matrix.deep_view());
                    }
                    Ok(Chain { matrix })
                },
            }
        },
        Some(dims) => {
            let ghost entries = dims.deep_view();
            let lists = entry_positions(dims);
            let all_picks = cartesian_product(&lists);
            proof {
                assert(chain@.matrix == Some(entries));
                assert(combos(chain@) == product(entries));
                lemma_positions_len(entries);
                assert(all_picks.deep_view().len() == product(entries).len());
            }
            let mut matrix: Vec<Matrix> = Vec::new();
            let mut k: usize = 0;
            while k < all_picks.len()
                invariant
                    json_plain(*data),
                    entries == dims.deep_view(),
                    combos(chain@) == product(entries),
                    all_picks.deep_view() == product(positions(entries)),
                    all_picks.len() == product(entries).len(),
                    rs == matrix_results(chain@, globals@, json_leaves(*data)),
                    k <= all_picks.len(),
                    matrix.len() == k,
                    forall|j: int|
                        0 <= j < k ==> #[trigger] rs[j] == Ok::<Seq<TaskView>, ErrorView>(
                            matrix[j]@,
                        ),
                decreases all_picks.len() - k,
            {
                let picks = &all_picks[k];
                proof {
                    assert(all_picks.deep_view()[k as int] == picks.deep_view());
                    assert(picks.deep_view() =~= picks@);
                    assert forall|d: int| 0 <= d < entries.len() implies (#[trigger] entries[d]).len()
                        <= usize::MAX by {
                        assert(entries[d] == dims[d].deep_view());
                        assert(dims[d].deep_view().len() == dims[d].len());
                    }
                    lemma_product_select(entries, k as int);
                    assert(picks.len() == dims.len() && forall|d: int|
                        0 <= d < dims.len() ==> picks[d] < (#[trigger] dims[d]).len()) by {
                        if dims.len() > 0 {
                            lemma_product_entry(positions(entries), k as int, 0);
                        } else {
                            assert(product(positions(entries)) =~= seq![Seq::<usize>::empty()]);
                        }
                        assert forall|d: int| 0 <= d < dims.len() implies picks[d] < (#[trigger] dims[d]).len() by {
                            lemma_product_entry(positions(entries), k as int, d);
                            let list = positions(entries)[d];
                            let at = choose|at: int| 0 <= at < list.len() && list[at] == picks@[d];
                            assert(entries[d] == dims[d].deep_view());
                        }
                    }
                }
                let ghost combo = select(entries, picks@);
                let combination = combination_env(dims, picks);
                match render_tasks(chain, &combination, globals, data, Ghost(combo)) {
                    Err(e) => {
                        proof {
                            assert(fails_first(rs, k as int));
                            lemma_collect_err(rs, k as int);
                        }
                        return Err(e);
                    },
                    Ok(tasks) => {
                        matrix.push(tasks);
                    },
                }
                k = k + 1;
            }
            proof {
                assert forall|j: int| 0 <= j < rs.len() implies rs[j] == Ok::<
                    Seq<TaskView>,
                    ErrorView,
                >(matrix.deep_view()[j]) by {
                    assert(matrix.deep_view()[j] == matrix[j]@);
                }
                lemma_collect_ok(rs, matrix.deep_view());
            }
            Ok(Chain { matrix })
        },
    }
}

impl Config {
    /// The argument tree of a list of assignments, taken in order.  Each
    /// key is split at its dots; the first value written at a place stays.
    pub fn build_args(&self, args: &Vec<(String, String)>) -> (out: Result<ArgTree, Error>)
        ensures
            out is Ok,
            out->Ok_0@ == assigned(args.deep_view()),
    {
        let mut tree = ArgTree::new();
        let mut i: usize = 0;
        proof {
            assert(args.deep_view().take(0) =~= Seq::empty());
        }
        while i < args.len()
            invariant
                i <= args.len(),
                tree@ == assigned(args.deep_view().take(i as int)),
            decreases args.len() - i,
        {
            proof {
                let more = args.deep_view().take(i + 1);
                assert(more.drop_last() =~= args.deep_view().take(i as int));
                assert(more.last() == (args[i as int].0@, args[i as int].1@));
            }
            tree.assign(args[i].0.as_str(), args[i].1.as_str());
            i = i + 1;
        }
        assert(args.deep_view().take(args.len() as int) =~= args.deep_view());
        Ok(tree)
    }

    /// The chains of one stage rendered, in the order of `names`.
    fn render_chains(&self, names: &Vec<String>, data: &serde_json::Value) -> (out: Result<Stage, Error>)
        requires
            json_plain(*data),
        ensures
            outcome(out) == render_stage(self@, names.deep_view(), json_leaves(*data)),
    {
        let ghost rs = chain_results(self@, names.deep_view(), json_leaves(*data));
        let mut chains: Vec<Chain> = Vec::new();
        let mut i: usize = 0;
        while i < names.len()
            invariant
                json_plain(*data),
                rs == chain_results(self@, names.deep_view(), json_leaves(*data)),
                i <= names.len(),
                chains.len() == i,
                forall|j: int|
                    0 <= j < i ==> #[trigger] rs[j] == Ok::<Seq<Seq<TaskView>>, ErrorView>(
                        chains[j]@,
                    ),
            decreases names.len() - i,
        {
            assert(names.deep_view()[i as int] == names[i as int]@);
            let rendered = match self.position(names[i].as_str()) {
                None => Err(Error::ChainNotFound(names[i].clone())),
                Some(at) => render_combinations(self.chain_at(at), self.env(), data),
            };
            assert(outcome(rendered) == rs[i as int]);
            match rendered {
                Err(e) => {
                    proof {
                        assert(fails_first(rs, i as int));
                        lemma_collect_err(rs, i as int);
                    }
                    return Err(e);
                },
                Ok(chain) => {
                    chains.push(chain);
                },
            }
            i = i + 1;
        }
        proof {
            assert forall|j: int| 0 <= j < rs.len() implies rs[j] == Ok::<
                Seq<Seq<TaskView>>,
                ErrorView,
            >(chains.deep_view()[j]) by {
                assert(chains.deep_view()[j] == chains[j]@);
            }
            lemma_collect_ok(rs, chains.deep_view());
        }
        Ok(Stage { chains })
    }

    /// The plan for the stages `order`, each chain rendered against the
    /// argument tree: the tasks of every chain for every combination of its
    /// matrix.  Rendering stops at the first failure on the way through
    /// stages, chains, combinations and tasks: a template that does not
    /// render, or a name that is not in the catalog.
    pub fn render_plan(&self, order: &Vec<Vec<String>>, tree: &ArgTree) -> (out: Result<Execution, Error>)
        ensures
            outcome(out) == render_plan(self@, order.deep_view(), tree@),
    {
        let data = tree.to_json();
        let ghost rs = stage_results(self@, order.deep_view(), tree@);
        let mut stages: Vec<Stage> = Vec::new();
        let mut k: usize = 0;
        while k < order.len()
            invariant
                json_plain(data),
                json_leaves(data) == tree@,
                rs == stage_results(self@, order.deep_view(), tree@),
                k <= order.len(),
                stages.len() == k,
                forall|j: int|
                    0 <= j < k ==> #[trigger] rs[j] == Ok::<Seq<Seq<Seq<TaskView>>>, ErrorView>(
                        stages[j]@,
                    ),
            decreases order.len() - k,
        {
            assert(order.deep_view()[k as int] == order[k as int].deep_view());
            match self.render_chains(&order[k], &data) {
                Err(e) => {
                    proof {
                        assert(fails_first(rs, k as int));
                        lemma_collect_err(rs, k as int);
                    }
                    return Err(e);
                },
                Ok(stage) => {
                    stages.push(stage);
                },
            }
            k = k + 1;
        }
        proof {
            assert forall|j: int| 0 <= j < rs.len() implies rs[j] == Ok::<
                Seq<Seq<Seq<TaskView>>>,
                ErrorView,
            >(stages.deep_view()[j]) by {
                assert(stages.deep_view()[j] == stages[j]@);
            }
            lemma_collect_ok(rs, stages.deep_view());
        }
        Ok(Execution { stages })
    }

    /// The execution plan for the requested chains and the given
    /// assignments of arguments.
    ///
    /// The chains that the request depends on are ordered into stages, the
    /// assignments are built into the argument tree, and every task is
    /// rendered against it.  Nothing is returned but an error where a
    /// name is missing, a chain depends on itself, or a template does not
    /// render.
    pub fn render_exec(&self, exec_chains: &Vec<String>, args: &Vec<(String, String)>) -> (out: Result<
        Execution,
        Error,
    >)
        ensures
            !complete(self@.graph(), requested(exec_chains.deep_view())) ==> (out matches Err(
                Error::ChainNotFound(name),
            ) && reachable(self@.graph(), requested(exec_chains.deep_view()), name@)
                && !self@.graph().contains_key(name@)),
            complete(self@.graph(), requested(exec_chains.deep_view())) && has_cycle(
                self@.graph(),
                requested(exec_chains.deep_view()),
            ) ==> out matches Err(Error::CycleDetected),
            complete(self@.graph(), requested(exec_chains.deep_view())) && !has_cycle(
                self@.graph(),
                requested(exec_chains.deep_view()),
            ) ==> outcome(out) == render_plan(
                self@,
                expected_stages(self@.names(), self@.graph(), requested(exec_chains.deep_view())),
                assigned(args.deep_view()),
            ),
            out matches Err(e) ==> e is ChainNotFound || e is CycleDetected || e is TemplateRenderFailed,
    {
        let tree = match self.build_args(args) {
            Ok(tree) => tree,
            Err(e) => {
                return Err(e);
            },
        };
        let order = match self.determine_order(exec_chains) {
            Ok(order) => order,
            Err(e) => {
                return Err(e);
            },
        };
        let out = self.render_plan(&order, &tree);
        proof {
            let g = self@.graph();
            let roots = requested(exec_chains.deep_view());
            let st = order.deep_view();
            lemma_render_failures(self@, st, tree@);
            if out is Err && out->Err_0 is ChainNotFound {
                let name = out->Err_0->ChainNotFound_0;
                assert(names_missing(self@, st, name@));
                let (k, i) = choose|k: int, i: int| occurs(st, k, i, name@) && !self@.has(name@);
                assert(closure(g, roots).contains(name@));
                assert(g.contains_key(name@));
            }
        }
        out
    }
}

/// The stages hold `name` although the catalog has no such chain.
pub open spec fn names_missing(cv: ConfigView, order: Seq<Seq<Name>>, name: Name) -> bool {
    exists|k: int, i: int| occurs(order, k, i, name) && !cv.has(name)
}

/// A plan fails with the failure of a template, or for a name of its
/// stages that the catalog lacks, and in no other way.
pub proof fn lemma_render_failures(
    cv: ConfigView,
    order: Seq<Seq<Name>>,
    leaves: Map<Seq<Seq<char>>, Seq<char>>,
)
    ensures
        render_plan(cv, order, leaves) matches Err(e) ==> e is TemplateRenderFailed || e is ChainNotFound,
        render_plan(cv, order, leaves) matches Err(ErrorView::ChainNotFound(name)) ==> names_missing(
            cv,
            order,
            name,
        ),
{
    let rs = stage_results(cv, order, leaves);
    lemma_collected(rs);
    if crate::plan::collect(rs) is Err {
        let e = crate::plan::collect(rs)->Err_0;
        let k = choose|k: int| fails_first(rs, k) && rs[k] == Err::<
            Seq<Seq<Seq<TaskView>>>,
            ErrorView,
        >(e);
        let cs = chain_results(cv, order[k], leaves);
        assert(rs[k] == render_stage(cv, order[k], leaves));
        lemma_collected(cs);
        let i = choose|i: int| fails_first(cs, i) && cs[i] == Err::<Seq<Seq<TaskView>>, ErrorView>(
            e,
        );
        let name = order[k][i];
        assert(cs[i] == render_named(cv, name, leaves));
        if cv.has(name) {
            let chain = cv.chain(name);
            let ms = matrix_results(chain, cv.env, leaves);
            lemma_collected(ms);
            let m = choose|m: int| fails_first(ms, m) && ms[m] == Err::<Seq<TaskView>, ErrorView>(e);
            let ts = task_results(chain, combos(chain)[m], cv.env, leaves);
            assert(ms[m] == render_matrix(chain, combos(chain)[m], cv.env, leaves));
            lemma_collected(ts);
            let t = choose|t: int| fails_first(ts, t) && ts[t] == Err::<TaskView, ErrorView>(e);
            assert(ts[t] == render_task(chain.tasks[t], chain, combos(chain)[m], cv.env, leaves));
            assert(e is TemplateRenderFailed);
        } else {
            assert(occurs(order, k, i, name) && !cv.has(name));
            assert(e == ErrorView::ChainNotFound(name));
        }
    }
}

} // verus!
