//! The execution plan and what rendering a catalog into it means.

use crate::catalog::{ChainDefView, MatrixEntryView, Shell, ShellView, TaskDefView};
use crate::env::Env;
use crate::error::{Error, ErrorView};
use crate::graph::Name;
use crate::model::ConfigView;
use crate::outside::{product, rendered};
use vstd::prelude::*;

verus! {

/// A task ready to run: the command rendered, the environment merged, the
/// working directory and the shell resolved.
#[derive(Debug)]
pub struct Task {
    pub cmd: String,
    pub env: Env,
    pub workdir: Option<String>,
    pub shell: Shell,
}

/// The mathematical view of `Task`.
pub struct TaskView {
    pub cmd: Seq<char>,
    pub env: Map<Seq<char>, Seq<char>>,
    pub workdir: Option<Seq<char>>,
    pub shell: ShellView,
}

impl DeepView for Task {
    type V = TaskView;

    open spec fn deep_view(&self) -> TaskView {
        TaskView {
            cmd: self.cmd@,
            env: self.env@,
            workdir: self.workdir.deep_view(),
            shell: self.shell.deep_view(),
        }
    }
}

impl View for Task {
    type V = TaskView;

    open spec fn view(&self) -> TaskView {
        self.deep_view()
    }
}

/// The tasks of a chain for one combination of its matrix, in order.
#[derive(Debug)]
pub struct Matrix {
    pub tasks: Vec<Task>,
}

impl DeepView for Matrix {
    type V = Seq<TaskView>;

    open spec fn deep_view(&self) -> Seq<TaskView> {
        self.tasks.deep_view()
    }
}

impl View for Matrix {
    type V = Seq<TaskView>;

    open spec fn view(&self) -> Seq<TaskView> {
        self.deep_view()
    }
}

/// A rendered chain: one list of tasks for each combination of its matrix.
#[derive(Debug)]
pub struct Chain {
    pub matrix: Vec<Matrix>,
}

impl DeepView for Chain {
    type V = Seq<Seq<TaskView>>;

    open spec fn deep_view(&self) -> Seq<Seq<TaskView>> {
        self.matrix.deep_view()
    }
}

impl View for Chain {
    type V = Seq<Seq<TaskView>>;

    open spec fn view(&self) -> Seq<Seq<TaskView>> {
        self.deep_view()
    }
}

/// The chains that may run side by side.
#[derive(Debug)]
pub struct Stage {
    pub chains: Vec<Chain>,
}

impl DeepView for Stage {
    type V = Seq<Seq<Seq<TaskView>>>;

    open spec fn deep_view(&self) -> Seq<Seq<Seq<TaskView>>> {
        self.chains.deep_view()
    }
}

impl View for Stage {
    type V = Seq<Seq<Seq<TaskView>>>;

    open spec fn view(&self) -> Seq<Seq<Seq<TaskView>>> {
        self.deep_view()
    }
}

/// The plan: stages in the order they run.
#[derive(Debug)]
pub struct Execution {
    pub stages: Vec<Stage>,
}

impl DeepView for Execution {
    type V = Seq<Seq<Seq<Seq<TaskView>>>>;

    open spec fn deep_view(&self) -> Seq<Seq<Seq<Seq<TaskView>>>> {
        self.stages.deep_view()
    }
}

impl View for Execution {
    type V = Seq<Seq<Seq<Seq<TaskView>>>>;

    open spec fn view(&self) -> Seq<Seq<Seq<Seq<TaskView>>>> {
        self.deep_view()
    }
}

/// A result as its view: the value's view, or the error's.
pub open spec fn outcome<T: DeepView>(r: Result<T, Error>) -> Result<T::V, ErrorView> {
    match r {
        Ok(v) => Ok(v.deep_view()),
        Err(e) => Err(e@),
    }
}

/// Position `i` holds the first failure of `rs`.
pub open spec fn fails_first<T>(rs: Seq<Result<T, ErrorView>>, i: int) -> bool {
    &&& 0 <= i < rs.len()
    &&& rs[i] is Err
    &&& forall|j: int| 0 <= j < i ==> rs[j] is Ok
}

/// All values of `rs` where none is a failure, and else its first failure.
pub open spec fn collect<T>(rs: Seq<Result<T, ErrorView>>) -> Result<Seq<T>, ErrorView> {
    if exists|i: int| fails_first(rs, i) {
        Err(rs[choose|i: int| fails_first(rs, i)]->Err_0)
    } else {
        Ok(Seq::new(rs.len(), |i: int| rs[i]->Ok_0))
    }
}

/// Results without a failure collect to their values.
pub proof fn lemma_collect_ok<T>(rs: Seq<Result<T, ErrorView>>, values: Seq<T>)
    requires
        values.len() == rs.len(),
        forall|i: int| 0 <= i < rs.len() ==> rs[i] == Ok::<T, ErrorView>(values[i]),
    ensures
        collect(rs) == Ok::<Seq<T>, ErrorView>(values),
{
    assert forall|i: int| !fails_first(rs, i) by {
        if 0 <= i < rs.len() {
            assert(rs[i] == Ok::<T, ErrorView>(values[i]));
        }
    }
    assert(Seq::new(rs.len(), |i: int| rs[i]->Ok_0) =~= values);
}

/// Results collect to their first failure.
pub proof fn lemma_collect_err<T>(rs: Seq<Result<T, ErrorView>>, i: int)
    requires
        fails_first(rs, i),
    ensures
        collect(rs) == Err::<Seq<T>, ErrorView>(rs[i]->Err_0),
{
    let j = choose|j: int| fails_first(rs, j);
    assert(j == i) by {
        if j < i {
            assert(rs[j] is Ok);
        }
        if i < j {
            assert(rs[i] is Ok);
        }
    }
}

/// A collected failure is the failure of one of the results, and collected
/// values are the values of all of them.
pub proof fn lemma_collected<T>(rs: Seq<Result<T, ErrorView>>)
    ensures
        match collect(rs) {
            Ok(values) => values.len() == rs.len() && forall|i: int|
                0 <= i < rs.len() ==> rs[i] == Ok::<T, ErrorView>(#[trigger] values[i]),
            Err(e) => exists|i: int| fails_first(rs, i) && rs[i] == Err::<T, ErrorView>(e),
        },
{
    if exists|i: int| fails_first(rs, i) {
        let i = choose|i: int| fails_first(rs, i);
        assert(fails_first(rs, i) && rs[i] == Err::<T, ErrorView>(rs[i]->Err_0));
    } else {
        assert forall|i: int| 0 <= i < rs.len() implies rs[i] is Ok by {
            lemma_no_failure(rs, i);
        }
    }
}

proof fn lemma_no_failure<T>(rs: Seq<Result<T, ErrorView>>, i: int)
    requires
        forall|j: int| !fails_first(rs, j),
        0 <= i < rs.len(),
    ensures
        rs[i] is Ok,
    decreases i,
{
    if rs[i] is Err {
        assert forall|j: int| 0 <= j < i implies rs[j] is Ok by {
            lemma_no_failure(rs, j);
        }
        assert(fails_first(rs, i));
    }
}

/// The shell that tasks run in where nothing else is declared.
pub open spec fn default_shell() -> ShellView {
    ShellView { program: "sh"@, args: seq!["-c"@] }
}

/// The shell of a task: its own, else its chain's, else the default.
pub open spec fn resolve_shell(task: TaskDefView, chain: ChainDefView) -> ShellView {
    match task.shell {
        Some(shell) => shell,
        None => match chain.shell {
            Some(shell) => shell,
            None => default_shell(),
        },
    }
}

/// The working directory of a task: its own, else its chain's.
pub open spec fn resolve_workdir(task: TaskDefView, chain: ChainDefView) -> Option<Seq<char>> {
    match task.workdir {
        Some(dir) => Some(dir),
        None => chain.workdir,
    }
}

/// A declared environment, or none at all.
pub open spec fn or_empty(env: Option<Map<Seq<char>, Seq<char>>>) -> Map<Seq<char>, Seq<char>> {
    match env {
        Some(vars) => vars,
        None => Map::empty(),
    }
}

/// The environment of a combination: its entries merged from the first
/// dimension to the last, later entries overriding earlier ones.
pub open spec fn matrix_env(combo: Seq<MatrixEntryView>) -> Map<Seq<char>, Seq<char>>
    decreases combo.len(),
{
    if combo.len() == 0 {
        Map::empty()
    } else {
        matrix_env(combo.drop_last()).union_prefer_right(or_empty(combo.last().env))
    }
}

/// The environment of a task: the catalog's, overridden by the chain's, by
/// the combination's and at last by the task's own.
pub open spec fn resolve_env(
    globals: Map<Seq<char>, Seq<char>>,
    chain: ChainDefView,
    combo: Seq<MatrixEntryView>,
    task: TaskDefView,
) -> Map<Seq<char>, Seq<char>> {
    globals.union_prefer_right(or_empty(chain.env)).union_prefer_right(
        matrix_env(combo),
    ).union_prefer_right(or_empty(task.env))
}

/// The entry that stands for a matrix that is not declared.
pub open spec fn no_entry() -> MatrixEntryView {
    MatrixEntryView { env: None, workdir: None }
}

/// The combinations of a chain's matrix: one entry of each dimension, in
/// the order of the dimensions; a single combination of one entry without
/// overrides where the chain declares no matrix.
pub open spec fn combos(chain: ChainDefView) -> Seq<Seq<MatrixEntryView>> {
    match chain.matrix {
        Some(dims) => product(dims),
        None => seq![seq![no_entry()]],
    }
}

/// One task rendered against the argument values `leaves`.
pub open spec fn render_task(
    task: TaskDefView,
    chain: ChainDefView,
    combo: Seq<MatrixEntryView>,
    globals: Map<Seq<char>, Seq<char>>,
    leaves: Map<Seq<Seq<char>>, Seq<char>>,
) -> Result<TaskView, ErrorView> {
    match rendered(task.script, leaves) {
        Ok(cmd) => Ok(
            TaskView {
                cmd,
                env: resolve_env(globals, chain, combo, task),
                workdir: resolve_workdir(task, chain),
                shell: resolve_shell(task, chain),
            },
        ),
        Err(cause) => Err(ErrorView::TemplateRenderFailed(cause)),
    }
}

/// The tasks of a chain rendered for one combination, each by itself.
pub open spec fn task_results(
    chain: ChainDefView,
    combo: Seq<MatrixEntryView>,
    globals: Map<Seq<char>, Seq<char>>,
    leaves: Map<Seq<Seq<char>>, Seq<char>>,
) -> Seq<Result<TaskView, ErrorView>> {
    Seq::new(chain.tasks.len(), |i: int| render_task(chain.tasks[i], chain, combo, globals, leaves))
}

/// The tasks of a chain for one combination.
pub open spec fn render_matrix(
    chain: ChainDefView,
    combo: Seq<MatrixEntryView>,
    globals: Map<Seq<char>, Seq<char>>,
    leaves: Map<Seq<Seq<char>>, Seq<char>>,
) -> Result<Seq<TaskView>, ErrorView> {
    collect(task_results(chain, combo, globals, leaves))
}

/// The combinations of a chain rendered, each by itself.
pub open spec fn matrix_results(
    chain: ChainDefView,
    globals: Map<Seq<char>, Seq<char>>,
    leaves: Map<Seq<Seq<char>>, Seq<char>>,
) -> Seq<Result<Seq<TaskView>, ErrorView>> {
    Seq::new(combos(chain).len(), |k: int| render_matrix(chain, combos(chain)[k], globals, leaves))
}

/// A chain rendered: its tasks for every combination of its matrix.
pub open spec fn render_chain(
    chain: ChainDefView,
    globals: Map<Seq<char>, Seq<char>>,
    leaves: Map<Seq<Seq<char>>, Seq<char>>,
) -> Result<Seq<Seq<TaskView>>, ErrorView> {
    collect(matrix_results(chain, globals, leaves))
}

/// The chain called `name` rendered, where the catalog has it.
pub open spec fn render_named(cv: ConfigView, name: Name, leaves: Map<Seq<Seq<char>>, Seq<char>>) -> Result<
    Seq<Seq<TaskView>>,
    ErrorView,
> {
    if cv.has(name) {
        render_chain(cv.chain(name), cv.env, leaves)
    } else {
        Err(ErrorView::ChainNotFound(name))
    }
}

/// The chains of a stage rendered, each by itself.
pub open spec fn chain_results(cv: ConfigView, names: Seq<Name>, leaves: Map<Seq<Seq<char>>, Seq<char>>) -> Seq<
    Result<Seq<Seq<TaskView>>, ErrorView>,
> {
    Seq::new(names.len(), |i: int| render_named(cv, names[i], leaves))
}

/// A stage rendered: its chains in the order of `names`.
pub open spec fn render_stage(cv: ConfigView, names: Seq<Name>, leaves: Map<Seq<Seq<char>>, Seq<char>>) -> Result<
    Seq<Seq<Seq<TaskView>>>,
    ErrorView,
> {
    collect(chain_results(cv, names, leaves))
}

/// The stages of a plan rendered, each by itself.
pub open spec fn stage_results(
    cv: ConfigView,
    order: Seq<Seq<Name>>,
    leaves: Map<Seq<Seq<char>>, Seq<char>>,
) -> Seq<Result<Seq<Seq<Seq<TaskView>>>, ErrorView>> {
    Seq::new(order.len(), |k: int| render_stage(cv, order[k], leaves))
}

/// The plan for the stages `order`: every task of every chain, for every
/// combination of the chain's matrix; or the first failure met on the way
/// through stages, chains, combinations and tasks.
pub open spec fn render_plan(cv: ConfigView, order: Seq<Seq<Name>>, leaves: Map<Seq<Seq<char>>, Seq<char>>) -> Result<
    Seq<Seq<Seq<Seq<TaskView>>>>,
    ErrorView,
> {
    collect(stage_results(cv, order, leaves))
}

/// Later layers of the environment override earlier ones: a variable has
/// the value of the innermost layer that sets it, in the order task,
/// combination, chain, catalog.
pub proof fn lemma_env_precedence(
    globals: Map<Seq<char>, Seq<char>>,
    chain: ChainDefView,
    combo: Seq<MatrixEntryView>,
    task: TaskDefView,
    name: Seq<char>,
)
    ensures
        resolve_env(globals, chain, combo, task).contains_key(name) <==> globals.contains_key(name)
            || or_empty(chain.env).contains_key(name) || matrix_env(combo).contains_key(name)
            || or_empty(task.env).contains_key(name),
        resolve_env(globals, chain, combo, task).contains_key(name) ==> resolve_env(
            globals,
            chain,
            combo,
            task,
        )[name] == if or_empty(task.env).contains_key(name) {
            or_empty(task.env)[name]
        } else if matrix_env(combo).contains_key(name) {
            matrix_env(combo)[name]
        } else if or_empty(chain.env).contains_key(name) {
            or_empty(chain.env)[name]
        } else {
            globals[name]
        },
{
}

/// A later dimension of a matrix overrides the earlier ones: a variable
/// that the last entry of a combination sets has that entry's value.
pub proof fn lemma_matrix_env_last(combo: Seq<MatrixEntryView>, name: Seq<char>)
    requires
        combo.len() > 0,
        or_empty(combo.last().env).contains_key(name),
    ensures
        matrix_env(combo).contains_key(name),
        matrix_env(combo)[name] == or_empty(combo.last().env)[name],
{
}

/// A chain has as many combinations as the lengths of its matrix
/// dimensions multiply to, and one where it declares no matrix.
pub proof fn lemma_combos_len(chain: ChainDefView)
    ensures
        combos(chain).len() == match chain.matrix {
            Some(dims) => crate::matrix::volume(dims),
            None => 1,
        },
{
    if let Some(dims) = chain.matrix {
        crate::matrix::lemma_product_len(dims);
    }
}

/// A rendered chain holds one unit for each combination of its matrix, and
/// each unit holds the chain's tasks, one for one and in their order.
pub proof fn lemma_rendered_chain_shape(
    chain: ChainDefView,
    globals: Map<Seq<char>, Seq<char>>,
    leaves: Map<Seq<Seq<char>>, Seq<char>>,
)
    ensures
        render_chain(chain, globals, leaves) matches Ok(units) ==> units.len() == combos(chain).len()
            && forall|k: int, i: int|
            0 <= k < units.len() && 0 <= i < chain.tasks.len() ==> units[k].len() == chain.tasks.len()
                && render_task(chain.tasks[i], chain, combos(chain)[k], globals, leaves) == Ok::<
                TaskView,
                ErrorView,
            >(#[trigger] units[k][i]),
{
    let ms = matrix_results(chain, globals, leaves);
    lemma_collected(ms);
    if render_chain(chain, globals, leaves) is Ok {
        let units = render_chain(chain, globals, leaves)->Ok_0;
        assert forall|k: int, i: int| 0 <= k < units.len() && 0 <= i < chain.tasks.len() implies units[k].len()
            == chain.tasks.len() && render_task(chain.tasks[i], chain, combos(chain)[k], globals, leaves)
            == Ok::<TaskView, ErrorView>(#[trigger] units[k][i]) by {
            let ts = task_results(chain, combos(chain)[k], globals, leaves);
            assert(ms[k] == Ok::<Seq<TaskView>, ErrorView>(units[k]));
            lemma_collected(ts);
            assert(ts[i] == Ok::<TaskView, ErrorView>(units[k][i]));
        }
    }
}

} // verus!
