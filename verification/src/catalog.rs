//! What a catalog declares: chains, their tasks, matrices and shells.

use crate::env::Env;
use vstd::prelude::*;

verus! {

/// A program and the arguments that make it take a command as its next
/// argument.
#[derive(Debug)]
pub struct Shell {
    pub program: String,
    pub args: Vec<String>,
}

/// The mathematical view of `Shell`.
pub struct ShellView {
    pub program: Seq<char>,
    pub args: Seq<Seq<char>>,
}

impl DeepView for Shell {
    type V = ShellView;

    open spec fn deep_view(&self) -> ShellView {
        ShellView { program: self.program@, args: self.args.deep_view() }
    }
}

impl View for Shell {
    type V = ShellView;

    open spec fn view(&self) -> ShellView {
        self.deep_view()
    }
}

/// A task as declared: a command template with optional overrides.
#[derive(Debug)]
pub struct TaskDef {
    pub script: String,
    pub env: Option<Env>,
    pub workdir: Option<String>,
    pub shell: Option<Shell>,
}

/// The mathematical view of `TaskDef`.
pub struct TaskDefView {
    pub script: Seq<char>,
    pub env: Option<Map<Seq<char>, Seq<char>>>,
    pub workdir: Option<Seq<char>>,
    pub shell: Option<ShellView>,
}

impl DeepView for TaskDef {
    type V = TaskDefView;

    open spec fn deep_view(&self) -> TaskDefView {
        TaskDefView {
            script: self.script@,
            env: self.env.deep_view(),
            workdir: self.workdir.deep_view(),
            shell: self.shell.deep_view(),
        }
    }
}

impl View for TaskDef {
    type V = TaskDefView;

    open spec fn view(&self) -> TaskDefView {
        self.deep_view()
    }
}

/// One entry of a matrix dimension.
#[derive(Debug)]
pub struct MatrixEntry {
    pub env: Option<Env>,
    pub workdir: Option<String>,
}

/// The mathematical view of `MatrixEntry`.
pub struct MatrixEntryView {
    pub env: Option<Map<Seq<char>, Seq<char>>>,
    pub workdir: Option<Seq<char>>,
}

impl DeepView for MatrixEntry {
    type V = MatrixEntryView;

    open spec fn deep_view(&self) -> MatrixEntryView {
        MatrixEntryView { env: self.env.deep_view(), workdir: self.workdir.deep_view() }
    }
}

impl View for MatrixEntry {
    type V = MatrixEntryView;

    open spec fn view(&self) -> MatrixEntryView {
        self.deep_view()
    }
}

/// A chain as declared in the catalog.
#[derive(Debug)]
pub struct ChainDef {
    pub description: Option<String>,
    pub pre: Option<Vec<String>>,
    pub matrix: Option<Vec<Vec<MatrixEntry>>>,
    pub tasks: Vec<TaskDef>,
    pub workdir: Option<String>,
    pub env: Option<Env>,
    pub shell: Option<Shell>,
}

/// The mathematical view of `ChainDef`.
pub struct ChainDefView {
    pub description: Option<Seq<char>>,
    pub pre: Option<Seq<Seq<char>>>,
    pub matrix: Option<Seq<Seq<MatrixEntryView>>>,
    pub tasks: Seq<TaskDefView>,
    pub workdir: Option<Seq<char>>,
    pub env: Option<Map<Seq<char>, Seq<char>>>,
    pub shell: Option<ShellView>,
}

impl DeepView for ChainDef {
    type V = ChainDefView;

    open spec fn deep_view(&self) -> ChainDefView {
        ChainDefView {
            description: self.description.deep_view(),
            pre: self.pre.deep_view(),
            matrix: self.matrix.deep_view(),
            tasks: self.tasks.deep_view(),
            workdir: self.workdir.deep_view(),
            env: self.env.deep_view(),
            shell: self.shell.deep_view(),
        }
    }
}

impl View for ChainDef {
    type V = ChainDefView;

    open spec fn view(&self) -> ChainDefView {
        self.deep_view()
    }
}

impl ChainDefView {
    /// The names of the chains that must have run before this one.
    pub open spec fn prerequisites(self) -> Seq<Seq<char>> {
        match self.pre {
            Some(names) => names,
            None => Seq::empty(),
        }
    }
}

} // verus!
