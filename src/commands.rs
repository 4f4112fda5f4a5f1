use vstd::prelude::*;

use crate::line_count::{requests_view, CountRequest, LineCount};
use crate::tree::FsTree;

verus! {

/// The subcommands.
pub enum Command {
    LineCount(LineCount),
}

impl Command {
    /// The rows that the subcommand counts.
    pub open spec fn rows(&self, tree: FsTree) -> Seq<(Seq<Seq<char>>, Seq<Seq<Seq<char>>>)> {
        match self {
            Command::LineCount(cmd) => cmd.rows(tree),
        }
    }

    /// What the subcommand has to count in `tree`.
    pub fn eval(&self, tree: &FsTree) -> (r: Vec<CountRequest>)
        requires
            tree.wf(),
            tree.complete(),
        ensures
            requests_view(r@) == self.rows(*tree),
    {
        match self {
            Command::LineCount(cmd) => cmd.run(tree),
        }
    }
}

/// The program's arguments: one subcommand.
pub struct App {
    pub command: Command,
}

impl App {
    /// What the chosen subcommand has to count in `tree`.
    pub fn run(&self, tree: &FsTree) -> (r: Vec<CountRequest>)
        requires
            tree.wf(),
            tree.complete(),
        ensures
            requests_view(r@) == self.command.rows(*tree),
    {
        self.command.eval(tree)
    }
}

} // verus!
