//! A parsed program and the parse errors.

use vstd::prelude::*;
use vstd::string::StringExecFns;

use crate::river::{Node, NodeView};

verus! {

/// A parse error: a dedent with no enclosing parent, or a program text
/// that ends inside a '.' escape.
#[derive(Debug, PartialEq, Eq, Structural, Clone, Copy)]
pub enum ParseError {
    MalformedProgram,
}

/// A parsed program: the empty program — the language's quine case, whose
/// execution differs from the general case — or a river tree.
#[derive(Debug)]
pub enum Program {
    Quine,
    River(Node),
}

/// The mathematical value of a program.
pub enum ProgramView {
    Quine,
    River(NodeView),
}

impl View for Program {
    type V = ProgramView;

    open spec fn view(&self) -> ProgramView {
        match self {
            Program::Quine => ProgramView::Quine,
            Program::River(n) => ProgramView::River(n@),
        }
    }
}

impl Program {
    /// The parsed tree, when there is one.
    pub fn to_node(self) -> (r: Option<Node>)
        ensures
            match self {
                Program::River(n) => r == Some(n),
                Program::Quine => r is None,
            },
    {
        match self {
            Program::River(n) => Some(n),
            _ => None,
        }
    }

    /// What executing the program prints. Only the null program's
    /// execution is defined: in Homespring, it is not a quine, and says
    /// so. Running a tree program is driven tick by tick from outside.
    pub fn execute(&self) -> (msg: String)
        requires
            self@ is Quine,
        ensures
            msg@ == "In Homespring, the null program is not a quine."@,
    {
        String::from_str("In Homespring, the null program is not a quine.")
    }
}

} // verus!
