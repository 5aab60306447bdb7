//! An interpreter for the river language: programs are space-delimited
//! token streams that parse into a tree of named nodes, and execution is a
//! sequence of global ticks that flow snow, water, power and salmon through
//! the tree.

pub mod laws;
mod program;
pub mod river;
pub mod salmon;
mod split_custom_escape;
pub mod text;
mod tick;

pub use program::ParseError;
pub use program::Program;
pub use program::ProgramView;
pub use split_custom_escape::HomespringSplit;
pub use tick::PropagationOrder;
pub use tick::Tick;
