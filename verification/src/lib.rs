//! A verified interpreter for a tiny bracket-loop language on a growable
//! byte tape.
//!
//! The library parses a source text into a tree of instructions (loops as
//! nested bracketed regions) and executes that tree against an in-memory
//! byte tape with a single cursor.  Both steps carry full functional
//! contracts: parsing is specified by a pure stack-machine over character
//! sequences, execution by a fuel-indexed big-step semantics over
//! mathematical machine states.

pub mod ast;
pub mod interp;
pub mod laws;
pub mod parser;
pub mod semantics;

pub use ast::Instruction;
pub use ast::Node;
pub use ast::NodeV;
pub use parser::Code;
pub use parser::ParseError;
pub use interp::ExecStatus;
pub use interp::Interpreter;
pub use semantics::ExecError;
pub use semantics::RunResult;
pub use semantics::StateV;
