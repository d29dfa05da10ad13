//! Zap: a small interpreter for an S-expression language.
//!
//! Source text is read into a tree of values, the tree is compiled into
//! bytecode, and a stack machine runs the bytecode against an environment of
//! interned symbols and global bindings.
//!
//! * [`zap`] holds the values that programs compute with;
//! * [`env`] holds the symbol table and the global bindings;
//! * [`reader`] turns text into trees, piece by piece as the text arrives;
//! * [`compiler`] turns a tree into a chunk of bytecode;
//! * [`vm`] runs a chunk;
//! * [`printer`] writes values out;
//! * [`builtins`] holds the native functions;
//! * [`pipeline`] puts the parts together.
//!
//! Numbers are 64-bit floats. The library carries them as their bits and
//! compares them itself; reading, writing and arithmetic are the host's, who
//! hands them over as [`numbers::Numbers`].
//!
//! Besides the native functions of the library a program can call native
//! functions of the host's own: the host registers each under a name with a
//! number of its choice, as [`builtins::Builtin::Host`], and hands over one
//! function that runs them by number, as [`builtins::Natives`].
//!
//! What holds of the parts in general is proved in [`reader_laws`],
//! [`compiler_laws`], [`vm_laws`], [`tail_calls`] and [`branching`].

pub mod branching;
pub mod builtins;
pub mod compiler;
pub mod compiler_laws;
pub mod env;
pub mod numbers;
pub mod pipeline;
pub mod printer;
pub mod reader;
pub mod reader_laws;
pub mod tail_calls;
pub mod text;
pub mod vm;
pub mod vm_laws;
pub mod zap;
