//! A small FORTH-style environment: the op model, a dictionary of words, a
//! line parser, a resumable interpreter over an operand stack, and the
//! shadow-stack lowering that the JIT turns into native code.
pub mod ops;
pub mod jit;
pub mod words;
pub mod machine;
pub mod parser;
pub mod laws;
