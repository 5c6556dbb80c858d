//! CHAKOBSA: a small statically typed language compiled without an AST.
//! Source text is lexed into a flat token stream, parsed straight into a
//! typed SSA intermediate representation, validated, interpreted by a
//! reference interpreter, and lowered to a register machine program.

pub mod types;
pub mod value;
pub mod inst;
pub mod block;
pub mod function;
pub mod module;
pub mod lexer;
pub mod validate;
pub mod interp;
pub mod ssa_builder;
pub mod text;
pub mod parser;
pub mod liveness;
pub mod regalloc;
pub mod machine;
pub mod lower;
pub mod parallel;
pub mod codegen;
pub mod dump_ir;
pub mod runnable;
pub mod ready;
pub mod zero_register;
pub mod relex;
pub mod validated;
pub mod parsed_validation;
