pub mod ast;
pub mod text;
pub mod lexer;
pub mod parser;
pub mod borrowck;
pub mod ir;
pub mod lowering;
pub mod liveness;
pub mod regalloc;
pub mod backend;
pub mod jit;
