//! A bytecode compiler for the Lox language, with its string-interning heap,
//! its mark-and-sweep collector, the textual bytecode format and a small
//! WebAssembly backend, all verified with Verus.

pub mod opcode;
pub mod memory;
pub mod text;
pub mod source_loc;
pub mod token;
pub mod lexer;
pub mod value;
pub mod chunk;
pub mod hash_table;
pub mod heap_object;
pub mod heap;
pub mod shadow_stack;
pub mod precedence;
pub mod output;
pub mod parser;
pub mod syntax;
pub mod program;
pub mod compiler;
pub mod machine;
pub mod compilation;
pub mod serialize;
pub mod grammar;
pub mod deserialize;
pub mod display;
pub mod wasm_encode;
pub mod wasm_compiler;
pub mod vm;
