//! Arithmetic expressions lowered to a compact bytecode and run on a stack machine.
//!
//! A floating value is carried as its IEEE-754 binary32 bit pattern. Integer
//! work, stack discipline and instruction decoding all happen here; whenever an
//! operator needs floating-point arithmetic, the machine pauses and names the
//! operation, and the caller supplies its result.
pub mod ast;
pub mod val;
pub mod opcode;
pub mod bytecode;
pub mod vm;
pub mod correctness;
pub mod parser;
pub mod utils;
pub mod interpreter;
