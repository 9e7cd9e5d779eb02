//! Verified core of a graphical front end for GDB's machine interface:
//! the tokenizer and parser of GDB/MI output records, and the debugger
//! state that the parsed records update.

pub mod text;
pub mod parser;
pub mod show;
pub mod token_laws;
pub mod strmap;
pub mod order;
pub mod debugger;
pub mod controls;
pub mod asm_laws;
pub mod roundtrip;
pub mod update_laws;
