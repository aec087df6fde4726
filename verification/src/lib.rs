//! WF64 library: structural navigation of Lisp-style source text, the LET
//! expression compiler, the interactive console model and the pure parts of
//! the Forth runtime support.

pub mod igui;
pub mod text;
pub mod let_lang;
pub mod lines;
pub mod newfactor;
pub mod runtime;
pub mod worker;
