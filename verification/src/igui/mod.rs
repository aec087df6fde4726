//! Editor and console logic of the integrated GUI: the rope buffer, the
//! s-expression navigator, the console model and the frame's message
//! decoding.

pub mod rope_buffer;
pub mod sexp_lex;
pub mod sexp_nav;
pub mod fconsole;
pub mod window;
pub mod sexp_laws;
