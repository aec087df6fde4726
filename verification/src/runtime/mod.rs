//! Runtime support for the Forth kernel: the session's I/O, and the pure
//! parts of the services the kernel calls.

pub mod session;
pub mod tokens;
pub mod machine;
pub mod libm;
pub mod report;
pub mod slurp;
pub mod builder;
