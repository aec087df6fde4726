//! The text protocol spoken with the Factor listener that runs the
//! NewFactor transpiler's output.

pub mod protocol;
