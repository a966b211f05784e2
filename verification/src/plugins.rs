//! Plugins that extend the interpreter.

pub mod security;
pub mod cdr;
pub mod fft;
pub mod gtk;
pub mod plot;
pub mod png;
pub mod python;
pub mod sql;
