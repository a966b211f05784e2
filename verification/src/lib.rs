//! A verified core of an APL interpreter: shapes, values, array primitives,
//! system variables and an expression evaluator.

pub mod types;
pub mod shape;
pub mod cell;
pub mod value;
pub mod scalar;
pub mod layout;
pub mod rotate;
pub mod replicate;
pub mod partition;
pub mod squad;
pub mod pick;
pub mod union;
pub mod sort;
pub mod take_drop;
pub mod transpose;
pub mod rank;
pub mod text;
pub mod catenate;
pub mod encode;
pub mod tokenizer;
pub mod prims;
pub mod format;
pub mod dispatch;
pub mod functions_def;
pub mod parser;
pub mod sysvars;
pub mod syscmd;
pub mod quad;
pub mod quad_re;
pub mod quad_plot;
pub mod security;
pub mod plugin_system;
pub mod plugins;
