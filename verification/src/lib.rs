//! TRX: a small language for diagrams, packets, state machines, XY charts and
//! SQL schemas, with its parser, expression trees, style cascade and layout
//! ranking, every part stated and proved with Verus.

pub mod text;
pub mod textmap;
pub mod ast;
pub mod parser;
pub mod builder;
pub mod layout;
pub mod preprocess;
pub mod compiler;
pub mod evaluator;
pub mod plan_flags;
pub mod resolution;
pub mod render;
