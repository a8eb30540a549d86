//! Lowering of a small expression language from its syntax tree into a
//! control-flow graph whose values are named relative to the dominator chain.
pub mod ast;
pub mod env;
pub mod ir;
pub mod lower;
pub mod pretty;
pub mod shape;
