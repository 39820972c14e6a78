//! Parameter-name hints for call sites of a dynamically typed scripting
//! language.
//!
//! One analysis pass walks a syntax tree, keeps a tree of lexical scopes with
//! the bindings each scope holds, resolves the callee of every call to a
//! function definition, and pairs the declared parameters with the call's
//! arguments. The text of an open document is kept up to date from the
//! changes an editor reports.

pub mod arena;
pub mod document;
pub mod hint;
pub mod ids;
pub mod laws;
pub mod manager;
pub mod outline;
pub mod resolve;
pub mod scope;
pub mod syntax;
pub mod table;
pub mod text;
pub mod traverse;
pub mod visitor;
