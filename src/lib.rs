//! A retained-mode UI layout and styling engine.
//!
//! A [`Manager`] holds a tree of [`Node`]s and a set of style documents. Each
//! call of [`Manager::layout`] styles the nodes that changed, by matching rule
//! chains against them and their ancestors, and positions them with layout
//! engines; [`Manager::render`] then hands every [`RenderObject`] to a visitor.
//!
//! A node owns its children, so a node has at most one parent by construction;
//! a node inside a manager is named by its path, the child indices that lead to
//! it from the root (see [`Manager::render_position`] and [`query::Query`]).
//!
//! Floats are held as the bit patterns of IEEE-754 binary64 numbers: they can be
//! stored, compared, negated and rounded to integers, but the style language does
//! not compute float literals or arithmetic on floats (see [`EvalError`]).
pub mod value;
pub mod lexer;
pub mod style;
pub mod eval;
pub mod node;
pub mod cascade;
pub mod layout;
pub mod position;
pub mod manager;
pub mod desc;
pub mod query;

pub use value::{CustomValue, PropertyValue, Rect, Value};
pub use lexer::{ParseError, ParseErrorKind, Position};
pub use eval::{EvalError, Functions, Op, StyleFunction};
pub use node::{Engine, LayoutEngine, LayoutFactory, Layouts, Node, NodeValue, RenderObject};
pub use manager::{Manager, RenderVisitor, Styles};
