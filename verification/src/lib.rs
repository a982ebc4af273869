//! Strided addressing for tensors that are reshaped and permuted in place.
//!
//! A [`ShapeTracker`] records how a logical index reaches a physical offset
//! after any sequence of reshapes and permutes, without moving data. Chained
//! layouts are fused whenever a small symbolic algebra can show that their
//! composition is again one strided layout.
//!
//! * [`layout`]: shapes, strides, row-major layouts and the offsets they give.
//! * [`expr`]: integer expressions over bounded variables, and their values.
//! * [`algebra`], [`construct`], [`meaning`]: the simplifying constructors of
//!   the expression algebra, as mathematics and as code, and what they mean.
//! * [`decompose`]: a flat index rewritten into its offset under a layout.
//! * [`merge`], [`fusion`]: fusing two chained layouts, and why the fused
//!   layout addresses what the chain addresses.
//! * [`tracker`]: the stack of layouts behind a tensor.
//! * [`compile`]: index expressions compiled into evaluators.
//! * [`sums`], [`products`]: sums and products of integer sequences.

pub mod algebra;
pub mod compile;
pub mod construct;
pub mod decompose;
pub mod expr;
pub mod fusion;
pub mod layout;
pub mod meaning;
pub mod merge;
pub mod products;
pub mod sums;
pub mod tracker;

pub use compile::{IndexFn, Step};
pub use decompose::expr_node;
pub use expr::{Node, Op};
pub use layout::{default_strides, View};
pub use merge::merge_views;
pub use tracker::ShapeTracker;
