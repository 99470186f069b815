//! An assembler for the Ethereum virtual machine.
//!
//! [`assembler::Assembler`] turns a series of [`ops::RawOp`] into bytes. It expands macros, resolves
//! labels, and picks the width of the pushes that have none. What it does is stated in [`state`], as
//! a function from the program to the bytes or the error, and the other modules prove what follows
//! from that:
//!
//! - [`values`], [`substitution`], [`numerals`] and [`models`]: what expressions, macros, digits and
//!   the parts of a program stand for;
//! - [`steps`], [`progress`], [`refusals`] and [`references`]: what each item does, and when it is
//!   refused;
//! - [`placement`], [`widths`], [`room`], [`completion`] and [`output`]: where labels end up, how wide
//!   pushes get, when there is an output, and what it is;
//! - [`chunks`], [`packing`] and [`relocation`]: how a GIF file carries the program;
//! - [`laws`], [`determinism`], [`renaming`] and [`equivalence`]: what holds of several programs.

pub mod assembler;
pub mod chunks;
pub mod completion;
pub mod context;
pub mod determinism;
pub mod encode;
pub mod equivalence;
pub mod error;
pub mod evmgif;
pub mod expression;
pub mod integer;
pub mod labels;
pub mod laws;
pub mod macros;
pub mod models;
pub mod nonces;
pub mod numerals;
pub mod offset;
pub mod opcode;
pub mod ops;
pub mod output;
pub mod packing;
pub mod placement;
pub mod progress;
pub mod references;
pub mod refusals;
pub mod relocation;
pub mod renaming;
pub mod room;
pub mod state;
pub mod steps;
pub mod substitution;
pub mod values;
pub mod widths;
