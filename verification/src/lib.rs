//! An index of the symbols in C# reference sources, kept per version of the
//! sources, and the differences between two versions.
//!
//! * [`index`] keeps the index of a version up to date with its files, taking the
//!   declared types out of them with [`extract`].
//! * [`find`] looks symbols up in an index.
//! * [`diff`] compares a symbol, or all symbols below a path, in two versions, on
//!   the hunks that [`hunks`] computes from their lines.
//! * [`symbols`] has the types of the index and [`error`] the errors; [`names`],
//!   [`text`], [`order`], [`lists`] and [`table`] are what the rest is built on.
//!
//! The library reads no files and no clock. What it has to know of them is handed
//! to it, as values or as functions that it calls.
pub mod diff;
pub mod error;
pub mod extract;
pub mod find;
pub mod hunks;
pub mod index;
pub mod lists;
pub mod names;
pub mod order;
pub mod symbols;
pub mod table;
pub mod text;
