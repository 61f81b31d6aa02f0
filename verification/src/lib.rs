//! A zipper over a finite sequence, closed into a ring.
//!
//! A [`Zipper`] keeps a focus on one element of a sequence and can move that
//! focus forwards and backwards. Moving past the last element arrives at the
//! first one, and moving before the first arrives at the last, so a walk in
//! either direction never ends for want of elements.
//!
//! What a zipper holds is told by its view, a [`Split`]; the contracts of the
//! operations and the laws in [`laws`] speak of that.
#![allow(unused_imports)]

pub mod iter;
pub mod laws;
pub mod render;
pub mod search;
pub mod split;
pub mod stacks;
pub mod zipper;

pub use iter::{ZipperIntoIter, ZipperIter};
pub use render::render;
pub use split::Split;
pub use zipper::{SequenceDirection, Zipper};
