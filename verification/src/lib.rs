//! Lossless byte codecs built on a verified binary arithmetic coder, their
//! context models, and the reversible glyph transforms and hash folds that
//! surround them.
use vstd::prelude::*;

pub mod bitfacts;
pub mod coder;
pub mod bitmodel;
pub mod logistic;
pub mod wire;
pub mod pilot;
pub mod sha;
pub mod mix;
pub mod lzp;
pub mod dirmix;
pub mod expand;
pub mod unified;
pub mod glyph;
pub mod bitpack;
pub mod order;
pub mod prism;
pub mod fold;
pub mod ladder;
pub mod ladder_codec;
pub mod pm;
pub mod lz;
pub mod train;

verus! {

} // verus!
