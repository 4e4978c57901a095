//! Forward inference of small 3x3 convolutional networks over image feature
//! maps, as used for single-image denoising and 2x super-resolution.
//!
//! The sample type is a parameter of the library: every layout transform and
//! both convolution strategies are proved for any sample type whose arithmetic
//! is supplied through [`arith::Arith`]. Fixed-point arithmetic comes with the
//! library in [`fixed`].
//!
//! - [`layout`], [`grid`]: places in buffers, and the samples of a set of
//!   planes as the contracts speak of them.
//! - [`feature_map`]: the buffer of planes and its layout.
//! - [`padding`]: filling and adding padding, and enlarging a buffer.
//! - [`colorspace`]: conversion between RGB and luma/chroma planes.
//! - [`decoded`]: buffers from and to decoded images of the `image` crate.
//! - [`model`]: layers and models.
//! - [`cnn`]: what a model computes, and what holds of both strategies.
//! - [`planar`]: the planar strategy.
//! - [`interleaved`], [`interleaved_layer`]: the interleaved strategy.
//! - [`pipeline`]: padding, running a model and reattaching chroma planes.
//! - [`format`]: the image file format of a path.

pub mod arith;
pub mod cnn;
pub mod colorspace;
pub mod decoded;
pub mod feature_map;
pub mod fixed;
pub mod format;
pub mod grid;
pub mod interleaved;
pub mod interleaved_layer;
pub mod layout;
pub mod model;
pub mod padding;
pub mod pipeline;
pub mod planar;
