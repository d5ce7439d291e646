//! A stereo glitch effect core: segments of the input are collected between
//! detected crossings of a sensing signal and re-emitted interleaved in
//! proportion to their lengths.
//!
//! The library is generic over the sample type and does all of its
//! arithmetic on integers. Every function carries a contract that Verus
//! proves; only the two calls into the noise generator are taken on trust.

pub mod braid;
pub mod detector;
pub mod engine;
pub mod interlacer;
pub mod noise;
pub mod params;
pub mod queue;
