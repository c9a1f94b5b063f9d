//! Scoring kernel of a reaction-time game.
//!
//! The kernel turns the reaction times and perfect taps of one play session
//! into a mean, a consistency score and a bounded score. It is meant to run
//! where its result is proven, so it computes on binary32 values with
//! integer arithmetic alone, in a fixed order, and every value it returns
//! is pinned down bit for bit.
//!
//! - [`binary32`] holds the format; [`rounding`] rounds exact values to it;
//!   [`addition`], [`arith`], [`sqrt`], [`convert`] and [`order`] are the
//!   operations; [`facts`] and [`scaling`] collect what the theorems need
//!   of them.
//! - [`score`] is the kernel, and [`theorems`] states what holds of all its
//!   results.
//! - [`pcg`] is a small deterministic generator, kept for sessions that
//!   spawn from a seed.

pub mod addition;
pub mod arith;
pub mod binary32;
pub mod convert;
pub mod facts;
pub mod log2;
pub mod order;
pub mod pcg;
pub mod rounding;
pub mod scaling;
pub mod score;
pub mod sqrt;
pub mod theorems;
