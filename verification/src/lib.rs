//! The control logic of a single-layer perceptron, kept apart from its arithmetic.
//!
//! A perceptron learns from samples, each a run of feature values followed by a
//! target value. This crate decides everything about training and evaluation
//! that does not depend on the numbers themselves: whether a sample has the
//! right shape, in which order the samples are presented during each pass, when
//! training is over, and how many predictions of an evaluation were right.
pub mod order;
pub mod sample;
pub mod schedule;
pub mod scoring;
