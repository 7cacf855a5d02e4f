//! Position framing and expert-parallel layer execution for hipfire models.
//!
//! - [`mrope`]: three-axis rotary positions of a prompt that mixes text with
//!   images, and the map from rotary frequency to position axis.
//! - [`ep`]: the decisions of the expert-parallel executor, which runs one layer
//!   program across several device ranks.
//! - [`decimal`]: numbers in messages.

pub mod decimal;
pub mod ep;
pub mod mrope;
