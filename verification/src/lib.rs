//! Bounded-memory evidence combination for Dempster-Shafer belief theory.
//!
//! A mass assignment maps set-valued hypotheses to fixed-point masses
//! (micro-units, see [`mass::UNIT`]). The crate bounds the number of focal
//! elements an assignment may carry (`approx`), fuses bounded assignments
//! with Dempster's conflict-aware rule (`comb`), and answers belief and
//! plausibility queries against the result (`dst`).

pub mod approx;
pub mod bounded;
pub mod comb;
pub mod container;
pub mod dst;
pub mod hash;
pub mod hashmap;
pub mod interval;
pub mod mass;
pub mod product;
pub mod query;
pub mod set;
