//! Candidate-string enumeration: every fixed-length string over a chosen
//! alphabet, and every substitution of a term driven by a character-to-
//! alternatives translation table, plus the plan by which the combination
//! work is fanned out over a bounded pool of workers.

pub mod alphabet;
pub mod combos;
pub mod dispatch;
pub mod permute;
mod strutil;
pub mod trtable;
