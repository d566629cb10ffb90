//! Core of a letters word game: a sorted dictionary index, a weighted
//! letter-pool generator, a multiset-based formability check, and an
//! exhaustive longest-word search.

pub mod game_core;
pub mod laws;
pub mod model;
mod formability;
mod frequency;
mod order;
mod parse;
mod pool;
pub mod ui_text;
