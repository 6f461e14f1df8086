//! A solver for the Krypto card puzzle: given a hand of numeric cards and a
//! target integer, find arithmetic expressions (each card used exactly once,
//! combined with `+`, `-`, `*`, `/`) that evaluate to the target exactly,
//! using exact rational arithmetic throughout.
//!
//! The engine enumerates every binary tree shape over the hand's slots
//! (`shapes`), walks the deduplicated orderings of the hand (`perms`),
//! evaluates each shape over each ordering with exact unreduced fractions
//! (`rational`, `formula`), and either streams the satisfying expressions
//! (`search::find_answers`) or reports which candidate targets no
//! expression reaches (`search::compute_impossibles`). `api` carries the
//! boundary types a caller serves over a wire.

pub mod api;
pub mod formula;
pub mod perms;
pub mod rational;
pub mod search;
pub mod shapes;
