//! Peg solitaire on the 33-hole English board: a bit-packed position, the
//! table of jumps, symmetry normal forms, de Bruijn's algebraic invariant and
//! a Bloom-filter guided solver, each with a machine-checked contract.

pub mod arrangement;
pub mod ascii;
pub mod bitbox;
pub mod bits;
pub mod bloom;
pub mod buckets;
pub mod builder;
pub mod coord;
pub mod debruijn;
pub mod game_state;
pub mod jumps;
pub mod moves;
pub mod permutation;
pub mod position;
pub mod primality;
pub mod search;
pub mod shuffle;
pub mod solve_path;
pub mod solver;
pub mod survey;
pub mod symmetry;
pub mod visit_map;
