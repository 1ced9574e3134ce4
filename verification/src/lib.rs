//! Brute-force search for an N-dimensional cellular-automaton update rule
//! whose active-cell-count trajectory matches a caller-supplied target
//! integer sequence.
//!
//! Three subsystems make up the library:
//! - an exhaustive, non-redundant enumerator of boolean combinator trees
//!   ([`op_node`]) with a symmetry-reducing variable permuter ([`permuter`];
//!   [`set_permuter`] and [`vector_permuter`] are stand-alone variants of the
//!   same cursor idea);
//! - a sparse, content-addressed, incrementally growing integer lattice of
//!   cells ([`delta`], [`cell`], [`space`]);
//! - a search driver that composes dimension, rule structure, action and
//!   permutation into trial simulations and compares each trajectory against
//!   the target ([`rule`], [`state_explorer`]).

pub mod delta;
pub mod cell;
pub mod permuter;
pub mod op_node;
pub mod rule;
pub mod space;
pub mod state_explorer;
pub mod set_permuter;
pub mod vector_permuter;
