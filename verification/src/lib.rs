//! Operon inference over assembled transcripts.
//!
//! A transcript that spans several shorter, more strongly expressed
//! transcripts on its own strand is a container; the transcripts it spans are
//! its genes. The library classifies transcripts, reduces each container's
//! genes to a non-overlapping selection, merges overlapping containers into
//! numbered operons, refines each operon's membership and tabulates the result.
//!
//! Coverage and expression are fixed-point integers and the coverage threshold
//! is a ratio of two integers, so every comparison is exact.
//!
//! A run goes through the modules in this order:
//!
//! - [`annotation`] attaches exons and annotation lines to transcripts;
//! - [`index`] groups the transcripts by chromosome;
//! - [`classify`] holds the pairwise predicates, [`order`] the stable sort
//!   and [`select`] the non-overlapping selection that the stages share;
//! - [`candidates`] finds the containers of a chromosome and their genes;
//! - [`cluster`] merges the candidate pairs into operons;
//! - [`refine`] reduces each operon to the membership table;
//! - [`pipeline`] runs these stages over a whole index;
//! - [`summary`] counts the operons by size;
//! - [`keys`] and [`emit`] put rows and ids in order for output.

pub mod model;
pub mod classify;
pub mod order;
pub mod select;
pub mod candidates;
pub mod cluster;
pub mod refine;
pub mod summary;
pub mod annotation;
pub mod index;
pub mod pipeline;
pub mod keys;
pub mod emit;
