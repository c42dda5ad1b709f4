//! Affinities of pairs of elements in access traces: the histogram pass,
//! single and joint window frequencies computed from its histograms, and
//! the affinities of pairs listed highest first.
pub mod histogram;
pub mod pair;
pub mod keys;
pub mod scan;
pub mod frequency;
pub mod windows;
pub mod affinity;
pub mod node_order;
pub mod text;
pub mod trace;
pub mod words;
pub mod prompt;
pub mod pass_laws;
pub mod reading_laws;
