//! Degrees-of-separation analysis for undirected graphs given as two
//! parallel columns of raw node identifiers: the identifier space is
//! compacted to a dense range, an adjacency list is built, and the
//! distribution of pairwise shortest-path distances is computed.

pub mod dataprocessing;
pub mod degrees_separation;
pub mod statistics;
