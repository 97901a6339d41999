//! Discovery of data-profile dependencies in collections of hierarchical
//! key/value documents: functional dependencies found by a level-wise lattice
//! search over path subsets, and inclusion dependencies found by pairwise
//! subset tests over per-path value bitmaps, together with the document
//! flattener that expands arrays into a Cartesian product of flat records.

pub mod bits;
pub mod collect;
pub mod doc;
pub mod fd;
pub mod fdcollect;
pub mod flatten;
pub mod ind;
pub mod intern;
pub mod pairs;
