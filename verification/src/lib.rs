//! Duplicate-file detection by content.
//!
//! The library holds the decisions of a scan; reading the file system is
//! left to the caller, who hands in what it read as plain values. A scan
//! goes through these steps:
//!
//! 1. [`traverse`]: a [`traverse::Traversal`] names the directories to list
//!    and sorts the entries it is given into candidate files and empty
//!    files.
//! 2. [`buckets`]: [`buckets::group_by_size`] partitions the candidates by
//!    their size.
//! 3. [`content`]: [`content::hash_candidates`] picks the files that share
//!    their size with another; the caller hashes them with [`digest`];
//!    [`content::group_by_hash`] forms the sets of duplicates.
//!
//! [`grouping`] holds the mathematics of grouping by key, [`tree`] relates a
//! traversal to the directory tree it walks, and [`scan`] states what holds
//! of a scan as a whole.

pub mod buckets;
pub mod content;
pub mod digest;
pub mod grouping;
pub mod scan;
pub mod traverse;
pub mod tree;
