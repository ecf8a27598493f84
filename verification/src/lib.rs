//! A double-array trie: string keys mapped to values through two parallel
//! integer arrays, with exact lookup, prefix enumeration and incremental
//! construction.
//!
//! [`Dat`] is the executable trie. Its contracts speak of [`DatView`], the
//! trie as mathematical data: `model` holds the queries, `construct` what an
//! insertion does to the arrays, `growth` how far it can grow them.
//! `consistency`, `relocation` and `insertion` say when an insertion is safe,
//! and `laws` what holds of every trie that was built by safe insertions.
pub mod model;
pub mod construct;
pub mod growth;
pub mod consistency;
pub mod relocation;
pub mod insertion;
pub mod laws;
pub mod dat;

pub use dat::Dat;
pub use model::DatView;
pub use model::LIMIT;
