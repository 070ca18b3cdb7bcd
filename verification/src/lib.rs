//! Transaction-aware bookkeeping for a BM25 full-text search extension:
//! where indexes live, which SQL statements maintain their catalog, how row
//! changes become pending index operations, how those operations are held
//! until commit or dropped on abort, and how search results are cached.

pub mod index;
pub mod operator;
pub mod text;
pub mod trigger;
pub mod vecs;
pub mod writer;
