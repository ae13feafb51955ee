//! A segmented list: a sequence that keeps its elements in segments ("chunks")
//! of bounded length instead of one contiguous buffer, with searches,
//! removals and sorting that work on the segments in parallel.
//!
//! The list itself is `ChunkList`. Its contracts are stated over the contents
//! of the segments (`segments()`), their concatenation (the view, `@`) and the
//! chunk size (`capacity()`); the functions that these contracts use are in
//! `layout`, `order` and `sizing`. What is believed of rayon and std, and not
//! proved, stands in `parallel`.
//!
//! What the contracts say of equal or ordered elements holds for element
//! types whose comparisons are a total order (`order::total_order`), as those
//! of the integers are; of other element types they state how many elements
//! and segments there are, not which.

pub mod chunklist;
pub mod error;
pub mod layout;
pub mod order;
pub mod parallel;
pub mod sizing;

pub use chunklist::ChunkList;
pub use error::ChunkListError;
