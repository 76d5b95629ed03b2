//! Comparing two directory trees, subdirectory by subdirectory.
//!
//! For each immediate subdirectory of either root the library says whether only one root
//! holds it, or which files either side lacks and, on request, which common files differ in
//! content. Nothing here reads the file system: the [`engine`] asks for what it needs to
//! know and is told.

pub mod order;
pub mod path;
pub mod path_set;
pub mod walk;
pub mod digest;
pub mod content;
pub mod report;
pub mod compare;
pub mod engine;
pub mod faithful;
