//! The outline of a book, made from the tree of its Markdown sources.
//!
//! The source tree is handed over as a plain listing (`source`). The walk
//! (`tree`) turns every directory and every Markdown file into a chapter,
//! takes the text of a directory from its index file, and has the chapters
//! of each directory ordered and grouped by the category tag of their file
//! names (`sorter`, `names`). The finished outline (`outline`) is numbered
//! from the top down (`numberer`). `preprocessor` puts the steps together,
//! and `version` tells whether the calling host is one this crate was built
//! against.
//!
//! Every function states what it returns over the mathematical views of its
//! arguments. What holds of every outline is proved in `laws`, and that an
//! outline does not depend on the order of a listing in `independence`.

pub mod independence;
pub mod laws;
pub mod names;
pub mod numberer;
pub mod outline;
pub mod preprocessor;
pub mod sorter;
pub mod source;
pub mod tree;
pub mod version;
