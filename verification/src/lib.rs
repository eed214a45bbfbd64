//! Rebuilds a hierarchical occupational-classification record set from
//! OCR-corrupted spreadsheet text: merges wrapped physical lines into logical
//! entries, extracts `{id, code, description}` records, repairs one known
//! reading-order defect, and folds the records into an insertion-ordered tree
//! keyed by dash-delimited id segments.

pub mod normalize;
pub mod parser;
pub mod reconstruct;
pub mod text;
pub mod tree;

pub use normalize::normalize_first_category;
pub use parser::Category;
pub use parser::parse_categories;
pub use reconstruct::construct_lines;
pub use tree::CategoryTree;
