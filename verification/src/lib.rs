//! Rewrites numeric variable references in ERB script text into readable
//! names, using index-to-name tables loaded from CSV companion files.

pub mod laws;
pub mod names;
pub mod resolver;
pub mod rewrite;
pub mod store;
pub mod table;
pub mod text;

pub use names::{is_chara_csv, is_global_csv, is_need_csv, Opt};
pub use rewrite::{apply_patterns, convert_text, RegexPat};
pub use store::CsvInfo;
pub use table::{check_bom, normalize_name, parse_csv, CsvError, Table};
pub use text::str_eq;
