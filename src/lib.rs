//! Builds a per-language index of entry titles from the pages of a wiki dump:
//! a table of language names read from tab-separated text, a classifier that
//! finds the languages of a page, and an index that files each title under
//! its language codes and sorts each list case-insensitively.

pub mod bytes;
pub mod classify;
pub mod entries;
pub mod error;
pub mod key_index;
pub mod language_code;
pub mod name_table;
pub mod sort;

pub use classify::{classify, Classification, Diagnostic, Heading, Namespace};
pub use entries::LanguagesToEntries;
pub use error::Error;
pub use language_code::LanguageCode;
pub use name_table::LanguageNameToCode;
pub use sort::{sort_caseless, sort_order};
