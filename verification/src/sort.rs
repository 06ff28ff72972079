//! The column a report is sorted by.

use crate::text::same_text;
use vstd::prelude::*;

verus! {

/// The column by which rows are sorted.
#[derive(Clone, Copy, Debug, PartialEq, Eq, Structural)]
pub enum SortKey {
    /// Ascending by display name.
    Language,
    /// Descending by number of files.
    Files,
    /// Descending by code lines.
    Code,
    /// Descending by comment lines.
    Comment,
    /// Descending by blank lines.
    Blank,
    /// Descending by total lines.
    Lines,
}

/// The key that a column name stands for, if it names a column.
pub open spec fn key_named(name: Seq<char>) -> Option<SortKey> {
    if name == "language"@ {
        Some(SortKey::Language)
    } else if name == "files"@ {
        Some(SortKey::Files)
    } else if name == "code"@ {
        Some(SortKey::Code)
    } else if name == "comment"@ {
        Some(SortKey::Comment)
    } else if name == "blank"@ {
        Some(SortKey::Blank)
    } else if name == "lines"@ {
        Some(SortKey::Lines)
    } else {
        None
    }
}

/// The key that a report uses for a requested column name: the named column,
/// or `Code` for a name that is no column.
pub open spec fn key_used(name: Seq<char>) -> SortKey {
    match key_named(name) {
        Some(key) => key,
        None => SortKey::Code,
    }
}

impl SortKey {
    /// The key named by `name`, or `None` for a name that is no column.
    pub fn parse(name: &str) -> (key: Option<SortKey>)
        ensures
            key == key_named(name@),
    {
        if same_text(name, "language") {
            Some(SortKey::Language)
        } else if same_text(name, "files") {
            Some(SortKey::Files)
        } else if same_text(name, "code") {
            Some(SortKey::Code)
        } else if same_text(name, "comment") {
            Some(SortKey::Comment)
        } else if same_text(name, "blank") {
            Some(SortKey::Blank)
        } else if same_text(name, "lines") {
            Some(SortKey::Lines)
        } else {
            None
        }
    }

    /// The key to sort by for a requested name, and whether the name was
    /// unknown, in which case the key is `Code` and a warning is due.
    pub fn resolve(name: &str) -> (r: (SortKey, bool))
        ensures
            r.0 == key_used(name@),
            r.1 == (key_named(name@) is None),
    {
        match SortKey::parse(name) {
            Some(key) => (key, false),
            None => (SortKey::Code, true),
        }
    }
}

} // verus!
