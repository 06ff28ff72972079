//! The language tag of a file.

use vstd::prelude::*;
use vstd::string::*;

verus! {

/// The mathematical value of a language tag.
pub enum LangTag {
    /// No language was recognised.
    Unrecognized,
    /// A language, identified by its display name.
    Named(Seq<char>),
}

/// A language as classified from a file's name, or the sentinel for a file
/// of no known language. A language is identified by its display name.
#[derive(Debug)]
pub enum Lang {
    Unrecognized,
    Named(String),
}

impl View for Lang {
    type V = LangTag;

    open spec fn view(&self) -> LangTag {
        match self {
            Lang::Unrecognized => LangTag::Unrecognized,
            Lang::Named(name) => LangTag::Named(name@),
        }
    }
}

impl LangTag {
    /// The name under which the tag is displayed and ordered.
    pub open spec fn name(self) -> Seq<char> {
        match self {
            LangTag::Unrecognized => "Unrecognized"@,
            LangTag::Named(name) => name,
        }
    }
}

impl Clone for Lang {
    fn clone(&self) -> (r: Lang)
        ensures
            r@ == self@,
    {
        match self {
            Lang::Unrecognized => Lang::Unrecognized,
            Lang::Named(name) => Lang::Named(name.clone()),
        }
    }
}

impl Lang {
    /// The language displayed as `name`.
    pub fn named(name: &str) -> (l: Lang)
        ensures
            l@ == LangTag::Named(name@),
    {
        Lang::Named(String::from_str(name))
    }

    /// Whether this is a language rather than the sentinel.
    pub fn is_recognized(&self) -> (b: bool)
        ensures
            b == (self@ is Named),
    {
        match self {
            Lang::Unrecognized => false,
            Lang::Named(_) => true,
        }
    }

    /// Whether two tags are the same language.
    pub fn same(&self, other: &Lang) -> (b: bool)
        ensures
            b == (self@ == other@),
    {
        match self {
            Lang::Unrecognized => match other {
                Lang::Unrecognized => true,
                Lang::Named(_) => false,
            },
            Lang::Named(a) => match other {
                Lang::Unrecognized => false,
                Lang::Named(b) => *a == *b,
            },
        }
    }

    /// The display name.
    pub fn to_s(&self) -> (r: String)
        ensures
            r@ == self@.name(),
    {
        match self {
            Lang::Unrecognized => String::from_str("Unrecognized"),
            Lang::Named(name) => name.clone(),
        }
    }
}

} // verus!
