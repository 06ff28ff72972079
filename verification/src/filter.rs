//! Which paths are counted: the include and exclude patterns.

use crate::text::texts;
use vstd::prelude::*;
use vstd::string::*;

verus! {

/// A compiled regular expression of the `regex` crate.
#[verifier::external_type_specification]
#[verifier::external_body]
pub struct ExRegex(regex::Regex);

/// The error with which the `regex` crate refuses a pattern.
#[verifier::external_type_specification]
#[verifier::external_body]
pub struct ExRegexError(regex::Error);

/// Whether the `regex` crate compiles the regular expression written as
/// `pattern`: it is well formed and not too large.
pub uninterp spec fn regex_compiles(pattern: Seq<char>) -> bool;

/// Whether the regular expression written as `pattern` has a match anywhere
/// in `text`, as the `regex` crate decides it.
pub uninterp spec fn regex_matches(pattern: Seq<char>, text: Seq<char>) -> bool;

/// A regular expression together with the text it was compiled from.
pub struct Pattern {
    source: String,
    regex: regex::Regex,
}

impl View for Pattern {
    type V = Seq<char>;

    closed spec fn view(&self) -> Seq<char> {
        self.source@
    }
}

/// `regex::Regex::new`: compiles `source`. Whether it succeeds depends on
/// `source` alone; which patterns compile is left to the crate and goes by
/// the name `regex_compiles`.
#[verifier::external_body]
fn compile(source: &str) -> (r: Result<regex::Regex, regex::Error>)
    ensures
        r is Ok <==> regex_compiles(source@),
{
    regex::Regex::new(source)
}

/// The `Display` text of a `regex::Error`. Nothing is claimed of it.
#[verifier::external_body]
fn error_text(error: &regex::Error) -> (r: String) {
    format!("{}", error)
}

/// `regex::Regex::is_match` on the expression that `Pattern::new` compiled
/// from the pattern's text: whether it has a match anywhere in `text`.
#[verifier::external_body]
fn is_match(pattern: &Pattern, text: &str) -> (b: bool)
    ensures
        b == regex_matches(pattern@, text@),
{
    pattern.regex.is_match(text)
}

impl Pattern {
    /// Compiles `source`: the pattern written as `source` where it compiles,
    /// the reason why it does not where it does not.
    pub fn new(source: &str) -> (r: Result<Pattern, String>)
        ensures
            r is Ok <==> regex_compiles(source@),
            r matches Ok(p) ==> p@ == source@,
    {
        match compile(source) {
            Ok(regex) => Ok(Pattern { source: String::from_str(source), regex }),
            Err(error) => Err(error_text(&error)),
        }
    }

    /// Whether the pattern has a match anywhere in `text`.
    pub fn matches(&self, text: &str) -> (b: bool)
        ensures
            b == regex_matches(self@, text@),
    {
        is_match(self, text)
    }
}

/// Several patterns as one that matches where any of them does: each in
/// parentheses, joined by `|`. No patterns give the empty pattern.
pub open spec fn combined(patterns: Seq<Seq<char>>) -> Seq<char>
    decreases patterns.len(),
{
    if patterns.len() == 0 {
        Seq::empty()
    } else if patterns.len() == 1 {
        "("@ + patterns[0] + ")"@
    } else {
        combined(patterns.drop_last()) + "|"@ + ("("@ + patterns.last() + ")"@)
    }
}

/// Writes several patterns as one that matches where any of them does.
pub fn combine(patterns: &Vec<String>) -> (r: String)
    ensures
        r@ == combined(texts(patterns@)),
{
    let ghost all = texts(patterns@);
    let mut r = String::new();
    let mut i: usize = 0;
    assert(all.take(0) =~= Seq::<Seq<char>>::empty());
    while i < patterns.len()
        invariant
            i <= patterns.len(),
            all == texts(patterns@),
            r@ == combined(all.take(i as int)),
        decreases patterns.len() - i,
    {
        let mut group = String::from_str("(");
        group.append(patterns[i].as_str());
        group.append(")");
        proof {
            assert(all.take(i + 1).drop_last() =~= all.take(i as int));
            assert(all.take(i + 1).last() == patterns[i as int]@);
        }
        if i > 0 {
            r.append("|");
        } else {
            assert(r@ + group@ =~= group@);
            assert(all.take(1)[0] == patterns[0]@);
        }
        r.append(group.as_str());
        i = i + 1;
    }
    assert(all.take(i as int) =~= all);
    r
}

/// Why no filter could be built.
#[derive(Debug)]
pub enum FilterError {
    /// The exclude patterns do not compile; the reason is attached.
    Exclude(String),
    /// The include patterns do not compile; the reason is attached.
    Include(String),
}

/// The mathematical value of a filter error.
pub enum FilterErrorView {
    Exclude(Seq<char>),
    Include(Seq<char>),
}

impl View for FilterError {
    type V = FilterErrorView;

    open spec fn view(&self) -> FilterErrorView {
        match self {
            FilterError::Exclude(reason) => FilterErrorView::Exclude(reason@),
            FilterError::Include(reason) => FilterErrorView::Include(reason@),
        }
    }
}

impl FilterError {
    /// The message to print for the error.
    pub fn message(&self) -> (r: String)
        ensures
            r@ == match self@ {
                FilterErrorView::Exclude(reason) => "Error processing exclude regex: "@ + reason,
                FilterErrorView::Include(reason) => "Error processing include regex: "@ + reason,
            },
    {
        match self {
            FilterError::Exclude(reason) => {
                let mut r = String::from_str("Error processing exclude regex: ");
                r.append(reason.as_str());
                r
            },
            FilterError::Include(reason) => {
                let mut r = String::from_str("Error processing include regex: ");
                r.append(reason.as_str());
                r
            },
        }
    }
}

/// Whether a list of patterns, combined into one, compiles; a list that is
/// not given has nothing that could fail.
pub open spec fn list_compiles(patterns: Option<Vec<String>>) -> bool {
    match patterns {
        Some(list) => regex_compiles(combined(texts(list@))),
        None => true,
    }
}

/// The patterns that decide which paths are counted.
pub struct PathFilter {
    including: Option<Pattern>,
    excluding: Option<Pattern>,
}

impl PathFilter {
    /// The text of the include pattern, if there is one.
    pub closed spec fn including(&self) -> Option<Seq<char>> {
        match self.including {
            Some(p) => Some(p@),
            None => None,
        }
    }

    /// The text of the exclude pattern, if there is one.
    pub closed spec fn excluding(&self) -> Option<Seq<char>> {
        match self.excluding {
            Some(p) => Some(p@),
            None => None,
        }
    }

    /// Whether `path` is counted: it matches the include pattern, where
    /// there is one, and does not match the exclude pattern, where there is
    /// one. A path that matches both is left out.
    pub open spec fn keeps(&self, path: Seq<char>) -> bool {
        &&& self.including() matches Some(p) ==> regex_matches(p, path)
        &&& self.excluding() matches Some(p) ==> !regex_matches(p, path)
    }

    /// The filter made of what compiling the exclude and the include
    /// patterns gave. A failure of the exclude patterns is reported before
    /// one of the include patterns.
    pub fn assemble(
        excluding: Option<Result<Pattern, String>>,
        including: Option<Result<Pattern, String>>,
    ) -> (r: Result<PathFilter, FilterError>)
        ensures
            match (excluding, including) {
                (Some(Err(reason)), _) => r matches Err(e) && e@ == FilterErrorView::Exclude(
                    reason@,
                ),
                (_, Some(Err(reason))) => r matches Err(e) && e@ == FilterErrorView::Include(
                    reason@,
                ),
                _ => r matches Ok(f) && f.excluding() == (match excluding {
                    Some(Ok(p)) => Some(p@),
                    _ => None,
                }) && f.including() == (match including {
                    Some(Ok(p)) => Some(p@),
                    _ => None,
                }),
            },
    {
        let excluding = match excluding {
            Some(Ok(p)) => Some(p),
            Some(Err(reason)) => {
                return Err(FilterError::Exclude(reason));
            },
            None => None,
        };
        let including = match including {
            Some(Ok(p)) => Some(p),
            Some(Err(reason)) => {
                return Err(FilterError::Include(reason));
            },
            None => None,
        };
        Ok(PathFilter { including, excluding })
    }

    /// Compiles the exclude and the include patterns, each list combined
    /// into one pattern, into a filter. The filter comes back exactly when
    /// every list that is given compiles; it then holds the combined
    /// patterns, and a list that was not given leaves its side open. Where
    /// the exclude list does not compile the error says so, whatever the
    /// include list is; else the error is that of the include list.
    pub fn build(excluding: Option<Vec<String>>, including: Option<Vec<String>>) -> (r: Result<
        PathFilter,
        FilterError,
    >)
        ensures
            r is Ok <==> list_compiles(excluding) && list_compiles(including),
            r matches Ok(f) ==> {
                &&& f.excluding() == match excluding {
                    Some(list) => Some(combined(texts(list@))),
                    None => None,
                }
                &&& f.including() == match including {
                    Some(list) => Some(combined(texts(list@))),
                    None => None,
                }
            },
            r matches Err(e) ==> (e@ is Exclude <==> !list_compiles(excluding)),
    {
        let excluded = match excluding {
            Some(list) => Some(Pattern::new(combine(&list).as_str())),
            None => None,
        };
        let included = match including {
            Some(list) => Some(Pattern::new(combine(&list).as_str())),
            None => None,
        };
        PathFilter::assemble(excluded, included)
    }

    /// The test that `keep` makes, as a predicate on paths.
    pub open spec fn keeping(&self) -> spec_fn(Seq<char>) -> bool {
        |path: Seq<char>| self.keeps(path)
    }

    /// Those of `paths` that are counted, in their order.
    pub fn select(&self, paths: Vec<String>) -> (kept: Vec<String>)
        ensures
            texts(kept@) == texts(paths@).filter(self.keeping()),
    {
        let ghost all = texts(paths@);
        let mut kept: Vec<String> = Vec::new();
        let mut i: usize = 0;
        assert(all.take(0) =~= Seq::<Seq<char>>::empty());
        assert(texts(kept@) =~= all.take(0).filter(self.keeping()));
        while i < paths.len()
            invariant
                i <= paths.len(),
                all == texts(paths@),
                texts(kept@) == all.take(i as int).filter(self.keeping()),
            decreases paths.len() - i,
        {
            proof {
                assert(all.take(i + 1) =~= all.take(i as int).push(paths[i as int]@));
                all.take(i as int).lemma_filter_push(paths[i as int]@, self.keeping());
            }
            if self.keep(paths[i].as_str()) {
                let ghost before = kept@;
                kept.push(paths[i].clone());
                assert(texts(kept@) =~= texts(before).push(paths[i as int]@));
            }
            i = i + 1;
        }
        assert(all.take(i as int) =~= all);
        kept
    }

    /// Whether `path` is counted.
    pub fn keep(&self, path: &str) -> (b: bool)
        ensures
            b == self.keeps(path@),
    {
        let included = match &self.including {
            Some(p) => p.matches(path),
            None => true,
        };
        let excluded = match &self.excluding {
            Some(p) => p.matches(path),
            None => false,
        };
        included && !excluded
    }
}

/// A path that matches the exclude pattern is left out, whether or not it
/// matches the include pattern; where no pattern is given every path is kept.
pub proof fn lemma_exclude_wins(filter: PathFilter, path: Seq<char>)
    ensures
        filter.excluding() matches Some(p) && regex_matches(p, path) ==> !filter.keeps(path),
        filter.excluding() is None && filter.including() is None ==> filter.keeps(path),
{
}

} // verus!
