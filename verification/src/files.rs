//! Counted files and the sums taken over lists of them.

use crate::count::{Count, Tally};
use crate::lang::{Lang, LangTag};
use vstd::prelude::*;

verus! {

/// The mathematical value of a counted file.
pub struct FileTally {
    pub path: Seq<char>,
    pub lang: LangTag,
    pub count: Tally,
}

/// One counted file: its path, its language and its line counts.
/// A worker produces one for each file of a recognised language.
#[derive(Debug)]
pub struct FileCount {
    pub path: String,
    pub lang: Lang,
    pub count: Count,
}

impl View for FileCount {
    type V = FileTally;

    open spec fn view(&self) -> FileTally {
        FileTally { path: self.path@, lang: self.lang@, count: self.count@ }
    }
}

impl Clone for FileCount {
    fn clone(&self) -> (r: FileCount)
        ensures
            r@ == self@,
    {
        FileCount { path: self.path.clone(), lang: self.lang.clone(), count: self.count }
    }
}

impl FileCount {
    /// A counted file.
    pub fn new(path: &str, lang: Lang, count: Count) -> (f: FileCount)
        ensures
            f@ == (FileTally { path: path@, lang: lang@, count: count@ }),
    {
        FileCount { path: path.to_owned(), lang, count }
    }
}

/// The values of a list of counted files, in order.
pub open spec fn tallies(files: Seq<FileCount>) -> Seq<FileTally> {
    files.map_values(|f: FileCount| f@)
}

/// Files and lines attributed to one language or to a whole report.
pub struct Sum {
    pub files: nat,
    pub count: Tally,
}

impl Sum {
    /// Nothing counted.
    pub open spec fn zero() -> Sum {
        Sum { files: 0, count: Tally::zero() }
    }

    /// One more file, with its lines.
    pub open spec fn with_file(self, f: FileTally) -> Sum {
        Sum { files: self.files + 1, count: self.count.plus(f.count) }
    }

    /// Column-wise sum, the file column included.
    pub open spec fn plus(self, other: Sum) -> Sum {
        Sum { files: self.files + other.files, count: self.count.plus(other.count) }
    }

    /// Every column fits in a `u64`.
    pub open spec fn fits(self) -> bool {
        self.files <= u64::MAX && self.count.fits()
    }

    /// No column of `self` is above that of `other`.
    pub open spec fn within(self, other: Sum) -> bool {
        &&& self.files <= other.files
        &&& self.count.lines <= other.count.lines
        &&& self.count.blank <= other.count.blank
        &&& self.count.comment <= other.count.comment
        &&& self.count.code <= other.count.code
    }
}

/// The sum over all of `files`.
pub open spec fn sum_all(files: Seq<FileTally>) -> Sum
    decreases files.len(),
{
    if files.len() == 0 {
        Sum::zero()
    } else {
        sum_all(files.drop_last()).with_file(files.last())
    }
}

/// The sum over those of `files` whose language is `lang`.
pub open spec fn sum_of_lang(files: Seq<FileTally>, lang: LangTag) -> Sum
    decreases files.len(),
{
    if files.len() == 0 {
        Sum::zero()
    } else if files.last().lang == lang {
        sum_of_lang(files.drop_last(), lang).with_file(files.last())
    } else {
        sum_of_lang(files.drop_last(), lang)
    }
}

/// Those of `files` whose language is `lang`, in their order.
pub open spec fn files_of_lang(files: Seq<FileTally>, lang: LangTag) -> Seq<FileTally>
    decreases files.len(),
{
    if files.len() == 0 {
        Seq::empty()
    } else if files.last().lang == lang {
        files_of_lang(files.drop_last(), lang).push(files.last())
    } else {
        files_of_lang(files.drop_last(), lang)
    }
}

/// The languages of `files`, each once, in the order of first appearance.
pub open spec fn langs_of(files: Seq<FileTally>) -> Seq<LangTag>
    decreases files.len(),
{
    if files.len() == 0 {
        Seq::empty()
    } else if langs_of(files.drop_last()).contains(files.last().lang) {
        langs_of(files.drop_last())
    } else {
        langs_of(files.drop_last()).push(files.last().lang)
    }
}

/// The sum over the files of one language, taken alone, is the sum that the
/// whole list attributes to that language.
pub proof fn lemma_sum_of_files_of_lang(files: Seq<FileTally>, lang: LangTag)
    ensures
        sum_all(files_of_lang(files, lang)) == sum_of_lang(files, lang),
        sum_of_lang(files, lang).files == files_of_lang(files, lang).len(),
    decreases files.len(),
{
    if files.len() > 0 {
        lemma_sum_of_files_of_lang(files.drop_last(), lang);
        if files.last().lang == lang {
            let picked = files_of_lang(files.drop_last(), lang);
            assert(picked.push(files.last()).drop_last() =~= picked);
        }
    }
}

/// The sum over a prefix is part of the sum over the whole list.
pub proof fn lemma_sum_all_prefix(files: Seq<FileTally>, k: int)
    requires
        0 <= k <= files.len(),
    ensures
        sum_all(files.take(k)).within(sum_all(files)),
        sum_all(files.take(k)).files == k,
    decreases files.len() - k,
{
    if k == files.len() {
        assert(files.take(k) =~= files);
        lemma_sum_all_len(files);
    } else {
        lemma_sum_all_prefix(files, k + 1);
        assert(files.take(k + 1).drop_last() =~= files.take(k));
    }
}

/// The file column of the sum over all is the length of the list.
pub proof fn lemma_sum_all_len(files: Seq<FileTally>)
    ensures
        sum_all(files).files == files.len(),
    decreases files.len(),
{
    if files.len() > 0 {
        lemma_sum_all_len(files.drop_last());
    }
}

} // verus!
