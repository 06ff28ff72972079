//! Grouping counted files by language and summing each group.

use crate::count::Count;
use crate::files::{
    files_of_lang, langs_of, lemma_sum_all_len, lemma_sum_all_prefix, sum_all, sum_of_lang,
    tallies, FileCount, FileTally, Sum,
};
use crate::lang::{Lang, LangTag};
use vstd::prelude::*;

verus! {

/// The files of one language, in the order they arrived.
#[derive(Debug)]
pub struct Bucket {
    pub lang: Lang,
    pub files: Vec<FileCount>,
}

/// Whether `buckets` groups `files` by language: one bucket per language, in
/// the order in which the languages first appear, each holding the files of
/// its language in their order.
pub open spec fn groups(buckets: Seq<Bucket>, files: Seq<FileTally>) -> bool {
    &&& buckets.len() == langs_of(files).len()
    &&& forall|b: int|
        0 <= b < buckets.len() ==> {
            &&& (#[trigger] buckets[b]).lang@ == langs_of(files)[b]
            &&& tallies(buckets[b].files@) == files_of_lang(files, langs_of(files)[b])
        }
}

/// No language is listed twice.
pub proof fn lemma_langs_distinct(files: Seq<FileTally>)
    ensures
        langs_of(files).no_duplicates(),
    decreases files.len(),
{
    if files.len() > 0 {
        lemma_langs_distinct(files.drop_last());
    }
}

/// The listed languages are those of the files.
pub proof fn lemma_langs_are_of_files(files: Seq<FileTally>, lang: LangTag)
    ensures
        langs_of(files).contains(lang) <==> exists|i: int|
            0 <= i < files.len() && (#[trigger] files[i]).lang == lang,
    decreases files.len(),
{
    if files.len() > 0 {
        let front = files.drop_last();
        lemma_langs_are_of_files(front, lang);
        if langs_of(files).contains(lang) {
            if langs_of(front).contains(lang) {
                let i = choose|i: int| 0 <= i < front.len() && (#[trigger] front[i]).lang == lang;
                assert(files[i].lang == lang);
            } else {
                let k = choose|k: int| 0 <= k < langs_of(files).len() && langs_of(files)[k] == lang;
                assert(files[files.len() - 1].lang == lang);
            }
        }
        if exists|i: int| 0 <= i < files.len() && (#[trigger] files[i]).lang == lang {
            let i = choose|i: int| 0 <= i < files.len() && (#[trigger] files[i]).lang == lang;
            if i < front.len() {
                assert(front[i].lang == lang);
                assert(langs_of(front).contains(lang));
                if !langs_of(front).contains(files.last().lang) {
                    let k = choose|k: int| 0 <= k < langs_of(front).len() && langs_of(front)[k] == lang;
                    assert(langs_of(files)[k] == lang);
                }
            } else {
                if langs_of(front).contains(files.last().lang) {
                } else {
                    assert(langs_of(files)[langs_of(front).len() as int] == lang);
                }
            }
        }
    }
}

/// The position of the bucket of `lang`, if there is one.
fn find_bucket(buckets: &Vec<Bucket>, lang: &Lang) -> (found: Option<usize>)
    ensures
        match found {
            Some(k) => k < buckets.len() && buckets[k as int].lang@ == lang@,
            None => forall|b: int| 0 <= b < buckets.len() ==> (#[trigger] buckets[b]).lang@ != lang@,
        },
{
    let mut k: usize = 0;
    while k < buckets.len()
        invariant
            k <= buckets.len(),
            forall|b: int| 0 <= b < k ==> (#[trigger] buckets[b]).lang@ != lang@,
        decreases buckets.len() - k,
    {
        if buckets[k].lang.same(lang) {
            return Some(k);
        }
        k = k + 1;
    }
    None
}

/// Groups `files` by language.
pub fn group_by_lang(files: &Vec<FileCount>) -> (buckets: Vec<Bucket>)
    ensures
        groups(buckets@, tallies(files@)),
{
    let ghost all = tallies(files@);
    let mut buckets: Vec<Bucket> = Vec::new();
    let mut i: usize = 0;
    assert(all.take(0) =~= Seq::<FileTally>::empty());
    while i < files.len()
        invariant
            i <= files.len(),
            all == tallies(files@),
            groups(buckets@, all.take(i as int)),
        decreases files.len() - i,
    {
        let file = files[i].clone();
        let ghost seen = all.take(i as int);
        let ghost next = all.take(i + 1);
        proof {
            assert(next.drop_last() =~= seen);
            assert(next.last() == file@);
            lemma_langs_distinct(seen);
        }
        match find_bucket(&buckets, &file.lang) {
            Some(k) => {
                let ghost before = buckets@;
                let mut bucket = buckets.remove(k);
                let ghost held = bucket.files@;
                bucket.files.push(file);
                buckets.insert(k, bucket);
                proof {
                    assert(langs_of(seen)[k as int] == file@.lang);
                    assert(langs_of(next) == langs_of(seen));
                    assert forall|b: int| 0 <= b < buckets.len() implies {
                        &&& (#[trigger] buckets[b]).lang@ == langs_of(next)[b]
                        &&& tallies(buckets[b].files@) == files_of_lang(next, langs_of(next)[b])
                    } by {
                        if b == k {
                            assert(tallies(buckets[b].files@) =~= tallies(held).push(file@));
                        } else {
                            assert(buckets[b] == before[b]);
                            assert(langs_of(seen)[b] != langs_of(seen)[k as int]);
                        }
                    }
                }
            },
            None => {
                let ghost before = buckets@;
                let mut only: Vec<FileCount> = Vec::new();
                let lang = file.lang.clone();
                only.push(file);
                buckets.push(Bucket { lang, files: only });
                proof {
                    if langs_of(seen).contains(file@.lang) {
                        let b = choose|b: int| 0 <= b < langs_of(seen).len() && langs_of(seen)[b] == file@.lang;
                        assert(before[b].lang@ == file@.lang);
                    }
                    assert(langs_of(next) == langs_of(seen).push(file@.lang));
                    assert forall|b: int| 0 <= b < buckets.len() implies {
                        &&& (#[trigger] buckets[b]).lang@ == langs_of(next)[b]
                        &&& tallies(buckets[b].files@) == files_of_lang(next, langs_of(next)[b])
                    } by {
                        if b == before.len() {
                            lemma_none_of_unlisted(seen, file@.lang);
                            assert(tallies(buckets[b].files@) =~= Seq::<FileTally>::empty().push(file@));
                        } else {
                            assert(buckets[b] == before[b]);
                        }
                    }
                }
            },
        }
        i = i + 1;
    }
    assert(all.take(i as int) =~= all);
    buckets
}

/// A language that is not listed has no files.
pub proof fn lemma_none_of_unlisted(files: Seq<FileTally>, lang: LangTag)
    requires
        !langs_of(files).contains(lang),
    ensures
        files_of_lang(files, lang) == Seq::<FileTally>::empty(),
    decreases files.len(),
{
    if files.len() > 0 {
        let front = files.drop_last();
        if langs_of(front).contains(lang) {
            let k = choose|k: int| 0 <= k < langs_of(front).len() && langs_of(front)[k] == lang;
            if !langs_of(front).contains(files.last().lang) {
                assert(langs_of(files)[k] == lang);
            }
            assert(false);
        }
        if files.last().lang == lang {
            if !langs_of(front).contains(lang) {
                assert(langs_of(files)[langs_of(front).len() as int] == lang);
            }
            assert(false);
        }
        lemma_none_of_unlisted(front, lang);
    }
}

/// The number of files and the summed line counts of one language, or of a
/// whole report.
#[derive(Clone, Copy, Debug, PartialEq, Eq, Structural)]
pub struct LangTotal {
    pub files: u64,
    pub count: Count,
}

impl View for LangTotal {
    type V = Sum;

    open spec fn view(&self) -> Sum {
        Sum { files: self.files as nat, count: self.count@ }
    }
}

impl LangTotal {
    /// The total of no files.
    pub fn zero() -> (t: LangTotal)
        ensures
            t@ == Sum::zero(),
    {
        LangTotal { files: 0, count: Count::zero() }
    }

    /// The column-wise sum of two totals, or `None` when a column of the sum
    /// does not fit in a `u64`.
    pub fn checked_plus(&self, other: &LangTotal) -> (sum: Option<LangTotal>)
        ensures
            sum is Some <==> self@.plus(other@).fits(),
            sum matches Some(t) ==> t@ == self@.plus(other@),
    {
        let files = match self.files.checked_add(other.files) {
            Some(n) => n,
            None => { return None; },
        };
        match self.count.checked_merge(&other.count) {
            Some(count) => Some(LangTotal { files, count }),
            None => None,
        }
    }
}

/// The total over `files`, or `None` when a column of it does not fit in a
/// `u64`.
pub fn total_of(files: &Vec<FileCount>) -> (total: Option<LangTotal>)
    ensures
        total is Some <==> sum_all(tallies(files@)).fits(),
        total matches Some(t) ==> t@ == sum_all(tallies(files@)),
{
    let ghost all = tallies(files@);
    let mut count = Count::zero();
    let mut i: usize = 0;
    assert(all.take(0) =~= Seq::<FileTally>::empty());
    while i < files.len()
        invariant
            i <= files.len(),
            all == tallies(files@),
            count@ == sum_all(all.take(i as int)).count,
        decreases files.len() - i,
    {
        proof {
            assert(all.take(i + 1).drop_last() =~= all.take(i as int));
            assert(all.take(i + 1).last() == files[i as int]@);
            lemma_sum_all_prefix(all, i + 1);
        }
        match count.checked_merge(&files[i].count) {
            Some(next) => {
                count = next;
            },
            None => {
                return None;
            },
        }
        i = i + 1;
    }
    proof {
        assert(all.take(i as int) =~= all);
        lemma_sum_all_len(all);
    }
    Some(LangTotal { files: files.len() as u64, count })
}

/// The mathematical value of a language row.
pub struct RowView {
    pub lang: LangTag,
    pub sum: Sum,
}

/// One row of the summary: a language and its total.
#[derive(Debug)]
pub struct LangRow {
    pub lang: Lang,
    pub total: LangTotal,
}

impl View for LangRow {
    type V = RowView;

    open spec fn view(&self) -> RowView {
        RowView { lang: self.lang@, sum: self.total@ }
    }
}

impl Clone for LangRow {
    fn clone(&self) -> (r: LangRow)
        ensures
            r@ == self@,
    {
        LangRow { lang: self.lang.clone(), total: self.total }
    }
}

/// The values of a list of rows, in order.
pub open spec fn row_views(rows: Seq<LangRow>) -> Seq<RowView> {
    rows.map_values(|r: LangRow| r@)
}

/// The rows that `files` give: one per language, in the order in which the
/// languages first appear, each with the sum over the files of its language.
pub open spec fn rows_of(files: Seq<FileTally>) -> Seq<RowView> {
    Seq::new(
        langs_of(files).len(),
        |b: int| RowView { lang: langs_of(files)[b], sum: sum_of_lang(files, langs_of(files)[b]) },
    )
}

/// The column-wise sum of `rows`.
pub open spec fn sum_rows(rows: Seq<RowView>) -> Sum
    decreases rows.len(),
{
    if rows.len() == 0 {
        Sum::zero()
    } else {
        sum_rows(rows.drop_last()).plus(rows.last().sum)
    }
}

/// Each row is part of the sum of all rows.
pub proof fn lemma_row_within_sum(rows: Seq<RowView>, b: int)
    requires
        0 <= b < rows.len(),
    ensures
        rows[b].sum.within(sum_rows(rows)),
        sum_rows(rows.take(b + 1)).within(sum_rows(rows)),
    decreases rows.len(),
{
    if b < rows.len() - 1 {
        lemma_row_within_sum(rows.drop_last(), b);
        assert(rows.drop_last().take(b + 1) =~= rows.take(b + 1));
    } else {
        assert(rows.take(b + 1) =~= rows);
    }
}

/// The rows of the buckets, or `None` when the total of a bucket does not fit
/// in `u64` columns.
pub fn lang_rows(buckets: &Vec<Bucket>) -> (rows: Option<Vec<LangRow>>)
    ensures
        rows is Some <==> forall|b: int|
            0 <= b < buckets.len() ==> sum_all(tallies((#[trigger] buckets[b]).files@)).fits(),
        rows matches Some(r) ==> {
            &&& r.len() == buckets.len()
            &&& forall|b: int|
                0 <= b < r.len() ==> {
                    &&& (#[trigger] r[b]).lang@ == buckets[b].lang@
                    &&& r[b].total@ == sum_all(tallies(buckets[b].files@))
                }
        },
{
    let mut rows: Vec<LangRow> = Vec::new();
    let mut b: usize = 0;
    while b < buckets.len()
        invariant
            b <= buckets.len(),
            rows.len() == b,
            forall|k: int| 0 <= k < b ==> sum_all(tallies((#[trigger] buckets[k]).files@)).fits(),
            forall|k: int|
                0 <= k < b ==> {
                    &&& (#[trigger] rows[k]).lang@ == buckets[k].lang@
                    &&& rows[k].total@ == sum_all(tallies(buckets[k].files@))
                },
        decreases buckets.len() - b,
    {
        match total_of(&buckets[b].files) {
            Some(total) => {
                rows.push(LangRow { lang: buckets[b].lang.clone(), total });
            },
            None => {
                return None;
            },
        }
        b = b + 1;
    }
    Some(rows)
}

/// The column-wise sum of `rows`, or `None` when a column of it does not fit
/// in a `u64`.
pub fn grand_total(rows: &Vec<LangRow>) -> (total: Option<LangTotal>)
    ensures
        total is Some <==> sum_rows(row_views(rows@)).fits(),
        total matches Some(t) ==> t@ == sum_rows(row_views(rows@)),
{
    let ghost all = row_views(rows@);
    let mut total = LangTotal::zero();
    let mut i: usize = 0;
    assert(all.take(0) =~= Seq::<RowView>::empty());
    while i < rows.len()
        invariant
            i <= rows.len(),
            all == row_views(rows@),
            total@ == sum_rows(all.take(i as int)),
        decreases rows.len() - i,
    {
        proof {
            assert(all.take(i + 1).drop_last() =~= all.take(i as int));
            assert(all.take(i + 1).last() == rows[i as int]@);
            lemma_row_within_sum(all, i as int);
        }
        match total.checked_plus(&rows[i].total) {
            Some(next) => {
                total = next;
            },
            None => {
                return None;
            },
        }
        i = i + 1;
    }
    assert(all.take(i as int) =~= all);
    Some(total)
}

} // verus!
