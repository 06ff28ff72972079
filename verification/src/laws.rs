//! What holds of the sums of every report, whatever the files and whatever
//! the order in which they arrived.

use crate::aggregate::{lemma_langs_are_of_files, rows_of, sum_rows, RowView};
use crate::files::{
    files_of_lang, langs_of, lemma_sum_of_files_of_lang, sum_all, sum_of_lang, FileTally, Sum,
};
use crate::lang::LangTag;
use crate::order::{
    arranged, bytes_lt, in_bounds, index_range, lemma_before_irreflexive,
    lemma_bytes_lt_irreflexive, lemma_bytes_lt_transitive, lemma_sorted_exists, sorted,
};
use crate::pool::{all_recognized, joined};
use crate::report::{file_keys, report_lines, row_keys, rows_by, sorted_files, sorted_rows};
use crate::sort::{key_named, key_used, SortKey};
use vstd::prelude::*;
use vstd::seq_lib::*;

verus! {

/// Adding one file to the row at `k` adds that file to the sum of the rows.
proof fn lemma_sum_rows_update(rows: Seq<RowView>, k: int, file: FileTally)
    requires
        0 <= k < rows.len(),
    ensures
        sum_rows(rows.update(k, RowView { lang: rows[k].lang, sum: rows[k].sum.with_file(file) }))
            == sum_rows(rows).with_file(file),
    decreases rows.len(),
{
    let row = RowView { lang: rows[k].lang, sum: rows[k].sum.with_file(file) };
    let changed = rows.update(k, row);
    if k == rows.len() - 1 {
        assert(changed.drop_last() =~= rows.drop_last());
    } else {
        lemma_sum_rows_update(rows.drop_last(), k, file);
        assert(changed.drop_last() =~= rows.drop_last().update(k, row));
    }
}

/// The language rows add up to the sum over all files: no file is left out
/// of the rows and none is counted twice.
pub proof fn lemma_rows_sum_to_all(files: Seq<FileTally>)
    ensures
        sum_rows(rows_of(files)) == sum_all(files),
    decreases files.len(),
{
    if files.len() > 0 {
        let front = files.drop_last();
        let file = files.last();
        lemma_rows_sum_to_all(front);
        crate::aggregate::lemma_langs_distinct(front);
        if langs_of(front).contains(file.lang) {
            let k = choose|k: int| 0 <= k < langs_of(front).len() && langs_of(front)[k] == file.lang;
            let old_rows = rows_of(front);
            let row = RowView { lang: old_rows[k].lang, sum: old_rows[k].sum.with_file(file) };
            assert(rows_of(files) =~= old_rows.update(k, row)) by {
                assert forall|b: int| 0 <= b < old_rows.len() implies rows_of(files)[b]
                    == old_rows.update(k, row)[b] by {
                    if b != k {
                        assert(langs_of(front)[b] != langs_of(front)[k]);
                    }
                }
            }
            lemma_sum_rows_update(old_rows, k, file);
        } else {
            let old_rows = rows_of(front);
            crate::aggregate::lemma_none_of_unlisted(front, file.lang);
            crate::files::lemma_sum_of_files_of_lang(front, file.lang);
            let row = RowView { lang: file.lang, sum: Sum::zero().with_file(file) };
            assert(rows_of(files) =~= old_rows.push(row)) by {
                assert forall|b: int| 0 <= b < old_rows.len() implies rows_of(files)[b]
                    == old_rows[b] by {
                    assert(langs_of(front).contains(langs_of(front)[b]));
                }
            }
            assert(rows_of(files).drop_last() =~= old_rows);
        }
    }
}

/// Rows named one by one in any order that names each row once add up to
/// the same sum: sorting a report leaves its totals untouched.
pub proof fn lemma_sum_rows_arranged(rows: Seq<RowView>, order: Seq<usize>)
    requires
        rows.len() <= usize::MAX,
        order.to_multiset() == index_range(0, rows.len() as int).to_multiset(),
    ensures
        sum_rows(arranged(rows, order)) == sum_rows(rows),
{
    let f = |acc: Sum, i: usize| acc.plus(rows[i as int].sum);
    assert(commutative_foldl(f));
    lemma_fold_left_permutation(order, index_range(0, rows.len() as int), f, Sum::zero());
    lemma_sum_rows_is_fold(rows, order);
    let all = index_range(0, rows.len() as int);
    lemma_sum_rows_is_fold(rows, all);
    assert(arranged(rows, all) =~= rows);
}

/// Sorting the rows of a summary leaves their number and their sum as they
/// were.
pub proof fn lemma_sorted_rows_sum(rows: Seq<RowView>, key: SortKey)
    requires
        rows.len() <= usize::MAX,
    ensures
        sorted_rows(rows, key).len() == rows.len(),
        sum_rows(sorted_rows(rows, key)) == sum_rows(rows),
{
    let names = row_keys(rows, SortKey::Language);
    lemma_sorted_exists(names);
    lemma_sum_rows_arranged(rows, sorted(names));
    let by_name = rows_by(rows, SortKey::Language);
    let keys = row_keys(by_name, key);
    lemma_sorted_exists(keys);
    lemma_sum_rows_arranged(by_name, sorted(keys));
}

/// The sum of arranged rows is a fold over the order.
proof fn lemma_sum_rows_is_fold(rows: Seq<RowView>, order: Seq<usize>)
    ensures
        sum_rows(arranged(rows, order)) == order.fold_left(
            Sum::zero(),
            |acc: Sum, i: usize| acc.plus(rows[i as int].sum),
        ),
    decreases order.len(),
{
    if order.len() > 0 {
        lemma_sum_rows_is_fold(rows, order.drop_last());
        assert(arranged(rows, order).drop_last() =~= arranged(rows, order.drop_last()));
    }
}

/// The sum over one language is a fold over the files.
proof fn lemma_sum_of_lang_is_fold(files: Seq<FileTally>, lang: LangTag)
    ensures
        sum_of_lang(files, lang) == files.fold_left(
            Sum::zero(),
            |acc: Sum, f: FileTally|
                if f.lang == lang {
                    acc.with_file(f)
                } else {
                    acc
                },
        ),
    decreases files.len(),
{
    if files.len() > 0 {
        lemma_sum_of_lang_is_fold(files.drop_last(), lang);
    }
}

/// The sum over all files is a fold over the files.
proof fn lemma_sum_all_is_fold(files: Seq<FileTally>)
    ensures
        sum_all(files) == files.fold_left(Sum::zero(), |acc: Sum, f: FileTally| acc.with_file(f)),
    decreases files.len(),
{
    if files.len() > 0 {
        lemma_sum_all_is_fold(files.drop_last());
    }
}

/// The totals do not depend on the order in which the files arrive, and so
/// neither on how many workers counted them nor on how the workers' lists
/// were joined: two lists that hold the same files give every language the
/// same total, list the same languages, and have the same grand total.
pub proof fn lemma_totals_ignore_arrival_order(a: Seq<FileTally>, b: Seq<FileTally>, lang: LangTag)
    requires
        a.to_multiset() == b.to_multiset(),
    ensures
        sum_of_lang(a, lang) == sum_of_lang(b, lang),
        langs_of(a).contains(lang) <==> langs_of(b).contains(lang),
        sum_all(a) == sum_all(b),
        sum_rows(rows_of(a)) == sum_rows(rows_of(b)),
{
    broadcast use group_to_multiset_ensures;

    let f = |acc: Sum, f: FileTally|
        if f.lang == lang {
            acc.with_file(f)
        } else {
            acc
        };
    assert(commutative_foldl(f));
    lemma_fold_left_permutation(a, b, f, Sum::zero());
    lemma_sum_of_lang_is_fold(a, lang);
    lemma_sum_of_lang_is_fold(b, lang);

    let g = |acc: Sum, f: FileTally| acc.with_file(f);
    assert(commutative_foldl(g));
    lemma_fold_left_permutation(a, b, g, Sum::zero());
    lemma_sum_all_is_fold(a);
    lemma_sum_all_is_fold(b);
    lemma_rows_sum_to_all(a);
    lemma_rows_sum_to_all(b);

    lemma_langs_are_of_files(a, lang);
    lemma_langs_are_of_files(b, lang);
    if exists|i: int| 0 <= i < a.len() && (#[trigger] a[i]).lang == lang {
        let i = choose|i: int| 0 <= i < a.len() && (#[trigger] a[i]).lang == lang;
        assert(a.contains(a[i]));
        assert(b.to_multiset().count(a[i]) > 0);
        assert(b.contains(a[i]));
        let j = choose|j: int| 0 <= j < b.len() && b[j] == a[i];
        assert(b[j].lang == lang);
    }
    if exists|i: int| 0 <= i < b.len() && (#[trigger] b[i]).lang == lang {
        let i = choose|i: int| 0 <= i < b.len() && (#[trigger] b[i]).lang == lang;
        assert(b.contains(b[i]));
        assert(a.to_multiset().count(b[i]) > 0);
        assert(a.contains(b[i]));
        let j = choose|j: int| 0 <= j < a.len() && a[j] == b[i];
        assert(a[j].lang == lang);
    }
}

/// The sum of arranged files is a fold over the order.
proof fn lemma_sum_all_arranged_is_fold(files: Seq<FileTally>, order: Seq<usize>)
    ensures
        sum_all(arranged(files, order)) == order.fold_left(
            Sum::zero(),
            |acc: Sum, i: usize| acc.with_file(files[i as int]),
        ),
    decreases order.len(),
{
    if order.len() > 0 {
        lemma_sum_all_arranged_is_fold(files, order.drop_last());
        assert(arranged(files, order).drop_last() =~= arranged(files, order.drop_last()));
    }
}

/// Files named one by one in any order that names each file once add up to
/// the same sum.
pub proof fn lemma_sum_all_arranged(files: Seq<FileTally>, order: Seq<usize>)
    requires
        files.len() <= usize::MAX,
        order.to_multiset() == index_range(0, files.len() as int).to_multiset(),
    ensures
        sum_all(arranged(files, order)) == sum_all(files),
{
    let f = |acc: Sum, i: usize| acc.with_file(files[i as int]);
    assert(commutative_foldl(f));
    let all = index_range(0, files.len() as int);
    lemma_fold_left_permutation(order, all, f, Sum::zero());
    lemma_sum_all_arranged_is_fold(files, order);
    lemma_sum_all_arranged_is_fold(files, all);
    assert(arranged(files, all) =~= files);
}

/// There are no more languages than files, and no more files of one
/// language than files.
pub proof fn lemma_no_more_than_files(files: Seq<FileTally>, lang: LangTag)
    ensures
        langs_of(files).len() <= files.len(),
        files_of_lang(files, lang).len() <= files.len(),
    decreases files.len(),
{
    if files.len() > 0 {
        lemma_no_more_than_files(files.drop_last(), lang);
    }
}

/// The totals line of the summary table is the column-wise sum of the
/// language rows above it, whatever column they are sorted by, and that sum
/// is the sum over all counted files. In the per-file table the file rows
/// under a language, whatever column they are sorted by, add up to the row of
/// that language.
pub proof fn lemma_totals_row(files: Seq<FileTally>, key: SortKey, lang: LangTag)
    requires
        files.len() <= usize::MAX,
    ensures
        sum_rows(sorted_rows(rows_of(files), key)) == sum_rows(rows_of(files)),
        sum_rows(rows_of(files)) == sum_all(files),
        sum_all(sorted_files(files_of_lang(files, lang), key)) == sum_of_lang(files, lang),
{
    lemma_no_more_than_files(files, lang);
    lemma_rows_sum_to_all(files);
    lemma_sorted_rows_sum(rows_of(files), key);

    let own = files_of_lang(files, lang);
    lemma_sum_of_files_of_lang(files, lang);
    match file_keys(own, key) {
        Some(column) => {
            lemma_sorted_exists(column);
            lemma_sum_all_arranged(own, sorted(column));
        },
        None => {},
    }
}

/// A report asked to sort by a column that is none is, line for line, the
/// report sorted by `code`.
pub proof fn lemma_unknown_sort_is_code(
    files: Seq<FileTally>,
    sort: Seq<char>,
    by_file: bool,
    width: nat,
)
    requires
        key_named(sort) is None,
    ensures
        key_used(sort) == SortKey::Code,
        report_lines(files, sort, by_file, width) == report_lines(files, "code"@, by_file, width),
{
    reveal_strlit("code");
    reveal_strlit("language");
    reveal_strlit("files");
    assert("code"@.len() == 4);
    assert("language"@.len() == 8);
    assert("files"@.len() == 5);
    assert(key_named("code"@) == Some(SortKey::Code));
}

/// Files of no recognised language are in no list that a worker hands over,
/// so they are no language of the report and add to no total.
pub proof fn lemma_unrecognized_counts_nothing(files: Seq<FileTally>)
    requires
        all_recognized(files),
    ensures
        !langs_of(files).contains(LangTag::Unrecognized),
        sum_of_lang(files, LangTag::Unrecognized) == Sum::zero(),
        files_of_lang(files, LangTag::Unrecognized) == Seq::<FileTally>::empty(),
{
    lemma_langs_are_of_files(files, LangTag::Unrecognized);
    crate::aggregate::lemma_none_of_unlisted(files, LangTag::Unrecognized);
    lemma_sum_of_files_of_lang(files, LangTag::Unrecognized);
}

/// Lists of recognised files, joined, are a list of recognised files.
pub proof fn lemma_joined_recognized(parts: Seq<Seq<FileTally>>)
    requires
        forall|p: int| 0 <= p < parts.len() ==> all_recognized(#[trigger] parts[p]),
    ensures
        all_recognized(joined(parts)),
    decreases parts.len(),
{
    if parts.len() > 0 {
        assert forall|p: int| 0 <= p < parts.drop_last().len() implies all_recognized(
            #[trigger] parts.drop_last()[p],
        ) by {
            assert(parts.drop_last()[p] == parts[p]);
        }
        lemma_joined_recognized(parts.drop_last());
        assert(all_recognized(parts.last()));
    }
}

/// The bytes by which a row is ordered by name.
pub open spec fn name_bytes(row: RowView) -> Seq<u8> {
    vstd::utf8::encode_utf8(row.lang.name())
}

/// Whether each row's name comes strictly before the names of all rows that
/// follow it.
pub open spec fn ascending_by_name(rows: Seq<RowView>) -> bool {
    forall|k: int, l: int|
        0 <= k < l < rows.len() ==> bytes_lt(
            name_bytes(#[trigger] rows[k]),
            name_bytes(#[trigger] rows[l]),
        )
}

/// Rows named one by one in an order that names each row once are the same
/// rows.
proof fn lemma_arranged_same_rows(rows: Seq<RowView>, order: Seq<usize>, row: RowView)
    requires
        rows.len() <= usize::MAX,
        in_bounds(order, rows.len()),
        order.to_multiset() == index_range(0, rows.len() as int).to_multiset(),
    ensures
        arranged(rows, order).contains(row) <==> rows.contains(row),
{
    broadcast use group_to_multiset_ensures;

    let shown = arranged(rows, order);
    if shown.contains(row) {
        let k = choose|k: int| 0 <= k < shown.len() && shown[k] == row;
        assert(rows[order[k] as int] == row);
    }
    if rows.contains(row) {
        let i = choose|i: int| 0 <= i < rows.len() && rows[i] == row;
        let all = index_range(0, rows.len() as int);
        assert(all[i] == i as usize);
        assert(all.contains(i as usize));
        assert(order.to_multiset().count(i as usize) > 0);
        assert(order.contains(i as usize));
        let k = choose|k: int| 0 <= k < order.len() && order[k] == i as usize;
        assert(shown[k] == row);
    }
}

/// The rows of recognised files have names that differ from row to row.
proof fn lemma_row_names_differ(files: Seq<FileTally>, i: int, j: int)
    requires
        all_recognized(files),
        0 <= i < rows_of(files).len(),
        0 <= j < rows_of(files).len(),
        i != j,
    ensures
        name_bytes(rows_of(files)[i]) != name_bytes(rows_of(files)[j]),
{
    let langs = langs_of(files);
    crate::aggregate::lemma_langs_distinct(files);
    assert(langs.contains(langs[i]) && langs.contains(langs[j]));
    lemma_langs_are_of_files(files, langs[i]);
    lemma_langs_are_of_files(files, langs[j]);
    assert(langs[i] is Named && langs[j] is Named);
    vstd::utf8::encode_utf8_decode_utf8(langs[i].name());
    vstd::utf8::encode_utf8_decode_utf8(langs[j].name());
}

/// The rows of recognised files, arranged by name, ascend strictly.
proof fn lemma_rows_by_name_ascend(files: Seq<FileTally>)
    requires
        all_recognized(files),
        files.len() <= usize::MAX,
    ensures
        ascending_by_name(rows_by(rows_of(files), SortKey::Language)),
        forall|row: RowView|
            rows_by(rows_of(files), SortKey::Language).contains(row) <==> rows_of(files).contains(
                row,
            ),
{
    let rows = rows_of(files);
    let keys = row_keys(rows, SortKey::Language);
    let order = sorted(keys);
    let shown = rows_by(rows, SortKey::Language);
    lemma_no_more_than_files(files, LangTag::Unrecognized);
    lemma_sorted_exists(keys);
    assert forall|row: RowView| shown.contains(row) <==> rows.contains(row) by {
        lemma_arranged_same_rows(rows, order, row);
    }
    assert forall|k: int, l: int| 0 <= k < l < shown.len() implies bytes_lt(
        name_bytes(#[trigger] shown[k]),
        name_bytes(#[trigger] shown[l]),
    ) by {
        let i = order[k] as int;
        let j = order[l] as int;
        assert(keys.before(i, j));
        if i == j {
            lemma_before_irreflexive(keys, i);
        } else {
            lemma_row_names_differ(files, i, j);
        }
    }
}

/// Two lists of rows that ascend strictly by name and hold the same rows are
/// the same list.
proof fn lemma_same_rows(x: Seq<RowView>, y: Seq<RowView>)
    requires
        ascending_by_name(x),
        ascending_by_name(y),
        forall|row: RowView| x.contains(row) <==> y.contains(row),
    ensures
        x == y,
    decreases x.len(),
{
    if x.len() == 0 {
        if y.len() > 0 {
            assert(y.contains(y[0]));
        }
        assert(x =~= y);
    } else {
        assert(x.contains(x[0]));
        let j = choose|j: int| 0 <= j < y.len() && y[j] == x[0];
        assert(y.contains(y[0]));
        let i = choose|i: int| 0 <= i < x.len() && x[i] == y[0];
        if j > 0 {
            if i > 0 {
                lemma_bytes_lt_transitive(name_bytes(y[0]), name_bytes(y[j]), name_bytes(x[i]), 0);
            }
            lemma_bytes_lt_irreflexive(name_bytes(y[0]), 0);
        }
        let xs = x.drop_first();
        let ys = y.drop_first();
        assert(ascending_by_name(xs)) by {
            assert forall|k: int, l: int| 0 <= k < l < xs.len() implies bytes_lt(
                name_bytes(#[trigger] xs[k]),
                name_bytes(#[trigger] xs[l]),
            ) by {
                assert(xs[k] == x[k + 1] && xs[l] == x[l + 1]);
            }
        }
        assert(ascending_by_name(ys)) by {
            assert forall|k: int, l: int| 0 <= k < l < ys.len() implies bytes_lt(
                name_bytes(#[trigger] ys[k]),
                name_bytes(#[trigger] ys[l]),
            ) by {
                assert(ys[k] == y[k + 1] && ys[l] == y[l + 1]);
            }
        }
        assert forall|row: RowView| xs.contains(row) <==> ys.contains(row) by {
            if xs.contains(row) {
                let k = choose|k: int| 0 <= k < xs.len() && xs[k] == row;
                assert(x[k + 1] == row);
                assert(x.contains(row));
                let l = choose|l: int| 0 <= l < y.len() && y[l] == row;
                if l == 0 {
                    assert(bytes_lt(name_bytes(x[0]), name_bytes(x[k + 1])));
                    lemma_bytes_lt_irreflexive(name_bytes(x[0]), 0);
                }
                assert(ys[l - 1] == row);
            }
            if ys.contains(row) {
                let k = choose|k: int| 0 <= k < ys.len() && ys[k] == row;
                assert(y[k + 1] == row);
                assert(y.contains(row));
                let l = choose|l: int| 0 <= l < x.len() && x[l] == row;
                if l == 0 {
                    assert(bytes_lt(name_bytes(y[0]), name_bytes(y[k + 1])));
                    lemma_bytes_lt_irreflexive(name_bytes(y[0]), 0);
                }
                assert(xs[l - 1] == row);
            }
        }
        lemma_same_rows(xs, ys);
        assert(x =~= seq![x[0]] + xs);
        assert(y =~= seq![y[0]] + ys);
    }
}

/// The summary does not depend on the order in which the files arrive: two
/// lists that hold the same recognised files give the same language rows in
/// the same order, whatever column they are sorted by.
pub proof fn lemma_summary_ignores_arrival_order(
    a: Seq<FileTally>,
    b: Seq<FileTally>,
    key: SortKey,
)
    requires
        a.to_multiset() == b.to_multiset(),
        all_recognized(a),
        a.len() <= usize::MAX,
    ensures
        sorted_rows(rows_of(a), key) == sorted_rows(rows_of(b), key),
{
    broadcast use group_to_multiset_ensures;

    to_multiset_len(a);
    to_multiset_len(b);
    assert(all_recognized(b)) by {
        assert forall|i: int| 0 <= i < b.len() implies (#[trigger] b[i]).lang is Named by {
            assert(b.contains(b[i]));
            assert(a.to_multiset().count(b[i]) > 0);
            assert(a.contains(b[i]));
        }
    }
    lemma_rows_by_name_ascend(a);
    lemma_rows_by_name_ascend(b);
    let ra = rows_of(a);
    let rb = rows_of(b);
    assert forall|row: RowView| ra.contains(row) <==> rb.contains(row) by {
        lemma_totals_ignore_arrival_order(a, b, row.lang);
        if ra.contains(row) {
            let i = choose|i: int| 0 <= i < ra.len() && ra[i] == row;
            assert(langs_of(a).contains(langs_of(a)[i]));
            let j = choose|j: int| 0 <= j < langs_of(b).len() && langs_of(b)[j] == row.lang;
            assert(rb[j] == row);
        }
        if rb.contains(row) {
            let i = choose|i: int| 0 <= i < rb.len() && rb[i] == row;
            assert(langs_of(b).contains(langs_of(b)[i]));
            let j = choose|j: int| 0 <= j < langs_of(a).len() && langs_of(a)[j] == row.lang;
            assert(ra[j] == row);
        }
    }
    let na = rows_by(ra, SortKey::Language);
    let nb = rows_by(rb, SortKey::Language);
    assert forall|row: RowView| na.contains(row) <==> nb.contains(row) by {
        assert(na.contains(row) <==> ra.contains(row));
        assert(nb.contains(row) <==> rb.contains(row));
    }
    lemma_same_rows(na, nb);
}

} // verus!
