//! The lines of the two report layouts.

use crate::aggregate::{
    grand_total, group_by_lang, lang_rows, lemma_row_within_sum, row_views, rows_of, sum_rows,
    total_of, LangRow, LangTotal, RowView,
};
use crate::count::{Count, Tally};
use crate::files::{
    files_of_lang, langs_of, lemma_sum_of_files_of_lang, sum_all, sum_of_lang, tallies, FileCount,
    FileTally, Sum,
};
use crate::lang::LangTag;
use crate::laws::{lemma_rows_sum_to_all, lemma_sorted_rows_sum};
use crate::order::{arranged, sorted, sorted_order, KeyColumn, Keys};
use crate::sort::{key_named, key_used, SortKey};
use crate::text::{
    decimal, last_n_chars, left_aligned, numeral, pad_left, pad_right, repeated, right_aligned,
    str_repeat, tail, texts,
};
use vstd::prelude::*;
use vstd::string::*;

verus! {

/// Columns of a table that the numeric cells of a language row take up.
pub const NAME_RESERVE: usize = 63;

/// Columns of a table that the bar and the numeric cells of a file row take up.
pub const PATH_RESERVE: usize = 55;

/// The width of the language column in a table of `width` columns.
pub open spec fn name_width(width: nat) -> nat {
    if width >= NAME_RESERVE {
        (width - NAME_RESERVE) as nat
    } else {
        0
    }
}

/// The width of the path column in a table of `width` columns.
pub open spec fn path_width(width: nat) -> nat {
    if width >= PATH_RESERVE {
        (width - PATH_RESERVE) as nat
    } else {
        0
    }
}

/// The rule that separates the parts of a table.
pub open spec fn rule(width: nat) -> Seq<char> {
    repeated("-"@, width)
}

/// One numeric cell: a space, then the numeral right-aligned in `cell` columns.
pub open spec fn number_cell(n: nat, cell: nat) -> Seq<char> {
    " "@ + right_aligned(numeral(n), cell)
}

/// The four line-count cells of a row.
pub open spec fn count_cells(count: Tally) -> Seq<char> {
    number_cell(count.lines, 12) + number_cell(count.blank, 12) + number_cell(count.comment, 12)
        + number_cell(count.code, 12)
}

/// The line of column titles.
pub open spec fn header_line(width: nat) -> Seq<char> {
    " "@ + left_aligned("Language"@, name_width(width)) + (" "@ + right_aligned("Files"@, 8)) + (" "@
        + right_aligned("Lines"@, 12)) + (" "@ + right_aligned("Blank"@, 12)) + (" "@
        + right_aligned("Comment"@, 12)) + (" "@ + right_aligned("Code"@, 12))
}

/// The row of a language, or of the grand total, under the name `name`.
pub open spec fn total_line(name: Seq<char>, sum: Sum, width: nat) -> Seq<char> {
    " "@ + left_aligned(name, name_width(width)) + number_cell(sum.files, 8) + count_cells(
        sum.count,
    )
}

/// The row of one file: a bar, the path cut to its trailing characters where
/// it is longer than its column, and the four line counts.
pub open spec fn file_line(file: FileTally, width: nat) -> Seq<char> {
    "|"@ + " "@ + left_aligned(tail(file.path, path_width(width)), path_width(width))
        + count_cells(file.count)
}

/// One numeric cell.
fn render_number_cell(n: u64, cell: usize) -> (r: String)
    ensures
        r@ == number_cell(n as nat, cell as nat),
{
    let mut r = String::from_str(" ");
    let digits = decimal(n);
    let padded = pad_left(digits.as_str(), cell);
    r.append(padded.as_str());
    r
}

/// One title cell.
fn render_title_cell(title: &str, cell: usize) -> (r: String)
    ensures
        r@ == " "@ + right_aligned(title@, cell as nat),
{
    let mut r = String::from_str(" ");
    let padded = pad_left(title, cell);
    r.append(padded.as_str());
    r
}

/// The four line-count cells of a row.
fn render_count_cells(count: &Count) -> (r: String)
    ensures
        r@ == count_cells(count@),
{
    let mut r = render_number_cell(count.lines, 12);
    r.append(render_number_cell(count.blank, 12).as_str());
    r.append(render_number_cell(count.comment, 12).as_str());
    r.append(render_number_cell(count.code, 12).as_str());
    r
}

/// The rule of a table of `width` columns.
pub fn render_rule(width: usize) -> (r: String)
    ensures
        r@ == rule(width as nat),
{
    str_repeat("-", width)
}

/// The line of column titles of a table of `width` columns.
pub fn render_header(width: usize) -> (r: String)
    ensures
        r@ == header_line(width as nat),
{
    let mut r = String::from_str(" ");
    r.append(pad_right("Language", width.saturating_sub(NAME_RESERVE)).as_str());
    r.append(render_title_cell("Files", 8).as_str());
    r.append(render_title_cell("Lines", 12).as_str());
    r.append(render_title_cell("Blank", 12).as_str());
    r.append(render_title_cell("Comment", 12).as_str());
    r.append(render_title_cell("Code", 12).as_str());
    r
}

/// The row of a language, or of the grand total, under the name `name`.
pub fn render_total(name: &str, total: &LangTotal, width: usize) -> (r: String)
    ensures
        r@ == total_line(name@, total@, width as nat),
{
    let mut r = String::from_str(" ");
    r.append(pad_right(name, width.saturating_sub(NAME_RESERVE)).as_str());
    r.append(render_number_cell(total.files, 8).as_str());
    r.append(render_count_cells(&total.count).as_str());
    r
}

/// The row of one file.
pub fn render_file(file: &FileCount, width: usize) -> (r: String)
    ensures
        r@ == file_line(file@, width as nat),
{
    let column = width.saturating_sub(PATH_RESERVE);
    let mut r = String::from_str("|");
    r.append(" ");
    let shown = last_n_chars(file.path.as_str(), column);
    r.append(pad_right(shown.as_str(), column).as_str());
    r.append(render_count_cells(&file.count).as_str());
    r
}

/// The key column of language rows for a sort key.
pub open spec fn row_keys(rows: Seq<RowView>, key: SortKey) -> KeyColumn {
    match key {
        SortKey::Language => KeyColumn::Names(
            rows.map_values(|r: RowView| vstd::utf8::encode_utf8(r.lang.name())),
        ),
        SortKey::Files => KeyColumn::Numbers(rows.map_values(|r: RowView| r.sum.files)),
        SortKey::Code => KeyColumn::Numbers(rows.map_values(|r: RowView| r.sum.count.code)),
        SortKey::Comment => KeyColumn::Numbers(rows.map_values(|r: RowView| r.sum.count.comment)),
        SortKey::Blank => KeyColumn::Numbers(rows.map_values(|r: RowView| r.sum.count.blank)),
        SortKey::Lines => KeyColumn::Numbers(rows.map_values(|r: RowView| r.sum.count.lines)),
    }
}

/// Language rows arranged by one column: by name in ascending order, by a
/// number from the largest down, rows of equal keys in the order they came in.
pub open spec fn rows_by(rows: Seq<RowView>, key: SortKey) -> Seq<RowView> {
    arranged(rows, sorted(row_keys(rows, key)))
}

/// Language rows in the order in which the summary shows them: sorted by
/// `key`, rows of equal keys by name. The order in which the rows came in
/// decides nothing as long as no two of them have the same name.
pub open spec fn sorted_rows(rows: Seq<RowView>, key: SortKey) -> Seq<RowView> {
    rows_by(rows_by(rows, SortKey::Language), key)
}

/// The lines of the summary table for rows in display order: rule, titles,
/// rule, one line per language, rule, the line of column-wise totals, rule.
pub open spec fn summary_lines(rows: Seq<RowView>, width: nat) -> Seq<Seq<char>> {
    seq![rule(width), header_line(width), rule(width)] + rows.map_values(
        |r: RowView| total_line(r.lang.name(), r.sum, width),
    ) + seq![rule(width), total_line("Total"@, sum_rows(rows), width), rule(width)]
}

/// The key column of language rows for a sort key.
fn keys_of_rows(rows: &Vec<LangRow>, key: SortKey) -> (keys: Keys)
    ensures
        keys@ == row_keys(row_views(rows@), key),
{
    match key {
        SortKey::Language => {
            let mut names: Vec<String> = Vec::new();
            let mut i: usize = 0;
            while i < rows.len()
                invariant
                    i <= rows.len(),
                    names.len() == i,
                    forall|k: int| 0 <= k < i ==> (#[trigger] names[k])@ == rows[k]@.lang.name(),
                decreases rows.len() - i,
            {
                names.push(rows[i].lang.to_s());
                i = i + 1;
            }
            let keys = Keys::Names(names);
            assert(keys@ =~= row_keys(row_views(rows@), key)) by {
                assert(keys@->Names_0 =~= row_keys(row_views(rows@), key)->Names_0);
            }
            keys
        },
        _ => {
            let mut numbers: Vec<u64> = Vec::new();
            let mut i: usize = 0;
            while i < rows.len()
                invariant
                    i <= rows.len(),
                    numbers.len() == i,
                    !(key is Language),
                    forall|k: int|
                        0 <= k < i ==> (#[trigger] numbers[k]) as nat == (match key {
                            SortKey::Files => rows[k]@.sum.files,
                            SortKey::Code => rows[k]@.sum.count.code,
                            SortKey::Comment => rows[k]@.sum.count.comment,
                            SortKey::Blank => rows[k]@.sum.count.blank,
                            _ => rows[k]@.sum.count.lines,
                        }),
                decreases rows.len() - i,
            {
                let n = match key {
                    SortKey::Files => rows[i].total.files,
                    SortKey::Code => rows[i].total.count.code,
                    SortKey::Comment => rows[i].total.count.comment,
                    SortKey::Blank => rows[i].total.count.blank,
                    _ => rows[i].total.count.lines,
                };
                numbers.push(n);
                i = i + 1;
            }
            let keys = Keys::Numbers(numbers);
            assert(keys@ =~= row_keys(row_views(rows@), key)) by {
                assert(keys@->Numbers_0 =~= row_keys(row_views(rows@), key)->Numbers_0);
            }
            keys
        },
    }
}

/// Sorts language rows for the summary: by `key`, rows of equal keys by name.
pub fn sort_rows(rows: &Vec<LangRow>, key: SortKey) -> (out: Vec<LangRow>)
    ensures
        row_views(out@) == sorted_rows(row_views(rows@), key),
{
    let by_name = arrange_rows(rows, SortKey::Language);
    arrange_rows(&by_name, key)
}

/// Arranges language rows by one column, rows of equal keys in the order
/// they came in.
fn arrange_rows(rows: &Vec<LangRow>, key: SortKey) -> (out: Vec<LangRow>)
    ensures
        row_views(out@) == rows_by(row_views(rows@), key),
{
    let keys = keys_of_rows(rows, key);
    let order = sorted_order(&keys);
    let mut out: Vec<LangRow> = Vec::new();
    let mut a: usize = 0;
    while a < order.len()
        invariant
            a <= order.len(),
            out.len() == a,
            order.len() == rows.len(),
            forall|k: int| 0 <= k < order.len() ==> (#[trigger] order[k]) < rows.len(),
            forall|k: int| 0 <= k < a ==> (#[trigger] out[k])@ == rows[order[k] as int]@,
        decreases order.len() - a,
    {
        out.push(rows[order[a]].clone());
        a = a + 1;
    }
    assert(row_views(out@) =~= rows_by(row_views(rows@), key));
    out
}

/// The lines of the summary table for rows already in display order, or
/// `None` when a column of the totals line does not fit in a `u64`.
pub fn totals_by_lang_lines(rows: &Vec<LangRow>, width: usize) -> (lines: Option<Vec<String>>)
    ensures
        lines is Some <==> sum_rows(row_views(rows@)).fits(),
        lines matches Some(l) ==> texts(l@) == summary_lines(row_views(rows@), width as nat),
{
    let total = match grand_total(rows) {
        Some(total) => total,
        None => {
            return None;
        },
    };
    let ghost shown = row_views(rows@);
    let ghost w = width as nat;
    let ghost head = seq![rule(w), header_line(w), rule(w)];
    let ghost body = shown.map_values(|r: RowView| total_line(r.lang.name(), r.sum, w));
    let mut lines: Vec<String> = Vec::new();
    lines.push(render_rule(width));
    lines.push(render_header(width));
    lines.push(render_rule(width));
    assert(texts(lines@) =~= head);
    let mut i: usize = 0;
    while i < rows.len()
        invariant
            i <= rows.len(),
            shown == row_views(rows@),
            w == width as nat,
            head == seq![rule(w), header_line(w), rule(w)],
            body == shown.map_values(|r: RowView| total_line(r.lang.name(), r.sum, w)),
            texts(lines@) == head + body.take(i as int),
        decreases rows.len() - i,
    {
        let name = rows[i].lang.to_s();
        let ghost before = lines@;
        lines.push(render_total(name.as_str(), &rows[i].total, width));
        assert(texts(lines@) =~= texts(before).push(body[i as int]));
        assert(body.take(i + 1) =~= body.take(i as int).push(body[i as int]));
        assert(texts(lines@) =~= head + body.take(i + 1));
        i = i + 1;
    }
    assert(body.take(i as int) =~= body);
    let ghost before = lines@;
    lines.push(render_rule(width));
    lines.push(render_total("Total", &total, width));
    lines.push(render_rule(width));
    assert(texts(lines@) =~= texts(before) + seq![
        rule(w),
        total_line("Total"@, sum_rows(shown), w),
        rule(w),
    ]);
    Some(lines)
}

/// The summary table of `files` sorted by `key`, or `None` when a column of
/// the grand total does not fit in a `u64`.
pub fn summary(files: &Vec<FileCount>, key: SortKey, width: usize) -> (lines: Option<Vec<String>>)
    ensures
        lines is Some <==> sum_all(tallies(files@)).fits(),
        lines matches Some(l) ==> texts(l@) == summary_lines(
            sorted_rows(rows_of(tallies(files@)), key),
            width as nat,
        ),
{
    let ghost all = tallies(files@);
    let buckets = group_by_lang(files);
    proof {
        lemma_rows_sum_to_all(all);
        assert forall|b: int| 0 <= b < buckets.len() implies sum_all(
            tallies((#[trigger] buckets[b]).files@),
        ) == rows_of(all)[b].sum by {
            lemma_sum_of_files_of_lang(all, langs_of(all)[b]);
        }
        assert forall|b: int| 0 <= b < buckets.len() implies rows_of(all)[b].sum.within(
            sum_all(all),
        ) by {
            lemma_row_within_sum(rows_of(all), b);
        }
    }
    let rows = match lang_rows(&buckets) {
        Some(rows) => rows,
        None => {
            return None;
        },
    };
    assert(row_views(rows@) =~= rows_of(all));
    let shown = sort_rows(&rows, key);
    proof {
        lemma_sorted_rows_sum(rows_of(all), key);
    }
    totals_by_lang_lines(&shown, width)
}

/// The key column of file rows for a sort key, or `None` for a key that
/// leaves file rows in the order they came in.
pub open spec fn file_keys(files: Seq<FileTally>, key: SortKey) -> Option<KeyColumn> {
    match key {
        SortKey::Code => Some(KeyColumn::Numbers(files.map_values(|f: FileTally| f.count.code))),
        SortKey::Comment => Some(
            KeyColumn::Numbers(files.map_values(|f: FileTally| f.count.comment)),
        ),
        SortKey::Blank => Some(KeyColumn::Numbers(files.map_values(|f: FileTally| f.count.blank))),
        SortKey::Lines => Some(KeyColumn::Numbers(files.map_values(|f: FileTally| f.count.lines))),
        SortKey::Language => None,
        SortKey::Files => None,
    }
}

/// File rows sorted by `key` from the largest number down, rows of equal
/// numbers in the order they came in; `Language` and `Files` sort nothing.
pub open spec fn sorted_files(files: Seq<FileTally>, key: SortKey) -> Seq<FileTally> {
    match file_keys(files, key) {
        Some(keys) => arranged(files, sorted(keys)),
        None => files,
    }
}

/// The lines of one language in the per-file table: rule, the line of the
/// language with its totals, rule, then one line per file.
pub open spec fn bucket_lines(files: Seq<FileTally>, lang: LangTag, key: SortKey, width: nat) -> Seq<
    Seq<char>,
> {
    seq![rule(width), total_line(lang.name(), sum_of_lang(files, lang), width), rule(width)]
        + sorted_files(files_of_lang(files, lang), key).map_values(
        |f: FileTally| file_line(f, width),
    )
}

/// The lines of the first `n` languages in the per-file table.
pub open spec fn buckets_lines(files: Seq<FileTally>, key: SortKey, width: nat, n: nat) -> Seq<
    Seq<char>,
>
    decreases n,
{
    if n == 0 {
        Seq::empty()
    } else {
        buckets_lines(files, key, width, (n - 1) as nat) + bucket_lines(
            files,
            langs_of(files)[n - 1],
            key,
            width,
        )
    }
}

/// The lines of the per-file table: rule, titles, rule, then the lines of
/// each language in the order in which the languages first appear.
pub open spec fn breakdown_lines(files: Seq<FileTally>, key: SortKey, width: nat) -> Seq<Seq<char>> {
    seq![rule(width), header_line(width), rule(width)] + buckets_lines(
        files,
        key,
        width,
        langs_of(files).len(),
    )
}

/// Whether the total of every language of `files` fits in `u64` columns.
pub open spec fn lang_totals_fit(files: Seq<FileTally>) -> bool {
    forall|b: int| 0 <= b < langs_of(files).len() ==> sum_of_lang(files, #[trigger] langs_of(files)[b]).fits()
}

/// Sorts file rows by `key`.
pub fn sort_files(files: &Vec<FileCount>, key: SortKey) -> (out: Vec<FileCount>)
    ensures
        tallies(out@) == sorted_files(tallies(files@), key),
{
    let mut numbers: Vec<u64> = Vec::new();
    let mut i: usize = 0;
    while i < files.len()
        invariant
            i <= files.len(),
            numbers.len() == i,
            forall|k: int|
                0 <= k < i ==> (#[trigger] numbers[k]) as nat == (match key {
                    SortKey::Code => files[k]@.count.code,
                    SortKey::Comment => files[k]@.count.comment,
                    SortKey::Blank => files[k]@.count.blank,
                    _ => files[k]@.count.lines,
                }),
        decreases files.len() - i,
    {
        let n = match key {
            SortKey::Code => files[i].count.code,
            SortKey::Comment => files[i].count.comment,
            SortKey::Blank => files[i].count.blank,
            _ => files[i].count.lines,
        };
        numbers.push(n);
        i = i + 1;
    }
    let sorting = match key {
        SortKey::Language => false,
        SortKey::Files => false,
        _ => true,
    };
    let keys = Keys::Numbers(numbers);
    let order = if sorting {
        proof {
            let wanted = file_keys(tallies(files@), key)->Some_0;
            assert(keys@->Numbers_0 =~= wanted->Numbers_0);
        }
        sorted_order(&keys)
    } else {
        let mut same: Vec<usize> = Vec::new();
        let mut k: usize = 0;
        while k < files.len()
            invariant
                k <= files.len(),
                same.len() == k,
                forall|a: int| 0 <= a < k ==> (#[trigger] same[a]) == a,
            decreases files.len() - k,
        {
            same.push(k);
            k = k + 1;
        }
        same
    };
    let mut out: Vec<FileCount> = Vec::new();
    let mut a: usize = 0;
    while a < order.len()
        invariant
            a <= order.len(),
            out.len() == a,
            order.len() == files.len(),
            forall|k: int| 0 <= k < order.len() ==> (#[trigger] order[k]) < files.len(),
            forall|k: int| 0 <= k < a ==> (#[trigger] out[k])@ == files[order[k] as int]@,
        decreases order.len() - a,
    {
        out.push(files[order[a]].clone());
        a = a + 1;
    }
    assert(tallies(out@) =~= sorted_files(tallies(files@), key));
    out
}

/// The per-file table of `files`, the files of each language sorted by
/// `key`, or `None` when the total of a language does not fit in `u64`
/// columns.
pub fn breakdown(files: &Vec<FileCount>, key: SortKey, width: usize) -> (lines: Option<Vec<String>>)
    ensures
        lines is Some <==> lang_totals_fit(tallies(files@)),
        lines matches Some(l) ==> texts(l@) == breakdown_lines(tallies(files@), key, width as nat),
{
    let ghost all = tallies(files@);
    let ghost w = width as nat;
    let ghost head = seq![rule(w), header_line(w), rule(w)];
    let buckets = group_by_lang(files);
    let mut lines: Vec<String> = Vec::new();
    lines.push(render_rule(width));
    lines.push(render_header(width));
    lines.push(render_rule(width));
    assert(texts(lines@) =~= head + buckets_lines(all, key, w, 0));
    let mut b: usize = 0;
    while b < buckets.len()
        invariant
            b <= buckets.len(),
            all == tallies(files@),
            w == width as nat,
            head == seq![rule(w), header_line(w), rule(w)],
            crate::aggregate::groups(buckets@, all),
            forall|k: int| 0 <= k < b ==> sum_of_lang(all, #[trigger] langs_of(all)[k]).fits(),
            texts(lines@) == head + buckets_lines(all, key, w, b as nat),
        decreases buckets.len() - b,
    {
        let ghost lang = langs_of(all)[b as int];
        proof {
            lemma_sum_of_files_of_lang(all, lang);
        }
        let total = match total_of(&buckets[b].files) {
            Some(total) => total,
            None => {
                return None;
            },
        };
        let name = buckets[b].lang.to_s();
        let ghost start = lines@;
        lines.push(render_rule(width));
        lines.push(render_total(name.as_str(), &total, width));
        lines.push(render_rule(width));
        let ghost top = seq![rule(w), total_line(lang.name(), sum_of_lang(all, lang), w), rule(w)];
        assert(texts(lines@) =~= texts(start) + top);
        let shown = sort_files(&buckets[b].files, key);
        let ghost rows = sorted_files(files_of_lang(all, lang), key).map_values(
            |f: FileTally| file_line(f, w),
        );
        let mut i: usize = 0;
        while i < shown.len()
            invariant
                i <= shown.len(),
                w == width as nat,
                rows == tallies(shown@).map_values(|f: FileTally| file_line(f, w)),
                texts(lines@) == texts(start) + top + rows.take(i as int),
            decreases shown.len() - i,
        {
            let ghost before = lines@;
            lines.push(render_file(&shown[i], width));
            assert(texts(lines@) =~= texts(before).push(rows[i as int]));
            assert(rows.take(i + 1) =~= rows.take(i as int).push(rows[i as int]));
            assert(texts(lines@) =~= texts(start) + top + rows.take(i + 1));
            i = i + 1;
        }
        proof {
            assert(rows.take(i as int) =~= rows);
            assert(bucket_lines(all, lang, key, w) == top + rows);
            assert(texts(lines@) =~= head + buckets_lines(all, key, w, (b + 1) as nat));
        }
        b = b + 1;
    }
    Some(lines)
}

/// What is printed for one run: a warning, if one is due, and the table.
#[derive(Debug)]
pub struct Report {
    /// The warning that an unknown sort column earns.
    pub warning: Option<String>,
    /// The lines of the table, top to bottom.
    pub lines: Vec<String>,
}

/// The warning for a requested sort column that is none.
pub open spec fn warning_text(sort: Seq<char>) -> Seq<char> {
    "invalid sort option "@ + sort + ", sorting by code"@
}

/// The lines of the table for a requested sort column: an unknown column
/// sorts as `code` does.
pub open spec fn report_lines(files: Seq<FileTally>, sort: Seq<char>, by_file: bool, width: nat) -> Seq<
    Seq<char>,
> {
    if by_file {
        breakdown_lines(files, key_used(sort), width)
    } else {
        summary_lines(sorted_rows(rows_of(files), key_used(sort)), width)
    }
}

/// Whether every number that the table prints fits in a `u64`.
pub open spec fn report_fits(files: Seq<FileTally>, by_file: bool) -> bool {
    if by_file {
        lang_totals_fit(files)
    } else {
        sum_all(files).fits()
    }
}

/// The warning for a requested sort column that is none.
pub fn render_warning(sort: &str) -> (r: String)
    ensures
        r@ == warning_text(sort@),
{
    let mut r = String::from_str("invalid sort option ");
    r.append(sort);
    r.append(", sorting by code");
    r
}

/// The report on `files`: the per-file table when `by_file` is set, the
/// summary table otherwise, sorted by the column that `sort` names. A `sort`
/// that names no column earns a warning and sorts by `code`. `None` comes
/// only when a number to print does not fit in a `u64`.
pub fn report(files: &Vec<FileCount>, sort: &str, by_file: bool, width: usize) -> (r: Option<Report>)
    ensures
        r is Some <==> report_fits(tallies(files@), by_file),
        r matches Some(rep) ==> {
            &&& texts(rep.lines@) == report_lines(tallies(files@), sort@, by_file, width as nat)
            &&& rep.warning is Some <==> key_named(sort@) is None
            &&& rep.warning matches Some(w) ==> w@ == warning_text(sort@)
        },
{
    let (key, unknown) = SortKey::resolve(sort);
    let table = if by_file {
        breakdown(files, key, width)
    } else {
        summary(files, key, width)
    };
    match table {
        Some(lines) => {
            let warning = if unknown {
                Some(render_warning(sort))
            } else {
                None
            };
            Some(Report { warning, lines })
        },
        None => None,
    }
}

} // verus!
