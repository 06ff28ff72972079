use linecount::aggregate::{group_by_lang, lang_rows, LangTotal};
use linecount::count::Count;
use linecount::files::FileCount;
use linecount::lang::Lang;
use linecount::report::{
    breakdown, render_file, render_header, render_rule, render_total, render_warning, report,
    sort_files, sort_rows, summary, totals_by_lang_lines,
};
use linecount::sort::SortKey;

fn file(path: &str, lang: &str, lines: u64, blank: u64, comment: u64, code: u64) -> FileCount {
    FileCount::new(path, Lang::named(lang), Count::new(lines, blank, comment, code))
}

fn sample() -> Vec<FileCount> {
    vec![
        file("a.rs", "Rust", 10, 2, 3, 5),
        file("b.go", "Go", 100, 20, 30, 50),
        file("c.rs", "Rust", 7, 1, 1, 5),
        file("d.py", "Python", 30, 10, 0, 20),
        file("e.go", "Go", 1, 0, 0, 1),
    ]
}

fn three_langs() -> Vec<FileCount> {
    vec![
        file("main.go", "Go", 120, 10, 10, 100),
        file("lib.rs", "Rust", 70, 10, 10, 50),
        file("tool.py", "Python", 260, 30, 30, 200),
    ]
}

fn expected_row(name: &str, width: usize, files: u64, c: (u64, u64, u64, u64)) -> String {
    let first = format!(" {:<1$}", name, width.saturating_sub(63));
    let rest = format!(" {0: >8} {1: >12} {2: >12} {3: >12} {4: >12}", files, c.0, c.1, c.2, c.3);
    format!("{}{}", first, rest)
}

fn expected_header(width: usize) -> String {
    let first = format!(" {:<1$}", "Language", width.saturating_sub(63));
    let rest =
        format!(" {0: >8} {1: >12} {2: >12} {3: >12} {4: >12}", "Files", "Lines", "Blank", "Comment", "Code");
    format!("{}{}", first, rest)
}

fn expected_file(path: &str, width: usize, c: (u64, u64, u64, u64)) -> String {
    let first = format!("| {:<1$}", path, width.saturating_sub(55));
    let rest = format!(" {0: >12} {1: >12} {2: >12} {3: >12}", c.0, c.1, c.2, c.3);
    format!("{}{}", first, rest)
}

fn names_of(lines: &[String], from: usize, to: usize) -> Vec<String> {
    lines[from..to].iter().map(|l| l.split_whitespace().next().unwrap().to_string()).collect()
}

#[test]
fn rule_is_as_wide_as_the_table() {
    assert_eq!(render_rule(80), "-".repeat(80));
    assert_eq!(render_rule(0), "");
}

#[test]
fn header_has_the_column_titles() {
    assert_eq!(render_header(80), expected_header(80));
    assert_eq!(
        render_header(80),
        " Language             Files        Lines        Blank      Comment         Code"
    );
    assert_eq!(render_header(80).len(), 79);
    assert_eq!(render_header(100), expected_header(100));
}

#[test]
fn total_line_has_name_and_five_numbers() {
    let total = LangTotal { files: 2, count: Count::new(17, 3, 4, 10) };
    assert_eq!(
        render_total("Rust", &total, 80),
        " Rust                     2           17            3            4           10"
    );
    assert_eq!(render_total("Rust", &total, 80), expected_row("Rust", 80, 2, (17, 3, 4, 10)));
    assert_eq!(render_total("Rust", &total, 120), expected_row("Rust", 120, 2, (17, 3, 4, 10)));
}

#[test]
fn wide_numbers_are_never_cut() {
    let total = LangTotal { files: 1234567890, count: Count::new(u64::MAX, 0, 1, 2) };
    assert_eq!(
        render_total("Big", &total, 80),
        expected_row("Big", 80, 1234567890, (u64::MAX, 0, 1, 2))
    );
}

#[test]
fn file_line_has_bar_path_and_four_numbers() {
    let f = file("src/main.rs", "Rust", 17, 3, 4, 10);
    assert_eq!(
        render_file(&f, 80),
        "| src/main.rs                         17            3            4           10"
    );
    assert_eq!(render_file(&f, 80), expected_file("src/main.rs", 80, (17, 3, 4, 10)));
}

#[test]
fn long_paths_keep_their_trailing_characters() {
    let f = file("a/very/long/directory/chain/that/never/ends/file.rs", "Rust", 1, 0, 0, 1);
    let line = render_file(&f, 70);
    assert_eq!(line, expected_file("er/ends/file.rs", 70, (1, 0, 0, 1)));
    assert_eq!(line, "| er/ends/file.rs            1            0            0            1");
    assert!(line.contains("file.rs"));
}

#[test]
fn width_forty_never_crashes() {
    let f = file("a/very/long/directory/chain/that/never/ends/file.rs", "Rust", 1, 0, 0, 1);
    assert_eq!(render_file(&f, 40), expected_file("", 40, (1, 0, 0, 1)));
    assert_eq!(render_file(&f, 40), "|             1            0            0            1");
    assert_eq!(render_header(40), expected_header(40));
    let files = vec![f];
    let by_lang = report(&files, "code", false, 40).unwrap();
    assert_eq!(by_lang.lines[0], "-".repeat(40));
    assert_eq!(by_lang.lines[3], expected_row("Rust", 40, 1, (1, 0, 0, 1)));
    let by_file = report(&files, "code", true, 40).unwrap();
    assert_eq!(by_file.lines.len(), 7);
    assert_eq!(by_file.lines[6], "|             1            0            0            1");
    assert!(report(&files, "code", true, 0).is_some());
    assert!(report(&files, "code", false, 0).is_some());
}

#[test]
fn summary_lists_languages_and_totals() {
    let lines = summary(&sample(), SortKey::Code, 80).unwrap();
    let rule = "-".repeat(80);
    let expected = vec![
        rule.clone(),
        expected_header(80),
        rule.clone(),
        expected_row("Go", 80, 2, (101, 20, 30, 51)),
        expected_row("Python", 80, 1, (30, 10, 0, 20)),
        expected_row("Rust", 80, 2, (17, 3, 4, 10)),
        rule.clone(),
        expected_row("Total", 80, 5, (148, 33, 34, 81)),
        rule,
    ];
    assert_eq!(lines, expected);
}

#[test]
fn summary_of_nothing_has_a_zero_total() {
    let lines = summary(&Vec::new(), SortKey::Code, 80).unwrap();
    let rule = "-".repeat(80);
    let expected = vec![
        rule.clone(),
        expected_header(80),
        rule.clone(),
        rule.clone(),
        expected_row("Total", 80, 0, (0, 0, 0, 0)),
        rule,
    ];
    assert_eq!(lines, expected);
}

#[test]
fn sort_by_code_is_descending() {
    let lines = summary(&three_langs(), SortKey::Code, 80).unwrap();
    assert_eq!(names_of(&lines, 3, 6), vec!["Python", "Go", "Rust"]);
}

#[test]
fn sort_by_language_is_ascending_by_name() {
    let lines = summary(&three_langs(), SortKey::Language, 80).unwrap();
    assert_eq!(names_of(&lines, 3, 6), vec!["Go", "Python", "Rust"]);
}

#[test]
fn sort_by_each_numeric_column() {
    let files = vec![
        file("a", "A", 5, 1, 3, 1),
        file("b", "B", 9, 3, 1, 5),
        file("b2", "B", 1, 0, 0, 1),
        file("b3", "B", 1, 0, 0, 1),
        file("c", "C", 7, 2, 5, 0),
    ];
    let by = |key| names_of(&summary(&files, key, 80).unwrap(), 3, 6);
    assert_eq!(by(SortKey::Files), vec!["B", "A", "C"]);
    assert_eq!(by(SortKey::Lines), vec!["B", "C", "A"]);
    assert_eq!(by(SortKey::Blank), vec!["B", "C", "A"]);
    assert_eq!(by(SortKey::Comment), vec!["C", "A", "B"]);
    assert_eq!(by(SortKey::Code), vec!["B", "A", "C"]);
    assert_eq!(by(SortKey::Language), vec!["A", "B", "C"]);
}

#[test]
fn rows_of_equal_keys_go_by_name() {
    let files = vec![
        file("z", "Zig", 5, 0, 0, 5),
        file("a", "Ada", 5, 0, 0, 5),
        file("r", "Rust", 9, 0, 0, 9),
        file("m", "ML", 5, 0, 0, 5),
    ];
    let lines = summary(&files, SortKey::Code, 80).unwrap();
    assert_eq!(names_of(&lines, 3, 7), vec!["Rust", "Ada", "ML", "Zig"]);
    let lines = summary(&files, SortKey::Files, 80).unwrap();
    assert_eq!(names_of(&lines, 3, 7), vec!["Ada", "ML", "Rust", "Zig"]);
}

#[test]
fn sort_rows_reorders_rows() {
    let rows = lang_rows(&group_by_lang(&three_langs())).unwrap();
    let sorted = sort_rows(&rows, SortKey::Code);
    let names: Vec<String> = sorted.iter().map(|r| r.lang.to_s()).collect();
    assert_eq!(names, vec!["Python", "Go", "Rust"]);
    assert_eq!(sorted[0].total, LangTotal { files: 1, count: Count::new(260, 30, 30, 200) });
}

#[test]
fn totals_row_is_the_sum_of_the_language_rows() {
    let rows = lang_rows(&group_by_lang(&sample())).unwrap();
    let lines = totals_by_lang_lines(&rows, 80).unwrap();
    assert_eq!(lines.len(), 9);
    assert_eq!(lines[3], expected_row("Rust", 80, 2, (17, 3, 4, 10)));
    assert_eq!(lines[7], expected_row("Total", 80, 5, (148, 33, 34, 81)));
    let (mut files, mut l, mut b, mut c, mut k) = (0, 0, 0, 0, 0);
    for f in sample() {
        files += 1;
        l += f.count.lines;
        b += f.count.blank;
        c += f.count.comment;
        k += f.count.code;
    }
    assert_eq!(lines[7], expected_row("Total", 80, files, (l, b, c, k)));
}

#[test]
fn summary_totals_do_not_depend_on_arrival_order() {
    let mut backward = sample();
    backward.reverse();
    let a = summary(&sample(), SortKey::Code, 80).unwrap();
    let b = summary(&backward, SortKey::Code, 80).unwrap();
    assert_eq!(a, b);
    let mut rotated = sample();
    rotated.rotate_left(2);
    assert_eq!(summary(&rotated, SortKey::Language, 80), summary(&sample(), SortKey::Language, 80));
}

#[test]
fn summary_reports_overflow_of_the_grand_total() {
    let files = vec![file("a.rs", "Rust", u64::MAX, 0, 0, 0), file("b.go", "Go", 1, 0, 0, 0)];
    assert_eq!(summary(&files, SortKey::Code, 80), None);
    assert!(breakdown(&files, SortKey::Code, 80).is_some());
    assert!(report(&files, "code", false, 80).is_none());
    assert!(report(&files, "code", true, 80).is_some());
}

#[test]
fn breakdown_reports_overflow_of_a_language_total() {
    let files = vec![file("a.rs", "Rust", u64::MAX, 0, 0, 0), file("b.rs", "Rust", 1, 0, 0, 0)];
    assert_eq!(breakdown(&files, SortKey::Code, 80), None);
    assert!(report(&files, "code", true, 80).is_none());
}

#[test]
fn breakdown_lists_files_under_their_language() {
    let lines = breakdown(&sample(), SortKey::Lines, 80).unwrap();
    let rule = "-".repeat(80);
    let expected = vec![
        rule.clone(),
        expected_header(80),
        rule.clone(),
        rule.clone(),
        expected_row("Rust", 80, 2, (17, 3, 4, 10)),
        rule.clone(),
        expected_file("a.rs", 80, (10, 2, 3, 5)),
        expected_file("c.rs", 80, (7, 1, 1, 5)),
        rule.clone(),
        expected_row("Go", 80, 2, (101, 20, 30, 51)),
        rule.clone(),
        expected_file("b.go", 80, (100, 20, 30, 50)),
        expected_file("e.go", 80, (1, 0, 0, 1)),
        rule.clone(),
        expected_row("Python", 80, 1, (30, 10, 0, 20)),
        rule,
        expected_file("d.py", 80, (30, 10, 0, 20)),
    ];
    assert_eq!(lines, expected);
}

#[test]
fn breakdown_of_nothing_is_the_header() {
    let rule = "-".repeat(80);
    assert_eq!(
        breakdown(&Vec::new(), SortKey::Code, 80).unwrap(),
        vec![rule.clone(), expected_header(80), rule]
    );
}

#[test]
fn breakdown_file_rows_add_up_to_the_language_row() {
    let lines = breakdown(&sample(), SortKey::Code, 80).unwrap();
    let numbers = |line: &String| -> Vec<u64> {
        line.split_whitespace().filter_map(|w| w.parse::<u64>().ok()).collect()
    };
    let lang = numbers(&lines[9]);
    let f1 = numbers(&lines[11]);
    let f2 = numbers(&lines[12]);
    assert_eq!(lang[0], 2);
    for k in 0..4 {
        assert_eq!(lang[k + 1], f1[k] + f2[k]);
    }
}

#[test]
fn files_sort_by_the_numeric_columns_only() {
    let files = vec![
        file("one", "X", 5, 1, 3, 1),
        file("two", "X", 9, 3, 1, 5),
        file("three", "X", 7, 2, 5, 0),
        file("four", "X", 9, 0, 0, 9),
    ];
    let by = |key| -> Vec<String> { sort_files(&files, key).iter().map(|f| f.path.clone()).collect() };
    assert_eq!(by(SortKey::Code), vec!["four", "two", "one", "three"]);
    assert_eq!(by(SortKey::Comment), vec!["three", "one", "two", "four"]);
    assert_eq!(by(SortKey::Blank), vec!["two", "three", "one", "four"]);
    assert_eq!(by(SortKey::Lines), vec!["two", "four", "three", "one"]);
    assert_eq!(by(SortKey::Language), vec!["one", "two", "three", "four"]);
    assert_eq!(by(SortKey::Files), vec!["one", "two", "three", "four"]);
}

#[test]
fn unknown_sort_warns_and_sorts_by_code() {
    let bogus = report(&three_langs(), "bogus", false, 80).unwrap();
    let code = report(&three_langs(), "code", false, 80).unwrap();
    assert_eq!(bogus.warning, Some("invalid sort option bogus, sorting by code".to_string()));
    assert_eq!(code.warning, None);
    assert_eq!(bogus.lines, code.lines);
    assert_eq!(names_of(&bogus.lines, 3, 6), vec!["Python", "Go", "Rust"]);
    let bogus = report(&sample(), "", true, 80).unwrap();
    let code = report(&sample(), "code", true, 80).unwrap();
    assert_eq!(bogus.lines, code.lines);
    assert_eq!(bogus.warning, Some("invalid sort option , sorting by code".to_string()));
}

#[test]
fn warning_names_the_option() {
    assert_eq!(render_warning("size"), "invalid sort option size, sorting by code");
}

#[test]
fn report_picks_the_layout() {
    let by_lang = report(&sample(), "lines", false, 90).unwrap();
    assert_eq!(by_lang.lines, summary(&sample(), SortKey::Lines, 90).unwrap());
    assert_eq!(by_lang.warning, None);
    let by_file = report(&sample(), "lines", true, 90).unwrap();
    assert_eq!(by_file.lines, breakdown(&sample(), SortKey::Lines, 90).unwrap());
}
