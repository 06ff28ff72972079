use linecount::aggregate::{grand_total, group_by_lang, lang_rows, total_of, LangRow, LangTotal};
use linecount::count::Count;
use linecount::files::FileCount;
use linecount::lang::Lang;
use linecount::order::{bytes_less, sorted_order, Keys};

fn file(path: &str, lang: &str, lines: u64, blank: u64, comment: u64, code: u64) -> FileCount {
    FileCount::new(path, Lang::named(lang), Count::new(lines, blank, comment, code))
}

fn sample() -> Vec<FileCount> {
    vec![
        file("a.rs", "Rust", 10, 2, 3, 5),
        file("b.go", "Go", 100, 20, 30, 50),
        file("c.rs", "Rust", 7, 1, 1, 5),
        file("d.py", "Python", 30, 10, 0, 20),
        file("e.go", "Go", 1, 0, 0, 1),
    ]
}

#[test]
fn lang_knows_its_name() {
    assert_eq!(Lang::named("Rust").to_s(), "Rust");
    assert_eq!(Lang::Unrecognized.to_s(), "Unrecognized");
    assert!(Lang::named("Rust").is_recognized());
    assert!(!Lang::Unrecognized.is_recognized());
    assert!(Lang::named("Rust").same(&Lang::named("Rust")));
    assert!(!Lang::named("Rust").same(&Lang::named("Go")));
    assert!(!Lang::named("Rust").same(&Lang::Unrecognized));
    assert!(Lang::Unrecognized.same(&Lang::Unrecognized));
    assert!(Lang::named("C++").clone().same(&Lang::named("C++")));
}

#[test]
fn buckets_follow_first_appearance() {
    let buckets = group_by_lang(&sample());
    let names: Vec<String> = buckets.iter().map(|b| b.lang.to_s()).collect();
    assert_eq!(names, vec!["Rust", "Go", "Python"]);
    let paths: Vec<Vec<&str>> =
        buckets.iter().map(|b| b.files.iter().map(|f| f.path.as_str()).collect()).collect();
    assert_eq!(paths, vec![vec!["a.rs", "c.rs"], vec!["b.go", "e.go"], vec!["d.py"]]);
}

#[test]
fn no_files_give_no_buckets() {
    assert!(group_by_lang(&Vec::new()).is_empty());
    assert_eq!(total_of(&Vec::new()), Some(LangTotal { files: 0, count: Count::zero() }));
}

#[test]
fn total_of_sums_files_and_columns() {
    let total = total_of(&sample());
    assert_eq!(total, Some(LangTotal { files: 5, count: Count::new(148, 33, 34, 81) }));
}

#[test]
fn total_of_reports_overflow() {
    let files = vec![file("a.rs", "Rust", u64::MAX, 0, 0, 0), file("b.rs", "Rust", 1, 0, 0, 0)];
    assert_eq!(total_of(&files), None);
}

#[test]
fn lang_rows_hold_bucket_totals() {
    let rows = lang_rows(&group_by_lang(&sample())).unwrap();
    assert_eq!(rows.len(), 3);
    assert_eq!(rows[0].lang.to_s(), "Rust");
    assert_eq!(rows[0].total, LangTotal { files: 2, count: Count::new(17, 3, 4, 10) });
    assert_eq!(rows[1].lang.to_s(), "Go");
    assert_eq!(rows[1].total, LangTotal { files: 2, count: Count::new(101, 20, 30, 51) });
    assert_eq!(rows[2].lang.to_s(), "Python");
    assert_eq!(rows[2].total, LangTotal { files: 1, count: Count::new(30, 10, 0, 20) });
}

#[test]
fn grand_total_is_the_column_wise_sum_of_rows() {
    let rows = lang_rows(&group_by_lang(&sample())).unwrap();
    let total = grand_total(&rows).unwrap();
    assert_eq!(total, LangTotal { files: 5, count: Count::new(148, 33, 34, 81) });
    assert_eq!(Some(total), total_of(&sample()));
}

#[test]
fn grand_total_reports_overflow() {
    let rows = vec![
        LangRow { lang: Lang::named("A"), total: LangTotal { files: 1, count: Count::new(0, 0, 0, u64::MAX) } },
        LangRow { lang: Lang::named("B"), total: LangTotal { files: 1, count: Count::new(0, 0, 0, 1) } },
    ];
    assert_eq!(grand_total(&rows), None);
    let rows = vec![
        LangRow { lang: Lang::named("A"), total: LangTotal { files: u64::MAX, count: Count::zero() } },
        LangRow { lang: Lang::named("B"), total: LangTotal { files: 1, count: Count::zero() } },
    ];
    assert_eq!(grand_total(&rows), None);
}

#[test]
fn totals_do_not_depend_on_arrival_order() {
    let forward = sample();
    let mut backward = sample();
    backward.reverse();
    assert_eq!(total_of(&forward), total_of(&backward));
    let mut a: Vec<(String, LangTotal)> = lang_rows(&group_by_lang(&forward))
        .unwrap()
        .iter()
        .map(|r| (r.lang.to_s(), r.total))
        .collect();
    let mut b: Vec<(String, LangTotal)> = lang_rows(&group_by_lang(&backward))
        .unwrap()
        .iter()
        .map(|r| (r.lang.to_s(), r.total))
        .collect();
    a.sort_by(|x, y| x.0.cmp(&y.0));
    b.sort_by(|x, y| x.0.cmp(&y.0));
    assert_eq!(a, b);
}

#[test]
fn numbers_sort_from_the_largest_down() {
    let order = sorted_order(&Keys::Numbers(vec![100, 50, 200]));
    assert_eq!(order, vec![2, 0, 1]);
}

#[test]
fn equal_numbers_keep_their_order() {
    let order = sorted_order(&Keys::Numbers(vec![5, 9, 5, 9, 5, 1]));
    assert_eq!(order, vec![1, 3, 0, 2, 4, 5]);
}

#[test]
fn names_sort_in_ascending_order() {
    let names = vec!["Go".to_string(), "Rust".to_string(), "Python".to_string(), "C".to_string()];
    assert_eq!(sorted_order(&Keys::Names(names)), vec![3, 0, 2, 1]);
    let names = vec!["b".to_string(), "a".to_string(), "b".to_string(), "B".to_string()];
    assert_eq!(sorted_order(&Keys::Names(names)), vec![3, 1, 0, 2]);
}

#[test]
fn sorting_nothing_gives_nothing() {
    assert!(sorted_order(&Keys::Numbers(Vec::new())).is_empty());
    assert_eq!(sorted_order(&Keys::Numbers(vec![3])), vec![0]);
}

#[test]
fn sorted_order_agrees_with_a_stable_sort() {
    let keys: Vec<u64> = (0..200u64).map(|i| (i * 7919 + 13) % 17).collect();
    let mut expected: Vec<usize> = (0..keys.len()).collect();
    expected.sort_by(|a, b| keys[*b].cmp(&keys[*a]));
    assert_eq!(sorted_order(&Keys::Numbers(keys)), expected);
}

#[test]
fn bytes_less_is_the_order_of_strings() {
    assert!(bytes_less(b"Go", b"Python"));
    assert!(!bytes_less(b"Python", b"Go"));
    assert!(bytes_less(b"C", b"C++"));
    assert!(!bytes_less(b"C", b"C"));
    assert!(bytes_less(b"", b"a"));
    assert!(!bytes_less(b"a", b""));
    assert!(bytes_less(b"Z", b"a"));
}

#[test]
fn keys_precede_by_key_then_by_position() {
    let keys = Keys::Numbers(vec![5, 9, 5]);
    assert_eq!(keys.len(), 3);
    assert!(keys.precedes(1, 0));
    assert!(!keys.precedes(0, 1));
    assert!(keys.precedes(0, 2));
    assert!(!keys.precedes(2, 0));
    assert!(!keys.precedes(0, 0));
}
