use linecount::count::Count;
use linecount::files::FileCount;
use linecount::lang::Lang;
use linecount::pool::{gather, pool_size, work_items, worker_count, Step, Stolen, Work, Worker};
use linecount::report::summary;
use linecount::sort::SortKey;

fn paths(names: &[&str]) -> Vec<String> {
    names.iter().map(|n| n.to_string()).collect()
}

fn describe(items: &[Work]) -> Vec<String> {
    items
        .iter()
        .map(|w| match w {
            Work::File(p) => format!("file {}", p),
            Work::Quit => "quit".to_string(),
        })
        .collect()
}

/// Runs a worker against the queue until its `Quit`, classifying by extension.
fn run_worker(chan: &deque::Stealer<Work>) -> Vec<FileCount> {
    let mut worker = Worker::new();
    let mut steals = 0;
    while !worker.is_stopped() {
        steals += 1;
        assert!(steals < 1000);
        match worker.poll(chan) {
            Step::Retry => {}
            Step::Stop => {}
            Step::Examine(path) => {
                let lang = if path.ends_with(".rs") { Lang::named("Rust") } else { Lang::Unrecognized };
                worker.counted(path, lang, Count::new(3, 1, 1, 1));
            }
        }
    }
    worker.into_results()
}

#[test]
fn work_items_are_files_then_one_quit_per_worker() {
    let items = work_items(paths(&["a.rs", "b.rs", "c.txt"]), 2);
    assert_eq!(describe(&items), vec!["file a.rs", "file b.rs", "file c.txt", "quit", "quit"]);
}

#[test]
fn no_files_leave_only_the_quits() {
    let items = work_items(Vec::new(), 3);
    assert_eq!(describe(&items), vec!["quit", "quit", "quit"]);
    assert!(work_items(Vec::new(), 0).is_empty());
    assert_eq!(describe(&work_items(paths(&["a"]), 0)), vec!["file a"]);
}

#[test]
fn pool_has_at_least_one_worker() {
    assert!(pool_size() >= 1);
    assert_eq!(worker_count(0), 1);
    assert_eq!(worker_count(1), 1);
    assert_eq!(worker_count(8), 8);
}

#[test]
fn new_worker_is_running_with_no_results() {
    let worker = Worker::new();
    assert!(!worker.is_stopped());
    assert!(worker.into_results().is_empty());
}

#[test]
fn empty_and_abort_mean_retry() {
    let mut worker = Worker::new();
    assert!(matches!(worker.on_stolen(Stolen::Empty), Step::Retry));
    assert!(!worker.is_stopped());
    assert!(matches!(worker.on_stolen(Stolen::Abort), Step::Retry));
    assert!(!worker.is_stopped());
}

#[test]
fn quit_stops_the_worker() {
    let mut worker = Worker::new();
    assert!(matches!(worker.on_stolen(Stolen::Data(Work::Quit)), Step::Stop));
    assert!(worker.is_stopped());
    assert!(worker.into_results().is_empty());
}

#[test]
fn a_file_is_handed_out_for_examination() {
    let mut worker = Worker::new();
    match worker.on_stolen(Stolen::Data(Work::File("src/lib.rs".to_string()))) {
        Step::Examine(path) => assert_eq!(path, "src/lib.rs"),
        _ => panic!("a file must be examined"),
    }
    assert!(!worker.is_stopped());
}

#[test]
fn recognised_files_join_the_results() {
    let mut worker = Worker::new();
    worker.counted("a.rs".to_string(), Lang::named("Rust"), Count::new(10, 2, 3, 5));
    worker.counted("b.go".to_string(), Lang::named("Go"), Count::new(1, 0, 0, 1));
    let results = worker.into_results();
    assert_eq!(results.len(), 2);
    assert_eq!(results[0].path, "a.rs");
    assert_eq!(results[0].lang.to_s(), "Rust");
    assert_eq!(results[0].count, Count::new(10, 2, 3, 5));
    assert_eq!(results[1].path, "b.go");
}

#[test]
fn unrecognised_files_leave_no_trace() {
    let mut worker = Worker::new();
    worker.counted("notes.xyz".to_string(), Lang::Unrecognized, Count::new(10, 2, 3, 5));
    assert!(!worker.is_stopped());
    worker.counted("a.rs".to_string(), Lang::named("Rust"), Count::new(1, 0, 0, 1));
    worker.counted("README".to_string(), Lang::Unrecognized, Count::new(4, 4, 0, 0));
    let results = worker.into_results();
    assert_eq!(results.len(), 1);
    assert_eq!(results[0].path, "a.rs");
    assert!(results.iter().all(|f| f.lang.is_recognized()));
}

#[test]
fn gather_joins_the_lists_in_order() {
    let f = |p: &str| FileCount::new(p, Lang::named("Rust"), Count::new(1, 0, 0, 1));
    let all = gather(vec![vec![f("a"), f("b")], vec![], vec![f("c")]]);
    let names: Vec<&str> = all.iter().map(|x| x.path.as_str()).collect();
    assert_eq!(names, vec!["a", "b", "c"]);
    assert!(gather(Vec::new()).is_empty());
    assert!(gather(vec![vec![], vec![]]).is_empty());
}

#[test]
fn poll_takes_items_off_a_real_queue() {
    let (queue, chan) = deque::new();
    let mut worker = Worker::new();
    assert!(matches!(worker.poll(&chan), Step::Retry));
    for item in work_items(paths(&["a.rs", "b.txt"]), 1) {
        queue.push(item);
    }
    match worker.poll(&chan) {
        Step::Examine(path) => assert_eq!(path, "a.rs"),
        _ => panic!("the first file comes first"),
    }
    match worker.poll(&chan) {
        Step::Examine(path) => assert_eq!(path, "b.txt"),
        _ => panic!("the second file comes second"),
    }
    assert!(!worker.is_stopped());
    assert!(matches!(worker.poll(&chan), Step::Stop));
    assert!(worker.is_stopped());
}

#[test]
fn every_worker_stops_on_an_empty_file_set() {
    let (queue, chan) = deque::new();
    for item in work_items(Vec::new(), 3) {
        queue.push(item);
    }
    for _ in 0..3 {
        assert!(run_worker(&chan.clone()).is_empty());
    }
    let mut idle = Worker::new();
    assert!(matches!(idle.poll(&chan), Step::Retry));
}

#[test]
fn every_file_is_counted_exactly_once() {
    let (queue, chan) = deque::new();
    for item in work_items(paths(&["a.rs", "b.txt", "c.rs", "d.rs"]), 2) {
        queue.push(item);
    }
    let first = run_worker(&chan.clone());
    let second = run_worker(&chan);
    let all = gather(vec![first, second]);
    let mut names: Vec<&str> = all.iter().map(|x| x.path.as_str()).collect();
    names.sort();
    assert_eq!(names, vec!["a.rs", "c.rs", "d.rs"]);
}

#[test]
fn one_worker_or_many_give_the_same_summary() {
    let f = |p: &str, lang: &str, code: u64| {
        FileCount::new(p, Lang::named(lang), Count::new(code + 3, 1, 2, code))
    };
    let one = gather(vec![vec![f("a.rs", "Rust", 5), f("b.go", "Go", 9), f("c.rs", "Rust", 1), f("d.py", "Python", 7)]]);
    let many = gather(vec![
        vec![f("d.py", "Python", 7)],
        vec![],
        vec![f("c.rs", "Rust", 1), f("b.go", "Go", 9)],
        vec![f("a.rs", "Rust", 5)],
    ]);
    for key in [SortKey::Code, SortKey::Lines, SortKey::Files, SortKey::Language] {
        assert_eq!(summary(&one, key, 80), summary(&many, key, 80));
    }
    let lines = summary(&many, SortKey::Code, 80).unwrap();
    assert!(lines[3].trim_start().starts_with("Go"));
    assert!(lines[7].ends_with("          22"));
}
