use linecount::filter::{combine, FilterError, PathFilter, Pattern};

fn strings(items: &[&str]) -> Vec<String> {
    items.iter().map(|s| s.to_string()).collect()
}

#[test]
fn combine_joins_groups_with_bars() {
    assert_eq!(combine(&strings(&["a", "b.*", "c$"])), "(a)|(b.*)|(c$)");
    assert_eq!(combine(&strings(&[r".*\.rs$"])), r"(.*\.rs$)");
    assert_eq!(combine(&Vec::new()), "");
    assert_eq!(combine(&strings(&["", ""])), "()|()");
}

#[test]
fn pattern_matches_anywhere_in_the_text() {
    let p = Pattern::new(r"main\.rs$").unwrap();
    assert!(p.matches("src/main.rs"));
    assert!(!p.matches("src/main.rs.bak"));
    assert!(!p.matches("main"));
    let q = Pattern::new("oo").unwrap();
    assert!(q.matches("foo/bar"));
    assert!(!q.matches("oo".to_uppercase().as_str()));
}

#[test]
fn pattern_that_does_not_compile_gives_its_reason() {
    match Pattern::new("foo(bar") {
        Ok(_) => panic!("an unclosed group does not compile"),
        Err(reason) => assert!(!reason.is_empty()),
    }
}

#[test]
fn filter_without_patterns_keeps_everything() {
    let f = PathFilter::build(None, None).ok().unwrap();
    assert!(f.keep("a.rs"));
    assert!(f.keep(""));
    assert_eq!(f.select(strings(&["a.rs", "b.txt"])), strings(&["a.rs", "b.txt"]));
}

#[test]
fn exclude_wins_over_include() {
    let f = PathFilter::build(Some(strings(&[r"main\.rs$"])), Some(strings(&[r".*\.rs$"])))
        .ok()
        .unwrap();
    let kept = f.select(strings(&["a.rs", "main.rs", "b.txt"]));
    assert_eq!(kept, strings(&["a.rs"]));
    assert!(f.keep("a.rs"));
    assert!(!f.keep("main.rs"));
    assert!(!f.keep("b.txt"));
}

#[test]
fn include_alone_keeps_what_matches() {
    let f = PathFilter::build(None, Some(strings(&[r"\.rs$", r"\.go$"]))).ok().unwrap();
    assert_eq!(f.select(strings(&["a.rs", "b.txt", "c.go", "d.rsx"])), strings(&["a.rs", "c.go"]));
}

#[test]
fn exclude_alone_drops_what_matches() {
    let f = PathFilter::build(Some(strings(&["^target/", r"\.lock$"])), None).ok().unwrap();
    assert_eq!(
        f.select(strings(&["src/a.rs", "target/a.rs", "Cargo.lock", "Cargo.toml"])),
        strings(&["src/a.rs", "Cargo.toml"])
    );
}

#[test]
fn invalid_exclude_is_reported() {
    match PathFilter::build(Some(strings(&["(unclosed"])), None) {
        Err(FilterError::Exclude(reason)) => assert!(!reason.is_empty()),
        _ => panic!("the exclude pattern does not compile"),
    }
}

#[test]
fn invalid_include_is_reported() {
    match PathFilter::build(Some(strings(&["fine"])), Some(strings(&["[z-a]"]))) {
        Err(FilterError::Include(reason)) => assert!(!reason.is_empty()),
        _ => panic!("the include pattern does not compile"),
    }
}

#[test]
fn invalid_exclude_is_reported_first() {
    match PathFilter::build(Some(strings(&["(unclosed"])), Some(strings(&["[z-a]"]))) {
        Err(FilterError::Exclude(_)) => {}
        _ => panic!("the exclude pattern is reported before the include pattern"),
    }
}

#[test]
fn error_messages_name_the_side() {
    let e = FilterError::Exclude("bad".to_string());
    assert_eq!(e.message(), "Error processing exclude regex: bad");
    let e = FilterError::Include("worse".to_string());
    assert_eq!(e.message(), "Error processing include regex: worse");
}

#[test]
fn assemble_takes_what_compiled() {
    let ok = PathFilter::assemble(None, Some(Pattern::new("a")));
    assert!(ok.is_ok());
    assert!(ok.ok().unwrap().keep("banana"));
    let err = PathFilter::assemble(Some(Err("x".to_string())), Some(Err("y".to_string())));
    match err {
        Err(FilterError::Exclude(reason)) => assert_eq!(reason, "x"),
        _ => panic!("exclude comes first"),
    }
    let err = PathFilter::assemble(Some(Pattern::new("a")), Some(Err("y".to_string())));
    match err {
        Err(FilterError::Include(reason)) => assert_eq!(reason, "y"),
        _ => panic!("include is reported"),
    }
}
