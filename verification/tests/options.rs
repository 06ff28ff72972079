use linecount::options::{
    parse_number, resolve_width, table_width, targets_or_default, walk_flags, WalkFlags, DEFAULT_WIDTH,
};

#[test]
fn no_u_respects_ignore_files_and_hides_dotfiles() {
    assert_eq!(walk_flags(0), WalkFlags { use_ignore: true, ignore_hidden: true });
}

#[test]
fn one_u_drops_ignore_files() {
    assert_eq!(walk_flags(1), WalkFlags { use_ignore: false, ignore_hidden: true });
}

#[test]
fn two_u_show_hidden_files() {
    assert_eq!(walk_flags(2), WalkFlags { use_ignore: false, ignore_hidden: false });
    assert_eq!(walk_flags(3), WalkFlags { use_ignore: false, ignore_hidden: false });
    assert_eq!(walk_flags(u64::MAX), WalkFlags { use_ignore: false, ignore_hidden: false });
}

#[test]
fn targets_default_to_the_current_directory() {
    assert_eq!(targets_or_default(None), vec![".".to_string()]);
    let given = vec!["src".to_string(), "tests".to_string()];
    assert_eq!(targets_or_default(Some(given.clone())), given);
    assert!(targets_or_default(Some(Vec::new())).is_empty());
}

#[test]
fn numbers_are_read_as_usize_is() {
    for text in ["0", "7", "80", "120", "007", "+5", "+0", "18446744073709551615"] {
        assert_eq!(parse_number(text), text.parse::<usize>().ok(), "{}", text);
        assert!(parse_number(text).is_some());
    }
    assert_eq!(parse_number("120"), Some(120));
    assert_eq!(parse_number("+5"), Some(5));
    assert_eq!(parse_number("007"), Some(7));
}

#[test]
fn what_is_no_number_is_refused() {
    for text in
        ["", "+", "-", "-5", "++5", "5+", " 5", "5 ", "full", "1e3", "0x10", "١٢", "1_000", "18446744073709551616", "99999999999999999999999"]
    {
        assert_eq!(parse_number(text), text.parse::<usize>().ok(), "{}", text);
        assert_eq!(parse_number(text), None, "{}", text);
    }
}

#[test]
fn width_defaults_to_eighty() {
    assert_eq!(DEFAULT_WIDTH, 80);
    assert_eq!(resolve_width(None, None), Some(80));
    assert_eq!(resolve_width(None, Some(200)), Some(80));
    assert_eq!(table_width(None), Some(80));
}

#[test]
fn width_is_the_number_given() {
    assert_eq!(resolve_width(Some("40"), None), Some(40));
    assert_eq!(resolve_width(Some("132"), Some(200)), Some(132));
    assert_eq!(table_width(Some("40")), Some(40));
    assert_eq!(table_width(Some("0")), Some(0));
}

#[test]
fn full_width_is_the_terminal_or_eighty() {
    assert_eq!(resolve_width(Some("full"), Some(132)), Some(132));
    assert_eq!(resolve_width(Some("full"), None), Some(80));
    assert!(table_width(Some("full")).is_some());
}

#[test]
fn width_that_is_no_number_is_refused() {
    assert_eq!(resolve_width(Some("wide"), Some(132)), None);
    assert_eq!(resolve_width(Some("Full"), Some(132)), None);
    assert_eq!(table_width(Some("-3")), None);
}
