use dexopt_analyzer::dexopt::{
    is_header_line, Analyzer, DexOptInfo, DumpParser, DumpPatterns, PatternError, ARCH_PATTERN,
    STATUS_PATTERN, UNKNOWN_STATUS,
};

fn parse(dump: &str) -> Analyzer {
    match Analyzer::new(dump) {
        Ok(a) => a,
        Err(e) => panic!("{}", e.message()),
    }
}

fn statuses(a: &Analyzer, pkg: &str) -> Option<Vec<String>> {
    a.get_info(pkg).map(|list| list.iter().map(|i| i.status.clone()).collect())
}

fn raw_lines(a: &Analyzer, pkg: &str) -> Option<Vec<String>> {
    a.get_info(pkg).map(|list| list.iter().map(|i| i.raw_line.clone()).collect())
}

fn chars(s: &str) -> Vec<char> {
    s.chars().collect()
}

#[test]
fn dump_of_two_packages() {
    let a = parse("[com.a]\n  arm64: status=speed-profile\n[com.b]\n  arm: filter=verify\n");
    assert_eq!(statuses(&a, "com.a"), Some(vec!["speed-profile".to_string()]));
    assert_eq!(statuses(&a, "com.b"), Some(vec!["verify".to_string()]));
    assert_eq!(raw_lines(&a, "com.a"), Some(vec!["arm64: status=speed-profile".to_string()]));
    assert_eq!(raw_lines(&a, "com.b"), Some(vec!["arm: filter=verify".to_string()]));
    assert!(a.get_info("com.c").is_none());
}

#[test]
fn header_with_a_space_opens_no_block() {
    let a = parse("[not a package]\n  arm64: status=speed\n");
    assert!(a.get_info("not a package").is_none());
    assert!(a.get_info("").is_none());
    assert!(a.get_info("[not a package]").is_none());
}

#[test]
fn header_with_a_separator_opens_no_block() {
    let a = parse("[com.a]\n[status=speed]\narm64: [status=verify]\n");
    assert!(a.get_info("status=speed").is_none());
    assert_eq!(statuses(&a, "com.a"), Some(vec!["verify".to_string()]));
}

#[test]
fn records_before_the_first_header_are_dropped() {
    let a = parse("arm64: status=speed\n[com.a]\narm: status=verify\n");
    assert_eq!(statuses(&a, "com.a"), Some(vec!["verify".to_string()]));
    assert!(a.get_info("").is_none());
}

#[test]
fn header_without_records_gives_no_key() {
    let a = parse("[com.a]\n  path: /data/app/a\n[com.b]\n  arm64: status=speed\n");
    assert!(a.get_info("com.a").is_none());
    assert_eq!(statuses(&a, "com.b"), Some(vec!["speed".to_string()]));
}

#[test]
fn records_keep_the_order_of_their_lines() {
    let a = parse(
        "[com.a]\n arm64: status=one\n other line\n arm: status=two\n\n arm64: status=three\n",
    );
    assert_eq!(
        statuses(&a, "com.a"),
        Some(vec!["one".to_string(), "two".to_string(), "three".to_string()])
    );
    assert_eq!(
        raw_lines(&a, "com.a"),
        Some(vec![
            "arm64: status=one".to_string(),
            "arm: status=two".to_string(),
            "arm64: status=three".to_string()
        ])
    );
}

#[test]
fn blocks_of_one_package_merge_in_order() {
    let a = parse(
        "[com.a]\narm64: status=first\n[com.b]\narm64: status=other\n[com.a]\narm: status=second\n",
    );
    assert_eq!(statuses(&a, "com.a"), Some(vec!["first".to_string(), "second".to_string()]));
    assert_eq!(statuses(&a, "com.b"), Some(vec!["other".to_string()]));
}

#[test]
fn record_without_a_token_is_unknown() {
    let a = parse("[com.a]\narm64: compiled\narm: status=\narm64: status=]\narm: mystatus=x\n");
    assert_eq!(
        statuses(&a, "com.a"),
        Some(vec![
            "unknown".to_string(),
            "unknown".to_string(),
            "unknown".to_string(),
            "unknown".to_string()
        ])
    );
}

#[test]
fn token_ends_at_whitespace_or_bracket() {
    let a = parse(
        "[com.a]\n\
         arm64: [status=speed-profile] [reason=bg-dexopt]\n\
         arm: [filter=verify][status=quicken]\n\
         arm64: status=run-from-apk next\n\
         arm: status=everything\u{3000}wide\n\
         arm64: nostatus=a filter=b\n",
    );
    assert_eq!(
        statuses(&a, "com.a"),
        Some(vec![
            "speed-profile".to_string(),
            "verify".to_string(),
            "run-from-apk".to_string(),
            "everything".to_string(),
            "b".to_string()
        ])
    );
}

#[test]
fn raw_line_is_the_trimmed_line() {
    let a = parse("[com.a]\r\n    arm64: [status=speed] [reason=install]   \r\n");
    assert_eq!(
        raw_lines(&a, "com.a"),
        Some(vec!["arm64: [status=speed] [reason=install]".to_string()])
    );
    assert_eq!(statuses(&a, "com.a"), Some(vec!["speed".to_string()]));
}

#[test]
fn marker_may_stand_anywhere_in_the_line() {
    let a = parse("[com.a]\npath: /x arm: status=a\nfooarm64:bar\narm 64: status=b\narm64 : c\n");
    assert_eq!(statuses(&a, "com.a"), Some(vec!["a".to_string(), "unknown".to_string()]));
}

#[test]
fn empty_brackets_name_the_empty_package() {
    let a = parse("[]\narm: status=x\n");
    assert_eq!(statuses(&a, ""), Some(vec!["x".to_string()]));
}

#[test]
fn empty_dump_has_no_records() {
    let a = parse("");
    assert!(a.get_info("com.a").is_none());
    let a = parse("\n\n   \n");
    assert!(a.get_info("").is_none());
}

#[test]
fn header_line_test() {
    assert!(is_header_line(&chars("[com.a]")));
    assert!(is_header_line(&chars("[]")));
    assert!(!is_header_line(&chars("[")));
    assert!(!is_header_line(&chars("]")));
    assert!(!is_header_line(&chars("")));
    assert!(!is_header_line(&chars("[com a]")));
    assert!(!is_header_line(&chars("[a=b]")));
    assert!(!is_header_line(&chars("com.a]")));
    assert!(!is_header_line(&chars("[com.a")));
    assert!(is_header_line(&chars("[a][b]")));
}

#[test]
fn info_from_a_search_result() {
    let info = DexOptInfo::new("arm64: status=speed".to_string(), Some("speed".to_string()));
    assert_eq!(info.raw_line, "arm64: status=speed");
    assert_eq!(info.status, "speed");
    let info = DexOptInfo::new("arm64: nothing".to_string(), None);
    assert_eq!(info.raw_line, "arm64: nothing");
    assert_eq!(info.status, "unknown");
    assert_eq!(UNKNOWN_STATUS, "unknown");
}

#[test]
fn append_adds_behind_the_records_of_a_package() {
    let mut a = Analyzer::empty();
    assert!(a.get_info("com.a").is_none());
    a.append("com.a", DexOptInfo::new("l1".to_string(), Some("s1".to_string())));
    a.append("com.b", DexOptInfo::new("l2".to_string(), None));
    a.append("com.a", DexOptInfo::new("l3".to_string(), Some("s3".to_string())));
    assert_eq!(statuses(&a, "com.a"), Some(vec!["s1".to_string(), "s3".to_string()]));
    assert_eq!(raw_lines(&a, "com.a"), Some(vec!["l1".to_string(), "l3".to_string()]));
    assert_eq!(statuses(&a, "com.b"), Some(vec!["unknown".to_string()]));
    assert!(a.get_info("com.c").is_none());
}

#[test]
fn patterns_compile() {
    assert!(DumpPatterns::compile().is_ok());
    assert_eq!(ARCH_PATTERN, r"(arm64:|arm:)");
    assert_eq!(STATUS_PATTERN, r"\b(?:status|filter)=([^]\s]+)");
}

#[test]
fn with_patterns_reads_as_new_does() {
    let patterns = match DumpPatterns::compile() {
        Ok(p) => p,
        Err(e) => panic!("{}", e.message()),
    };
    let dump = "[com.a]\narm64: status=speed\n[com.b]\narm: filter=verify\n";
    let a = Analyzer::with_patterns(dump, &patterns);
    let b = Analyzer::with_patterns("[com.b]\narm: x\n", &patterns);
    assert_eq!(statuses(&a, "com.a"), Some(vec!["speed".to_string()]));
    assert_eq!(statuses(&a, "com.b"), Some(vec!["verify".to_string()]));
    assert_eq!(statuses(&b, "com.b"), Some(vec!["unknown".to_string()]));
}

#[test]
fn pattern_errors_in_words() {
    assert_eq!(PatternError::ArchMarker.message(), "Invalid regex for status");
    assert_eq!(PatternError::StatusToken.message(), "Invalid regex for filter extraction");
}

#[test]
fn large_dump_is_read_in_full() {
    let mut dump = String::new();
    for i in 0..2000 {
        dump.push_str(&format!("[com.example.app{}]\n", i));
        dump.push_str("  path: /data/app/x/base.apk\n");
        dump.push_str("    arm64: [status=speed-profile] [reason=bg-dexopt]\n");
        dump.push_str("    arm: [status=verify] [reason=install]\n");
    }
    let a = parse(&dump);
    for i in [0, 1, 999, 1999] {
        let name = format!("com.example.app{}", i);
        assert_eq!(
            statuses(&a, &name),
            Some(vec!["speed-profile".to_string(), "verify".to_string()])
        );
    }
    assert!(a.get_info("com.example.app2000").is_none());
}

#[test]
fn parser_steps_on_given_search_results() {
    let mut p = DumpParser::new();
    assert!(!p.needs_search(&chars("arm64: status=speed")));
    p.feed(&chars("arm64: status=speed"), true, Some("speed".to_string()));
    p.feed(&chars("[com.a]"), false, None);
    assert!(p.needs_search(&chars("arm64: status=speed")));
    assert!(!p.needs_search(&chars("")));
    assert!(!p.needs_search(&chars("[com.b]")));
    assert!(p.needs_search(&chars("[com b]")));
    p.feed(&chars("arm64: status=speed"), true, Some("speed".to_string()));
    p.feed(&chars("path: /data/app"), false, None);
    p.feed(&chars("path: /data/app"), false, Some("ignored".to_string()));
    p.feed(&chars(""), true, Some("blank".to_string()));
    p.feed(&chars("arm: compiled"), true, None);
    p.feed(&chars("[com.b]"), true, Some("header".to_string()));
    p.feed(&chars("[com b]"), true, Some("verify".to_string()));
    p.feed(&chars("[com.a]"), false, None);
    p.feed(&chars("arm: filter=quicken"), true, Some("quicken".to_string()));
    let a = p.finish();
    assert_eq!(
        statuses(&a, "com.a"),
        Some(vec!["speed".to_string(), "unknown".to_string(), "quicken".to_string()])
    );
    assert_eq!(
        raw_lines(&a, "com.a"),
        Some(vec![
            "arm64: status=speed".to_string(),
            "arm: compiled".to_string(),
            "arm: filter=quicken".to_string()
        ])
    );
    assert_eq!(statuses(&a, "com.b"), Some(vec!["verify".to_string()]));
    assert_eq!(raw_lines(&a, "com.b"), Some(vec!["[com b]".to_string()]));
    assert!(a.get_info("").is_none());
    assert!(a.get_info("com b").is_none());
}

#[test]
fn parser_without_lines_has_no_records() {
    let a = DumpParser::new().finish();
    assert!(a.get_info("com.a").is_none());
    assert!(a.get_info("").is_none());
}
