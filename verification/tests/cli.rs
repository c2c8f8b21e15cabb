use gram_db::cli::{
    decide, get_flag_value, is_help_flag, matched_key, parse_entry, parse_query, query_pairs, Action, Entry,
};

fn strings(args: &[&str]) -> Vec<String> {
    args.iter().map(|a| a.to_string()).collect()
}

#[test]
fn help_flags() {
    assert!(is_help_flag("--help"));
    assert!(is_help_flag("-h"));
    assert!(!is_help_flag("help"));
    assert!(!is_help_flag(""));
}

#[test]
fn values_of_flags() {
    let args = strings(&["x", "-o", "out", "--output", "other"]);
    assert_eq!(get_flag_value(&args, &["-o", "--output"]), Some(Some("out")));
    assert_eq!(get_flag_value(&args, &["--output"]), Some(Some("other")));
    assert_eq!(get_flag_value(&args, &["other"]), Some(None));
    assert_eq!(get_flag_value(&args, &["-i"]), None);
    assert_eq!(get_flag_value(&[], &["-i"]), None);
}

#[test]
fn commands() {
    assert!(matches!(decide(&strings(&["p"])), Action::GeneralUsage { code: 1 }));
    assert!(matches!(decide(&strings(&["p", "-h"])), Action::GeneralUsage { code: 0 }));
    assert!(matches!(decide(&strings(&["p", "frob"])), Action::UnknownCommand));
    assert!(matches!(decide(&strings(&["p", "export"])), Action::ExportUsage { code: 1 }));
    assert!(matches!(decide(&strings(&["p", "export", "f", "-h"])), Action::ExportUsage { code: 0 }));
    assert!(matches!(decide(&strings(&["p", "export", "f"])), Action::ExportNeedsOutput));
    assert!(matches!(decide(&strings(&["p", "export", "f", "-o"])), Action::ExportNeedsOutput));
    match decide(&strings(&["p", "export", "f", "--output", "g"])) {
        Action::Export { gram, output } => assert_eq!((gram.as_str(), output.as_str()), ("f", "g")),
        _ => panic!("not an export"),
    }
    assert!(matches!(decide(&strings(&["p", "build"])), Action::BuildUsage { code: 1 }));
    assert!(matches!(decide(&strings(&["p", "build", "--help"])), Action::BuildUsage { code: 0 }));
    assert!(matches!(decide(&strings(&["p", "build", "f", "-i"])), Action::BuildNeedsInput));
    match decide(&strings(&["p", "build", "f", "-i", "g"])) {
        Action::Build { output, input } => {
            assert_eq!(output, "f");
            assert_eq!(input, Some("g".to_string()));
        }
        _ => panic!("not a build"),
    }
    match decide(&strings(&["p", "build", "f"])) {
        Action::Build { output, input } => {
            assert_eq!(output, "f");
            assert_eq!(input, None);
        }
        _ => panic!("not a build"),
    }
    assert!(matches!(decide(&strings(&["p", "query"])), Action::QueryUsage { code: 1 }));
    assert!(matches!(decide(&strings(&["p", "query", "-h"])), Action::QueryUsage { code: 0 }));
    match decide(&strings(&["p", "query", "f", "a", "b"])) {
        Action::Query { gram, keys } => {
            assert_eq!(gram, "f");
            assert_eq!(keys, strings(&["a", "b"]));
        }
        _ => panic!("not a query"),
    }
}

#[test]
fn lines_of_a_build() {
    assert!(matches!(parse_entry(""), Entry::Blank));
    assert!(matches!(parse_entry("# x\t1"), Entry::Blank));
    assert!(matches!(parse_entry("word 1"), Entry::Invalid));
    match parse_entry("中文\tx\t1.5") {
        Entry::Pair { key, value } => assert_eq!((key.as_str(), value.as_str()), ("中文", "1.5")),
        _ => panic!("not an entry"),
    }
    match parse_entry("\t") {
        Entry::Pair { key, value } => assert_eq!((key.as_str(), value.as_str()), ("", "")),
        _ => panic!("not an entry"),
    }
}

#[test]
fn lines_of_a_query() {
    assert_eq!(parse_query(""), None);
    assert_eq!(parse_query("#"), None);
    assert_eq!(parse_query("word"), Some(("".to_string(), "word".to_string())));
    assert_eq!(parse_query("上\t文\tx"), Some(("上".to_string(), "文\tx".to_string())));
}

#[test]
fn keys_of_a_query() {
    let pair = |a: &str, b: &str| (a.to_string(), b.to_string());
    assert_eq!(query_pairs(&strings(&[])), vec![]);
    assert_eq!(query_pairs(&strings(&["a"])), vec![pair("", "a")]);
    assert_eq!(query_pairs(&strings(&["a", "b"])), vec![pair("a", "b")]);
    assert_eq!(query_pairs(&strings(&["a", "b", "c"])), vec![pair("a", "b"), pair("", "c")]);
}

#[test]
fn keys_that_were_found() {
    assert_eq!(matched_key("中", "文字", 2), "中文");
    assert_eq!(matched_key("a", "bc", 2), "abc");
    assert_eq!(matched_key("a", "bc", 0), "a");
}
