use flcommon::text::{csv, parse_args, str_equal, str_less};

#[test]
fn csv_splits_trims_and_drops_empty() {
    assert_eq!(csv("random,resource_only,policy_resource"), vec!["random", "resource_only", "policy_resource"]);
    assert_eq!(csv(" n2 , n6,,"), vec!["n2", "n6"]);
    assert_eq!(csv(""), Vec::<String>::new());
    assert_eq!(csv(" , \t,"), Vec::<String>::new());
    assert_eq!(csv("UG"), vec!["UG"]);
    // Unicode white space is trimmed like str::trim does
    assert_eq!(csv("\u{3000}ug-central\u{a0}"), vec!["ug-central"]);
    assert_eq!(csv("a b , c"), vec!["a b", "c"]);
}

#[test]
fn parse_args_pairs_in_order() {
    let a: Vec<String> = ["--label", "sim", "stray", "--reps", "3", "--last"].iter().map(|s| s.to_string()).collect();
    let got = parse_args(&a);
    assert_eq!(got, vec![("label".to_string(), "sim".to_string()), ("reps".to_string(), "3".to_string())]);
    let b: Vec<String> = ["--k", "--v"].iter().map(|s| s.to_string()).collect();
    assert_eq!(parse_args(&b), vec![("k".to_string(), "--v".to_string())]);
    let c: Vec<String> = ["-x", "1", "--"].iter().map(|s| s.to_string()).collect();
    assert_eq!(parse_args(&c), Vec::<(String, String)>::new());
}

#[test]
fn string_equality_and_order() {
    assert!(str_equal("n1", "n1"));
    assert!(!str_equal("n1", "n10"));
    assert!(str_less("a", "b"));
    assert!(str_less("n1", "n10"));
    assert!(!str_less("n10", "n1"));
    assert!(!str_less("x", "x"));
    assert!(str_less("Z", "a"));
    assert!(str_less("z", "\u{e9}"));
}
