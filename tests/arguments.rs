use tiny_regex::cli::Arguments;

fn words(v: &[&str]) -> Vec<String> {
    v.iter().map(|s| s.to_string()).collect()
}

#[test]
fn pattern_and_files() {
    let a = Arguments::parse(&words(&["prog", "-E", "a+", "f1", "f2"])).unwrap();
    assert!(!a.recursive);
    assert_eq!(a.pattern, "a+");
    assert_eq!(a.files, vec!["f1".to_string(), "f2".to_string()]);
}

#[test]
fn recursive_flag_anywhere() {
    let a = Arguments::parse(&words(&["prog", "x", "-r", "-E", "dir"])).unwrap();
    assert!(a.recursive);
    assert_eq!(a.pattern, "x");
    assert_eq!(a.files, vec!["dir".to_string()]);
}

#[test]
fn missing_extended_flag() {
    let r = Arguments::parse(&words(&["prog", "a"]));
    assert_eq!(r.err(), Some("Expected '-E' flag".to_string()));
}

#[test]
fn missing_pattern() {
    let r = Arguments::parse(&words(&["prog", "-E"]));
    assert_eq!(r.err(), Some("Expected a pattern argument".to_string()));
}

#[test]
fn program_name_is_skipped() {
    let r = Arguments::parse(&words(&["-E"]));
    assert!(r.is_err());
}
