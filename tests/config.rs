use snapgrep::{find_matches, Config, GrepError};

fn strings(items: &[&str]) -> Vec<String> {
    items.iter().map(|s| s.to_string()).collect()
}

#[test]
fn new_config() {
    let args = vec!["debug".to_owned(), "test".to_owned(), "poem.txt".to_owned()];
    let config = Config::new(&args, false).unwrap();
    assert_eq!(config.filename, "poem.txt");
    assert_eq!(config.query, "test");
}

#[test]
fn config_needs_three_arguments() {
    let r = Config::new(&strings(&["prog"]), false);
    assert!(matches!(r, Err(GrepError::InvalidArguments(_))));
    let r = Config::new(&strings(&["prog", "query"]), true);
    assert!(matches!(r, Err(GrepError::InvalidArguments(_))));
    let r = Config::new(&[], false);
    assert!(matches!(r, Err(GrepError::InvalidArguments(_))));
}

#[test]
fn config_error_names_the_arguments() {
    match Config::new(&strings(&["prog"]), false) {
        Err(GrepError::InvalidArguments(msg)) => assert!(msg.contains("Two arguments")),
        _ => panic!("expected an argument error"),
    }
}

#[test]
fn config_ignores_extra_arguments() {
    let config = Config::new(&strings(&["prog", "q", "f.txt", "extra"]), false).unwrap();
    assert_eq!(config.query, "q");
    assert_eq!(config.filename, "f.txt");
}

#[test]
fn any_case_flag_toggles_mode() {
    let args = strings(&["prog", "q", "f.txt"]);
    assert!(Config::new(&args, false).unwrap().case_sensitive);
    assert!(!Config::new(&args, true).unwrap().case_sensitive);
}

#[test]
fn find_matches_follows_mode() {
    let args = strings(&["prog", "rUsT", "poem.txt"]);
    let contents = "Rust:\nsafe, fast, productive.\nPick three.\nTrust me.";
    let exact = Config::new(&args, false).unwrap();
    assert!(find_matches(&exact, contents).is_empty());
    let loose = Config::new(&args, true).unwrap();
    assert_eq!(vec!["Rust:", "Trust me."], find_matches(&loose, contents));
}
