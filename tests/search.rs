use snapgrep::lines::split_lines;
use snapgrep::matching::line_contains;
use snapgrep::{search, search_any_case};

#[test]
fn search_case_sensitive() {
    let query = "duct";
    let contents = "\
Rust: 
safe, fast, productive.
Pick three.
Duct tape.";
    assert_eq!(vec!["safe, fast, productive."], search(query, contents));
}

#[test]
fn any_case() {
    let query = "rUsT";
    let contents = "\
Rust: 
safe, fast, productive.
Pick three.
Trust me.";
    assert_eq!(vec!["Rust: ", "Trust me."], search_any_case(query, contents));
}

#[test]
fn search_scenario_without_trailing_space() {
    let contents = "Rust:\nsafe, fast, productive.\nPick three.\nDuct tape.";
    assert_eq!(vec!["safe, fast, productive."], search("duct", contents));
}

#[test]
fn any_case_scenario_without_trailing_space() {
    let contents = "Rust:\nsafe, fast, productive.\nPick three.\nTrust me.";
    assert_eq!(vec!["Rust:", "Trust me."], search_any_case("rUsT", contents));
}

#[test]
fn split_empty_content_has_no_lines() {
    assert!(split_lines("").is_empty());
}

#[test]
fn split_drops_final_terminator() {
    assert_eq!(vec!["a", "b"], split_lines("a\nb\n"));
    assert_eq!(vec![""], split_lines("\n"));
}

#[test]
fn split_keeps_inner_empty_lines() {
    assert_eq!(vec!["a", "", "b"], split_lines("a\n\nb"));
}

#[test]
fn split_strips_carriage_return_before_line_feed() {
    assert_eq!(vec!["a", "b"], split_lines("a\r\nb\r\n"));
    assert_eq!(vec!["a\r"], split_lines("a\r"));
    assert_eq!(vec!["x\ry"], split_lines("x\ry"));
}

#[test]
fn split_multibyte_lines() {
    assert_eq!(vec!["héllo", "wörld ✓"], split_lines("héllo\nwörld ✓"));
}

#[test]
fn contains_exact_values() {
    assert!(line_contains("hello", "ell"));
    assert!(line_contains("hello", "hello"));
    assert!(!line_contains("hello", "Ell"));
    assert!(!line_contains("he", "hello"));
    assert!(line_contains("héllo", "é"));
    assert!(!line_contains("", "a"));
}

#[test]
fn contains_empty_query() {
    assert!(line_contains("", ""));
    assert!(line_contains("abc", ""));
}

#[test]
fn search_only_containing_lines_in_order() {
    let contents = "one\ntwo\nthree\ntwenty";
    assert_eq!(vec!["two", "twenty"], search("tw", contents));
}

#[test]
fn search_keeps_equal_lines() {
    assert_eq!(vec!["a", "a"], search("a", "a\nb\na"));
}

#[test]
fn search_empty_query_returns_every_line() {
    let contents = "x\n\nY z\n";
    assert_eq!(vec!["x", "", "Y z"], search("", contents));
    assert_eq!(vec!["x", "", "Y z"], search_any_case("", contents));
}

#[test]
fn search_empty_content_returns_nothing() {
    assert!(search("a", "").is_empty());
    assert!(search_any_case("a", "").is_empty());
}

#[test]
fn search_no_match_returns_nothing() {
    assert!(search("zzz", "abc\ndef").is_empty());
    assert!(search_any_case("ZZZ", "abc\ndef").is_empty());
}

#[test]
fn search_twice_gives_equal_results() {
    let contents = "Alpha\nbeta\nALPHABET\n";
    assert_eq!(search("ALPHA", contents), search("ALPHA", contents));
    assert_eq!(
        search_any_case("alpha", contents),
        search_any_case("alpha", contents)
    );
}

#[test]
fn any_case_lowercases_lines_and_query() {
    let contents = "RUST\nrust\nRuSt\nrest";
    assert_eq!(vec!["RUST", "rust", "RuSt"], search_any_case("rust", contents));
    assert_eq!(vec!["RUST", "rust", "RuSt"], search_any_case("RUST", contents));
    assert_eq!(vec!["RUST"], search("RUST", contents));
}

#[test]
fn any_case_non_ascii_letters() {
    let contents = "ÉCOLE\nécole\nEcole";
    assert_eq!(vec!["ÉCOLE", "école"], search_any_case("École", contents));
    assert_eq!(vec!["école"], search("école", contents));
}

#[test]
fn search_lines_with_carriage_returns() {
    assert_eq!(vec!["ab", "b"], search("b", "ab\r\nb\r\nc"));
}
