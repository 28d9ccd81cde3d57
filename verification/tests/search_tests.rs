use minigrep::{search, search_case_insensitive, split_lines};

#[test]
fn one_result() {
    let query = "duct";
    let contents = "\
Rust:
safe, fast, productive.
Pick three.";

    assert_eq!(vec!["safe, fast, productive.".to_string()], search(query, contents));
}

#[test]
fn case_insensitive() {
    let query = "rUsT";
    let contents = "\
Rust:
safe, fast, productive.
Pick three.
Trust me.";

    assert_eq!(
        vec!["Rust:".to_string(), "Trust me.".to_string()],
        search_case_insensitive(query, contents)
    );
}

#[test]
fn empty_query_matches_every_line() {
    let contents = "one\ntwo\nthree";
    assert_eq!(
        vec!["one".to_string(), "two".to_string(), "three".to_string()],
        search("", contents)
    );
    assert_eq!(
        vec!["one".to_string(), "two".to_string(), "three".to_string()],
        search_case_insensitive("", contents)
    );
}

#[test]
fn empty_contents_yield_no_lines() {
    assert_eq!(Vec::<String>::new(), search("query", ""));
    assert_eq!(Vec::<String>::new(), search_case_insensitive("query", ""));
    assert_eq!(Vec::<String>::new(), search("", ""));
}

#[test]
fn search_is_case_sensitive() {
    let contents = "Rust:\nTrust me.";
    assert_eq!(Vec::<String>::new(), search("rUsT", contents));
    assert_eq!(vec!["Rust:".to_string()], search("Rust", contents));
}

#[test]
fn matchers_are_idempotent() {
    let query = "rUsT";
    let contents = "Rust:\nsafe, fast, productive.\nPick three.\nTrust me.";
    assert_eq!(search(query, contents), search(query, contents));
    assert_eq!(
        search_case_insensitive(query, contents),
        search_case_insensitive(query, contents)
    );
}

#[test]
fn folding_is_applied_to_both_sides() {
    // A lowercase line matched against an uppercase query: only real
    // lowercase folding, applied to the query as well, finds it.
    assert_eq!(
        vec!["rust is great".to_string()],
        search_case_insensitive("RUST", "rust is great")
    );
    // And the returned line keeps its original casing.
    assert_eq!(
        vec!["RuSt Is GrEaT".to_string()],
        search_case_insensitive("rust", "RuSt Is GrEaT")
    );
}

#[test]
fn split_lines_follows_line_breaks() {
    assert_eq!(
        vec!["a".to_string(), "b".to_string()],
        split_lines("a\nb")
    );
    // A trailing newline closes the last line without opening an empty one.
    assert_eq!(
        vec!["a".to_string(), "b".to_string()],
        split_lines("a\nb\n")
    );
    // A carriage return before a newline belongs to the break, not the line.
    assert_eq!(
        vec!["a".to_string(), "b".to_string()],
        split_lines("a\r\nb")
    );
    // A carriage return without a newline stays in the line.
    assert_eq!(vec!["a\r".to_string()], split_lines("a\r"));
    // An empty line between two breaks is kept.
    assert_eq!(
        vec!["a".to_string(), "".to_string(), "b".to_string()],
        split_lines("a\n\nb")
    );
    assert_eq!(Vec::<String>::new(), split_lines(""));
}
