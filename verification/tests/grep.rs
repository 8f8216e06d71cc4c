use multirust::grep_tool::{search, search_case_insensitive, Config};

#[test]
fn search_one_result() {
    let query = "duct";
    let contents = "Rust:\nsafe, fast, productive.\nPick three.";
    assert_eq!(search(query, contents), vec!["safe, fast, productive."]);
}

#[test]
fn search_is_case_sensitive() {
    let query = "Rust";
    let contents = "Rust:\ntrust me.";
    assert_eq!(search(query, contents), vec!["Rust:"]);
}

#[test]
fn search_no_match() {
    let query = "monomorphization";
    let contents = "Rust:\nsafe, fast, productive.";
    let expected: Vec<&str> = vec![];
    assert_eq!(search(query, contents), expected);
}

#[test]
fn search_case_insensitive_folds_both_sides() {
    let query = "rUsT";
    let contents = "Rust:\nsafe, fast, productive.\nPick three.\nTrust me.";
    assert_eq!(
        search_case_insensitive(query, contents),
        vec!["Rust:", "Trust me."]
    );
}

#[test]
fn search_handles_crlf_lines() {
    let query = "b";
    let contents = "ab\r\ncd\r\nbe";
    assert_eq!(search(query, contents), vec!["ab", "be"]);
}

#[test]
fn grep_config_fields() {
    let query = String::from("needle");
    let filename = String::from("hay.txt");
    let config = Config {
        query: &query,
        filename: &filename,
        case_sensitive: true,
    };
    assert_eq!(config.query, "needle");
    assert_eq!(config.filename, "hay.txt");
    assert!(config.case_sensitive);
}
