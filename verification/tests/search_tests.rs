use minigrep::config::Config;
use minigrep::run_search;
use minigrep::search;
use minigrep::search_insensitive;
use minigrep::text::contains_substr;
use minigrep::text::split_lines;

const POEM: &str = "Rust:\nsafe, fast, productive.\nPick three.";

#[test]
fn finds_exact_substring() {
    assert_eq!(search(POEM, "duct"), vec!["safe, fast, productive."]);
}

#[test]
fn insensitive_finds_differently_cased() {
    assert_eq!(search_insensitive(POEM, "RuSt"), vec!["Rust:"]);
}

#[test]
fn sensitive_misses_differently_cased() {
    assert!(search(POEM, "RuSt").is_empty());
}

#[test]
fn insensitive_lowers_both_sides() {
    assert_eq!(search_insensitive("rust is here", "RUST"), vec!["rust is here"]);
    assert_eq!(search_insensitive("RUST IS HERE", "rust"), vec!["RUST IS HERE"]);
}

#[test]
fn empty_query_returns_every_line() {
    assert_eq!(search("a\nb\nc", ""), vec!["a", "b", "c"]);
    assert_eq!(search_insensitive("a\nb\nc", ""), vec!["a", "b", "c"]);
    assert_eq!(search("a\nb\n", ""), vec!["a", "b"]);
    assert_eq!(search_insensitive("a\nb\n", ""), vec!["a", "b"]);
}

#[test]
fn empty_document_returns_nothing() {
    assert!(search("", "x").is_empty());
    assert!(search_insensitive("", "x").is_empty());
    assert!(search("", "").is_empty());
    assert!(search_insensitive("", "").is_empty());
}

#[test]
fn keeps_order_and_duplicates() {
    assert_eq!(search("x\ny\nx", "x"), vec!["x", "x"]);
    assert_eq!(search("one match\nno hit\nanother match", "match"), vec![
        "one match",
        "another match",
    ]);
}

#[test]
fn matches_non_ascii_queries() {
    assert_eq!(search_insensitive("Grüße\nhello", "grÜße"), vec!["Grüße"]);
    assert!(search_insensitive("Grüße\nhello", "GRÜSSE").is_empty());
}

#[test]
fn final_sigma_breaks_the_superset() {
    // Unicode lowercasing is context-sensitive: a word-final capital sigma
    // lowers to a different character than a lone one, so this line is a
    // case-sensitive hit but not a case-insensitive one.
    assert_eq!(search("ΑΣ", "Σ"), vec!["ΑΣ"]);
    assert!(search_insensitive("ΑΣ", "Σ").is_empty());
}

#[test]
fn splits_on_newlines_only() {
    assert!(split_lines("").is_empty());
    assert_eq!(split_lines("\n"), vec![""]);
    assert_eq!(split_lines("a\nb\n"), vec!["a", "b"]);
    assert_eq!(split_lines("a\n\nb"), vec!["a", "", "b"]);
    assert_eq!(split_lines("a\r\nb"), vec!["a\r", "b"]);
}

#[test]
fn substring_test_handles_edges() {
    assert!(contains_substr("hello", "ell"));
    assert!(!contains_substr("hello", "xyz"));
    assert!(contains_substr("abc", ""));
    assert!(contains_substr("", ""));
    assert!(!contains_substr("", "a"));
    assert!(contains_substr("héllo", "él"));
    assert!(!contains_substr("ab", "abc"));
}

#[test]
fn config_rejects_too_few_arguments() {
    let none: Vec<String> = vec!["prog".to_string()];
    let one: Vec<String> = vec!["prog".to_string(), "query".to_string()];
    assert_eq!(Config::new(&none, false).err(), Some("not enough arguments"));
    assert_eq!(Config::new(&one, false).err(), Some("not enough arguments"));
}

#[test]
fn config_takes_query_and_filename() {
    let args: Vec<String> = vec![
        "prog".to_string(),
        "needle".to_string(),
        "haystack.txt".to_string(),
    ];
    let config = Config::new(&args, false).unwrap();
    assert_eq!(config.query, "needle");
    assert_eq!(config.filename, "haystack.txt");
    assert!(config.case_sensitive);
}

#[test]
fn config_ignores_extra_arguments() {
    let args: Vec<String> = vec![
        "prog".to_string(),
        "q".to_string(),
        "f".to_string(),
        "extra".to_string(),
        "more".to_string(),
    ];
    let config = Config::new(&args, false).unwrap();
    assert_eq!(config.query, "q");
    assert_eq!(config.filename, "f");
}

#[test]
fn config_reads_insensitivity_switch() {
    let args: Vec<String> = vec!["prog".to_string(), "q".to_string(), "f".to_string()];
    assert!(Config::new(&args, false).unwrap().case_sensitive);
    assert!(!Config::new(&args, true).unwrap().case_sensitive);
}

#[test]
fn run_search_follows_the_mode() {
    let args: Vec<String> = vec!["prog".to_string(), "RuSt".to_string(), "f".to_string()];
    let sensitive = Config::new(&args, false).unwrap();
    let insensitive = Config::new(&args, true).unwrap();
    assert!(run_search(POEM, &sensitive).is_empty());
    assert_eq!(run_search(POEM, &insensitive), vec!["Rust:"]);
}
