use minigrep::{run, Config, ConfigError, RunError};

fn tokens(words: &[&str]) -> Vec<String> {
    words.iter().map(|w| w.to_string()).collect()
}

#[test]
fn missing_query_is_reported() {
    assert_eq!(
        Err(ConfigError::MissingQuery),
        Config::new(tokens(&["prog"]), false).map(|c| c.query)
    );
    assert_eq!(
        Err(ConfigError::MissingQuery),
        Config::new(tokens(&[]), false).map(|c| c.query)
    );
}

#[test]
fn missing_filename_is_reported() {
    assert_eq!(
        Err(ConfigError::MissingFilename),
        Config::new(tokens(&["prog", "query"]), false).map(|c| c.query)
    );
}

#[test]
fn three_tokens_resolve() {
    let config = Config::new(tokens(&["prog", "needle", "notes.txt"]), false).unwrap();
    assert_eq!("needle", config.query);
    assert_eq!("notes.txt", config.filename);
    assert!(config.case_sensitive);
}

#[test]
fn extra_tokens_are_ignored() {
    let config =
        Config::new(tokens(&["prog", "needle", "notes.txt", "extra", "more"]), false).unwrap();
    assert_eq!("needle", config.query);
    assert_eq!("notes.txt", config.filename);
}

#[test]
fn environment_probe_disables_case_sensitivity() {
    // The probe's result stands for CASE_INSENSITIVE being set, to any value.
    let config = Config::new(tokens(&["prog", "needle", "notes.txt"]), true).unwrap();
    assert!(!config.case_sensitive);
}

#[test]
fn run_dispatches_on_case_sensitivity() {
    let contents = "Rust:\nsafe, fast, productive.\nPick three.\nTrust me.";
    let sensitive = Config::new(tokens(&["prog", "rUsT", "notes.txt"]), false).unwrap();
    assert_eq!(Vec::<String>::new(), run(&sensitive, contents));
    let insensitive = Config::new(tokens(&["prog", "rUsT", "notes.txt"]), true).unwrap();
    assert_eq!(
        vec!["Rust:".to_string(), "Trust me.".to_string()],
        run(&insensitive, contents)
    );
}

#[test]
fn error_messages() {
    assert_eq!("Didn't get a query string", ConfigError::MissingQuery.message());
    assert_eq!("Didn't get a file name", ConfigError::MissingFilename.message());
    assert_eq!("could not read the file", RunError::Io.message());
}
