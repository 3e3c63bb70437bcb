use minigrep::Config;

#[test]
fn build_with_both_arguments() {
    match Config::build(
        Some("needle".to_string()),
        Some("haystack.txt".to_string()),
        true,
    ) {
        Ok(config) => {
            assert_eq!(config.query, "needle");
            assert_eq!(config.file_path, "haystack.txt");
            assert!(config.ignore_case);
        },
        Err(_) => panic!("two given arguments must be accepted"),
    }
}

#[test]
fn build_without_query() {
    match Config::build(None, Some("haystack.txt".to_string()), false) {
        Ok(_) => panic!("a missing query must be rejected"),
        Err(err) => assert_eq!(err, "Didn't get a query string"),
    }
}

#[test]
fn build_without_file_path() {
    match Config::build(Some("needle".to_string()), None, false) {
        Ok(_) => panic!("a missing file path must be rejected"),
        Err(err) => assert_eq!(err, "Didn't get a file path"),
    }
}
