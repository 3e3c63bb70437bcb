use minigrep::knuth_morris_pratt;
use minigrep::search;
use minigrep::search_case_insensitive;

#[test]
fn case_sensitive() {
    let query = "duct";
    let contents = "\
Rust:
safe, fast, productive.
Pick three.";
    assert_eq!(vec!["safe, fast, productive.".to_string()], search(query, contents));
}

#[test]
fn case_insensitive() {
    let query = "rUsT";
    let contents = "\
Rust:
safe, fast, productive.
Pick three.";
    assert_eq!(vec!["Rust:".to_string()], search_case_insensitive(query, contents));
}

#[test]
fn case_knuth_morris_pratt() {
    let st = "abababc".to_string();
    let patten = "abc".to_string();
    let res = knuth_morris_pratt(st, patten);
    assert_eq!(res, vec![4]);
}

#[test]
fn case_knuth_morris_pratt2() {
    let index = knuth_morris_pratt("abababa".to_string(), "ab".to_string());
    assert_eq!(index, vec![0, 2, 4]);
}

#[test]
fn empty_pattern_never_found() {
    let res = knuth_morris_pratt("abc".to_string(), "".to_string());
    assert_eq!(res, Vec::<usize>::new());
}

#[test]
fn empty_text_has_no_occurrences() {
    let res = knuth_morris_pratt("".to_string(), "abc".to_string());
    assert_eq!(res, Vec::<usize>::new());
}

#[test]
fn overlapping_occurrences_are_all_reported() {
    let res = knuth_morris_pratt("aaaa".to_string(), "aa".to_string());
    assert_eq!(res, vec![0, 1, 2]);
}

#[test]
fn occurrence_at_every_reported_offset() {
    let text = "the theme of the day";
    let pattern = "the";
    let res = knuth_morris_pratt(text.to_string(), pattern.to_string());
    assert_eq!(res, vec![0, 4, 13]);
    for &offset in &res {
        assert_eq!(&text[offset..offset + pattern.len()], pattern);
    }
}

#[test]
fn search_keeps_line_order() {
    let found = search("a", "abc\nxyz\nbca");
    assert_eq!(found, vec!["abc".to_string(), "bca".to_string()]);
}

#[test]
fn line_with_several_occurrences_appears_once() {
    let found = search("a", "aa\nb");
    assert_eq!(found, vec!["aa".to_string()]);
}

#[test]
fn empty_query_matches_no_line() {
    let found = search("", "abc\ndef");
    assert_eq!(found, Vec::<String>::new());
}

#[test]
fn empty_contents_yield_no_lines() {
    let found = search("x", "");
    assert_eq!(found, Vec::<String>::new());
}

#[test]
fn trailing_newline_adds_no_empty_line() {
    let found = search("a", "a\n");
    assert_eq!(found, vec!["a".to_string()]);
}

#[test]
fn carriage_return_line_feed_ends_a_line() {
    let found = search("ab", "ab\r\ncd");
    assert_eq!(found, vec!["ab".to_string()]);
}

#[test]
fn lone_carriage_return_stays_in_the_line() {
    let found = search("c\rx", "c\rx");
    assert_eq!(found, vec!["c\rx".to_string()]);
}

#[test]
fn case_insensitive_agrees_with_lowercased_search() {
    let contents = "xAby\nnone\naBz";
    let insensitive = search_case_insensitive("AB", contents);
    assert_eq!(insensitive, vec!["xAby".to_string(), "aBz".to_string()]);
    let lowered_lines: Vec<String> =
        contents.lines().map(|l| l.to_lowercase()).collect();
    let lowered_contents = lowered_lines.join("\n");
    let sensitive = search("ab", &lowered_contents);
    assert_eq!(sensitive, vec!["xaby".to_string(), "abz".to_string()]);
    let insensitive_lowered: Vec<String> =
        insensitive.iter().map(|l| l.to_lowercase()).collect();
    assert_eq!(insensitive_lowered, sensitive);
}

#[test]
fn case_folding_handles_non_ascii_letters() {
    let found = search_case_insensitive("é", "CAFÉ\nplain");
    assert_eq!(found, vec!["CAFÉ".to_string()]);
}
