use rugst::text::{chars_of, escape_fts_query, escape_like, like_pattern, same_text, trim_chars};

#[test]
fn escape_fts_query_quotes_trimmed_phrase() {
    assert_eq!(escape_fts_query("  開催時間  "), "\"開催時間\"");
}

#[test]
fn escape_fts_query_doubles_inner_quotes() {
    assert_eq!(escape_fts_query("say \"hi\" OR x"), "\"say \"\"hi\"\" OR x\"");
}

#[test]
fn escape_fts_query_blank_is_empty() {
    assert_eq!(escape_fts_query(" \t\n\u{3000} "), "");
    assert_eq!(escape_fts_query(""), "");
}

#[test]
fn escape_like_escapes_wildcards_and_backslash() {
    assert_eq!(escape_like("50%_a\\b"), "50\\%\\_a\\\\b");
    assert_eq!(escape_like("plain"), "plain");
}

#[test]
fn like_pattern_wraps_in_percent() {
    assert_eq!(like_pattern("宇宙"), "%宇宙%");
    assert_eq!(like_pattern("a_"), "%a\\_%");
}

#[test]
fn escaping_keeps_different_inputs_apart() {
    assert_ne!(escape_like("a%"), escape_like("a\\%"));
    assert_ne!(escape_fts_query("a\"b"), escape_fts_query("a\"\"b"));
}

#[test]
fn same_text_compares_characters() {
    assert!(same_text("fact", "fact"));
    assert!(!same_text("fact", "facts"));
    assert!(!same_text("user", "fact"));
}

#[test]
fn trimming_twice_is_trimming_once() {
    let once = trim_chars(&chars_of("\u{3000} a b \t\n"));
    assert_eq!(once, vec!['a', ' ', 'b']);
    assert_eq!(trim_chars(&once), once);
    assert!(trim_chars(&chars_of("  \u{85}")).is_empty());
}

#[test]
fn fts_phrase_length_and_undoubling() {
    let q = "  a\"b\"\"c ";
    let t = q.trim();
    let p = escape_fts_query(q);
    let quotes = t.chars().filter(|c| *c == '"').count();
    assert_eq!(p.chars().count(), t.chars().count() + 2 + quotes);
    assert!(p.starts_with('"') && p.ends_with('"'));
    assert_eq!(p[1..p.len() - 1].replace("\"\"", "\""), t);
}
