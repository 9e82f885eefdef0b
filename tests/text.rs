use gitlogs_registry::text::{contains_comma, is_listed, same_text, split_words, unused_token};

#[test]
fn split_words_on_single_spaces() {
    assert_eq!(split_words("push pull_request"), vec!["push".to_string(), "pull_request".to_string()]);
    assert_eq!(split_words("  push   star "), vec!["push".to_string(), "star".to_string()]);
    assert_eq!(split_words("release"), vec!["release".to_string()]);
    assert!(split_words("").is_empty());
    assert!(split_words("   ").is_empty());
}

#[test]
fn split_words_keeps_unicode() {
    assert_eq!(split_words("é ü"), vec!["é".to_string(), "ü".to_string()]);
}

#[test]
fn contains_comma_finds_commas() {
    assert!(contains_comma("a,b"));
    assert!(contains_comma(","));
    assert!(!contains_comma("a b"));
    assert!(!contains_comma(""));
}

#[test]
fn same_text_compares_characters() {
    assert!(same_text("abc", "abc"));
    assert!(!same_text("abc", "abd"));
    assert!(!same_text("abc", "ab"));
    assert!(same_text("", ""));
}

#[test]
fn unused_token_avoids_listed_ids() {
    let ids: Vec<String> = vec!["abc".to_string()];
    let t = unused_token(&ids, 32, 3);
    assert_eq!(t.chars().count(), 32);
    assert!(t.chars().all(|c| c.is_ascii_alphanumeric()));
    assert!(!is_listed(&ids, &t));
}

#[test]
fn unused_token_extends_when_every_draw_is_taken() {
    // every draw of length zero is the empty string, which is taken
    let ids: Vec<String> = vec!["".to_string(), "a".to_string(), "ab".to_string(), "bab".to_string()];
    let t = unused_token(&ids, 0, 2);
    assert_eq!(t.chars().count(), ids.len());
    assert!(!is_listed(&ids, &t));
    assert!(!ids.contains(&t));
}
