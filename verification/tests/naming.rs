use dedupe::invocation::target_dir;
use dedupe::name::{
    bucket_dir, hash_key, hashed_name, is_dot_file, is_eligible, renamed_name, HIDDEN_MARKER,
    SEPARATOR,
};

#[test]
fn markers() {
    assert_eq!(SEPARATOR, '-');
    assert_eq!(HIDDEN_MARKER, '.');
}

#[test]
fn dot_file_starts_with_a_dot() {
    assert!(is_dot_file(".secret"));
    assert!(is_dot_file("."));
    assert!(is_dot_file(".."));
    assert!(is_dot_file(".a-b"));
}

#[test]
fn other_names_are_no_dot_files() {
    assert!(!is_dot_file("a.txt"));
    assert!(!is_dot_file("secret."));
    assert!(!is_dot_file("-.x"));
    assert!(!is_dot_file(""));
    assert!(!is_dot_file("\u{e9}.txt"));
}

#[test]
fn eligible_is_a_visible_regular_file() {
    assert!(is_eligible("a.txt", true));
    assert!(!is_eligible("a.txt", false));
    assert!(!is_eligible(".secret", true));
    assert!(!is_eligible(".git", false));
}

#[test]
fn key_is_what_comes_before_the_first_separator() {
    assert_eq!(hash_key("aaf4c61d-a.txt"), Some("aaf4c61d".to_string()));
    assert_eq!(hash_key("aaf4c61d-my-file.txt"), Some("aaf4c61d".to_string()));
    assert_eq!(hash_key("a-b"), Some("a".to_string()));
    assert_eq!(hash_key("report-"), Some("report".to_string()));
}

#[test]
fn name_without_separator_has_no_key() {
    assert_eq!(hash_key("notes.txt"), None);
    assert_eq!(hash_key(""), None);
}

#[test]
fn name_that_starts_with_a_separator_has_the_empty_key() {
    assert_eq!(hash_key("-x"), Some(String::new()));
    assert_eq!(hash_key("-"), Some(String::new()));
}

#[test]
fn key_of_a_name_with_wide_characters() {
    assert_eq!(hash_key("\u{e9}t\u{e9}-2024.txt"), Some("\u{e9}t\u{e9}".to_string()));
    assert_eq!(hash_key("\u{65e5}\u{672c}\u{8a9e}"), None);
}

#[test]
fn renamed_name_joins_prefix_and_name() {
    assert_eq!(
        renamed_name("aaf4c61ddcc5e8a2dabede0f3b482cd9aea9434d", "a.txt"),
        "aaf4c61d-a.txt"
    );
    assert_eq!(
        renamed_name("58037c0078d5f54e15e638cc0dd882a570b13c50", "c.txt"),
        "58037c00-c.txt"
    );
}

#[test]
fn renamed_name_keeps_the_original_name_verbatim() {
    let hash = "2aae6c35c94fcfb415dbe95f408b9ce91ee846ed";
    assert_eq!(renamed_name(hash, "my-file.tar.gz"), "2aae6c35-my-file.tar.gz");
    assert_eq!(renamed_name(hash, "-x"), "2aae6c35--x");
    assert_eq!(renamed_name(hash, ""), "2aae6c35-");
    assert_eq!(renamed_name(hash, "na\u{ef}ve name.txt"), "2aae6c35-na\u{ef}ve name.txt");
}

#[test]
fn hashed_name_hashes_the_content() {
    assert_eq!(hashed_name(b"hello", "a.txt"), "aaf4c61d-a.txt");
    assert_eq!(hashed_name(b"hello", "b.txt"), "aaf4c61d-b.txt");
    assert_eq!(hashed_name(b"unique", "c.txt"), "58037c00-c.txt");
    assert_eq!(hashed_name(b"", "empty"), "da39a3ee-empty");
}

#[test]
fn key_of_a_hashed_name_is_the_hash_prefix() {
    for name in ["a.txt", "my-file", "-x", "", "\u{e9}"] {
        assert_eq!(hash_key(&hashed_name(b"hello", name)), Some("aaf4c61d".to_string()));
    }
}

#[test]
fn second_renaming_prefixes_again() {
    let once = hashed_name(b"hello", "a.txt");
    let twice = hashed_name(b"hello", &once);
    assert_eq!(twice, "aaf4c61d-aaf4c61d-a.txt");
    assert_ne!(twice, once);
    assert_eq!(hash_key(&twice), Some("aaf4c61d".to_string()));
}

#[test]
fn hashes_that_agree_on_the_prefix_give_the_same_key() {
    let a = renamed_name("0123abcd00000000000000000000000000000000", "a");
    let b = renamed_name("0123abcdffffffffffffffffffffffffffffffff", "b");
    assert_eq!(a, "0123abcd-a");
    assert_eq!(b, "0123abcd-b");
    assert_eq!(hash_key(&a), hash_key(&b));
}

#[test]
fn bucket_dir_is_under_the_target_directory() {
    assert_eq!(bucket_dir(".", "aaf4c61d"), "./aaf4c61d");
    assert_eq!(bucket_dir("/tmp/photos", "58037c00"), "/tmp/photos/58037c00");
    assert_eq!(bucket_dir("d", ""), "d/");
}

#[test]
fn target_dir_is_the_first_argument() {
    let args = vec!["dedupe".to_string(), "/tmp/photos".to_string()];
    assert_eq!(target_dir(&args), "/tmp/photos");
    let more = vec!["dedupe".to_string(), "a".to_string(), "b".to_string()];
    assert_eq!(target_dir(&more), "a");
}

#[test]
fn target_dir_defaults_to_the_current_directory() {
    assert_eq!(target_dir(&vec!["dedupe".to_string()]), ".");
    assert_eq!(target_dir(&Vec::new()), ".");
}
