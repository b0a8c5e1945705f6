use patch_stream::text::{chars_of, decimal_text, eq_ignore_ascii_case, split_once};

#[test]
fn decimals() {
    assert_eq!(decimal_text(0), "0");
    assert_eq!(decimal_text(9), "9");
    assert_eq!(decimal_text(10), "10");
    assert_eq!(decimal_text(1234567890), "1234567890");
    assert_eq!(decimal_text(u64::MAX), "18446744073709551615");
    for n in 0..1200u64 {
        assert_eq!(decimal_text(n), n.to_string());
    }
}

#[test]
fn characters() {
    assert_eq!(chars_of(""), Vec::<char>::new());
    assert_eq!(chars_of("aé€😀"), vec!['a', 'é', '€', '😀']);
}

#[test]
fn splits_at_the_first_place() {
    assert_eq!(split_once("https://a://b", "://"), Some(("https", "a://b")));
    assert_eq!(split_once("://", "://"), Some(("", "")));
    assert_eq!(split_once("abc", "://"), None);
    assert_eq!(split_once("a:/", "://"), None);
    assert_eq!(split_once("", "/"), None);
    assert_eq!(split_once("", ""), Some(("", "")));
    assert_eq!(split_once("ab", ""), Some(("", "ab")));
    assert_eq!(split_once("hôte/chemin", "/"), Some(("hôte", "chemin")));
    for hay in ["aab", "ababac", "a/b/c", "€€/€", "no"] {
        for needle in ["a", "ab", "/", "€", "x", "bac"] {
            assert_eq!(split_once(hay, needle), hay.split_once(needle));
        }
    }
}

#[test]
fn compares_without_ascii_case() {
    assert!(eq_ignore_ascii_case("HTTPS", "https"));
    assert!(eq_ignore_ascii_case("Content-Length", "content-length"));
    assert!(eq_ignore_ascii_case("", ""));
    assert!(!eq_ignore_ascii_case("http", "https"));
    assert!(!eq_ignore_ascii_case("httpx", "https"));
    assert!(!eq_ignore_ascii_case("É", "é"));
    assert!(!eq_ignore_ascii_case("@", "`"));
    assert!(!eq_ignore_ascii_case("[", "{"));
}
