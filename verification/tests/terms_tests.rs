use crow_text::terms::split_terms;
use crow_text::tfidf::term_frequencies;

fn terms(v: &[&str]) -> Option<Vec<String>> {
    Some(v.iter().map(|s| s.to_string()).collect())
}

#[test]
fn split_words() {
    assert_eq!(split_terms("Hello world"), terms(&["hello", "world"]));
    assert_eq!(split_terms("ab cd"), terms(&[]));
    assert_eq!(split_terms(""), terms(&[]));
}

#[test]
fn split_words_start_with_letter() {
    assert_eq!(split_terms("x1y2z3"), terms(&["x1y2z3"]));
    assert_eq!(split_terms("123abc"), terms(&["abc"]));
}

#[test]
fn split_camel_case() {
    assert_eq!(split_terms("getUserName"), terms(&["getusername", "get", "user", "name"]));
    assert_eq!(split_terms("fooBarBaz9"), terms(&["foobarbaz9", "foo", "bar", "baz9"]));
    assert_eq!(split_terms("HTTPServer"), terms(&["httpserver"]));
    // Parts shorter than three characters are left out.
    assert_eq!(split_terms("goToFile"), terms(&["gotofile", "file"]));
}

#[test]
fn term_frequencies_count() {
    assert_eq!(
        term_frequencies("apple banana apple"),
        Some(vec![("apple".to_string(), 2), ("banana".to_string(), 1)])
    );
    assert_eq!(term_frequencies("a b"), Some(vec![]));
}

#[test]
fn terms_have_three_characters() {
    for text in ["a bb ccc dddd", "getUserName x1 ab2c", "İstanbul ŞEHİR", "fooBarBaz qUx"] {
        for t in split_terms(text).unwrap() {
            assert!(t.chars().count() >= 3, "{t:?} from {text:?}");
        }
    }
}
