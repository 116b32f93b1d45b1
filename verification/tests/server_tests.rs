use my_domains::server::{route, status, Route};
use my_domains::text::same_chars;

#[test]
fn only_get_domains_is_answered() {
    assert_eq!(route("GET", "/domains"), Route::Domains);
    assert_eq!(route("POST", "/domains"), Route::NotFound);
    assert_eq!(route("GET", "/"), Route::NotFound);
    assert_eq!(route("GET", "/domains/"), Route::NotFound);
    assert_eq!(route("get", "/domains"), Route::NotFound);
    assert_eq!(route("", ""), Route::NotFound);
}

#[test]
fn routes_answer_with_their_status() {
    assert_eq!(status(Route::Domains), 200);
    assert_eq!(status(Route::NotFound), 404);
}

#[test]
fn strings_are_the_same_when_their_characters_are() {
    assert!(same_chars("", ""));
    assert!(same_chars("GET", "GET"));
    assert!(!same_chars("GET", "GE"));
    assert!(!same_chars("GET", "GEt"));
    assert!(same_chars("é日", "é日"));
}
