use unistellar_search::errors::SearchError;
use unistellar_search::token::SearchToken;

#[test]
fn accepts_alphanumeric_and_whitespace() {
    let t = SearchToken::make(String::from("science")).unwrap();
    assert_eq!(t.as_str(), "science");

    let t = SearchToken::make(String::from("Amy Nguyen")).unwrap();
    assert_eq!(t.as_str(), "Amy Nguyen");

    let t = SearchToken::make(String::from("CS 2410\tlab\n")).unwrap();
    assert_eq!(t.as_str(), "CS 2410\tlab\n");
}

#[test]
fn accepts_empty_text() {
    let t = SearchToken::make(String::new()).unwrap();
    assert_eq!(t.as_str(), "");
}

#[test]
fn rejects_injection_shaped_input() {
    // Apostrophe and semicolon are outside the safe class; the space
    // alone would be fine.
    let r = SearchToken::make(String::from("O'Brien; DROP"));
    assert_eq!(r.unwrap_err(), SearchError::RejectedInput);
}

#[test]
fn rejects_every_unsafe_character() {
    for raw in [
        "it's",
        "a\"b",
        "a\\b",
        "a_b",
        "a-b",
        "100%",
        "semi;colon",
        "back`tick",
        "par(en",
        "caf\u{e9}",
        "\u{442}\u{435}\u{441}\u{442}",
    ] {
        let r = SearchToken::make(String::from(raw));
        assert_eq!(r.unwrap_err(), SearchError::RejectedInput, "should reject {raw:?}");
    }
}

#[test]
fn rejection_is_a_client_error() {
    assert!(SearchError::RejectedInput.is_client_error());
    assert!(!SearchError::MalformedIdentifier.is_client_error());
    assert!(!SearchError::SourceUnavailable.is_client_error());
    assert_eq!(SearchError::RejectedInput.label(), "rejected input");
    assert_eq!(SearchError::MalformedIdentifier.label(), "malformed identifier");
    assert_eq!(SearchError::SourceUnavailable.label(), "source unavailable");
}
