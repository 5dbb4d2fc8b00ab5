use quelle::boundary::{foreign_statement, payload_or_fallback, FALLBACK_PAYLOAD};
use quelle::{raw_envelope, structured_envelope};

#[test]
fn missing_bytes_are_the_empty_statement() {
    assert_eq!(foreign_statement(None), "");
}

#[test]
fn bytes_that_are_no_text_are_the_empty_statement() {
    assert_eq!(foreign_statement(Some(&[0xff, 0xfe])), "");
    assert_eq!(foreign_statement(Some(&[b'a', 0xc3])), "");
    assert_eq!(foreign_statement(Some(&[0xed, 0xa0, 0x80])), "");
}

#[test]
fn bytes_that_are_text_are_the_statement() {
    assert_eq!(foreign_statement(Some("@exit".as_bytes())), "@exit");
    assert_eq!(foreign_statement(Some("Gött".as_bytes())), "Gött");
    assert_eq!(foreign_statement(Some(&[])), "");
}

#[test]
fn missing_bytes_are_answered_as_the_empty_statement_is() {
    assert_eq!(structured_envelope(foreign_statement(None)), structured_envelope(""));
    assert_eq!(raw_envelope(foreign_statement(None)), raw_envelope(""));
    assert_eq!(structured_envelope(foreign_statement(None)).error, "Invalid Input Error");
    assert_eq!(raw_envelope(foreign_statement(Some(&[0xff]))).error, "Invalid Input Error");
}

#[test]
fn rendered_payload_is_kept() {
    assert_eq!(payload_or_fallback(Some("{}".to_string())), "{}");
    assert_eq!(payload_or_fallback(Some(String::new())), "");
}

#[test]
fn failed_rendering_gives_the_fallback() {
    assert_eq!(payload_or_fallback(None), "{ \"error\": \"bad program design\"}");
    assert_eq!(FALLBACK_PAYLOAD, "{ \"error\": \"bad program design\"}");
}
