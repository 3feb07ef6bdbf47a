use rugst::embedding::{document_model_input, query_model_input};
use rugst::interop::{c_text_compatible, candidate_window_from, rrf_k_from, RugstError, DEFAULT_RRF_K};
use rugst::server::{format_history, HistoryRequest, RememberRequest, SearchRequest};

#[test]
fn error_codes_match_the_c_enum() {
    assert_eq!(RugstError::Success.code(), 0);
    assert_eq!(RugstError::NullPointer.code(), 1);
    assert_eq!(RugstError::InvalidUtf8.code(), 2);
    assert_eq!(RugstError::InternalError.code(), 3);
}

#[test]
fn sentinels_of_the_c_options() {
    assert_eq!(candidate_window_from(0), None);
    assert_eq!(candidate_window_from(-4), None);
    assert_eq!(candidate_window_from(25), Some(25));
    assert_eq!(rrf_k_from(0), DEFAULT_RRF_K);
    assert_eq!(rrf_k_from(0), 60);
    assert_eq!(rrf_k_from(10), 10);
}

#[test]
fn c_text_compatible_rejects_nul() {
    assert!(c_text_compatible("hello 世界"));
    assert!(!c_text_compatible("a\0b"));
    assert!(c_text_compatible(""));
}

#[test]
fn model_inputs_carry_their_prefix() {
    assert_eq!(document_model_input("Rustを書いています"), "passage: Rustを書いています");
    assert_eq!(query_model_input("Rust"), "query: Rust");
}

#[test]
fn format_history_lists_messages() {
    let items = vec![
        ("user".to_string(), "hello".to_string()),
        ("assistant".to_string(), "hi there".to_string()),
    ];
    assert_eq!(format_history(&items), "[user] hello\n[assistant] hi there");
    assert_eq!(format_history(&vec![]), "No conversation history found.");
}

#[test]
fn request_types_hold_their_fields() {
    let r = RememberRequest {
        channel_id: "ch".to_string(),
        author_id: "a".to_string(),
        role: "fact".to_string(),
        content: "c".to_string(),
    };
    assert_eq!(r.role, "fact");
    let s = SearchRequest { channel_id: "ch".to_string(), role: "fact".to_string(), query: "q".to_string() };
    assert_eq!(s.query, "q");
    let h = HistoryRequest { channel_id: "ch".to_string(), limit: 10 };
    assert_eq!(h.limit, 10);
}
