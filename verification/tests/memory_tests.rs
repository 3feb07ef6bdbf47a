use rugst::memory::{
    bytes_to_f32, chrono_now, created_at_of, f32_to_bytes, keyword_index_needs_rebuild, oldest_first, plan_keyword_search, save_first_step,
    save_next_step, KeywordSearch, SaveStep,
};

fn bits(v: &[f32]) -> Vec<u32> {
    v.iter().map(|x| x.to_bits()).collect()
}

#[test]
fn f32_to_bytes_is_little_endian() {
    let v = [1.0f32, -2.5, 0.1];
    let blob = f32_to_bytes(&bits(&v));
    let expected: Vec<u8> = v.iter().flat_map(|f| f.to_le_bytes()).collect();
    assert_eq!(blob, expected);
    assert_eq!(blob.len(), 12);
}

#[test]
fn bytes_to_f32_reads_back_components() {
    let v = [0.25f32, 3.0, -7.75, f32::MAX];
    let back = bytes_to_f32(&f32_to_bytes(&bits(&v)));
    let floats: Vec<f32> = back.into_iter().map(f32::from_bits).collect();
    assert_eq!(floats, v.to_vec());
}

#[test]
fn bytes_to_f32_ignores_trailing_partial_word() {
    let mut blob = 1.5f32.to_le_bytes().to_vec();
    blob.push(0xff);
    blob.push(0x01);
    let back = bytes_to_f32(&blob);
    assert_eq!(back, vec![1.5f32.to_bits()]);
    assert!(bytes_to_f32(&[1, 2, 3]).is_empty());
}

#[test]
fn plan_keyword_search_blank_query() {
    assert_eq!(plan_keyword_search("   "), KeywordSearch::Blank);
    assert_eq!(plan_keyword_search(""), KeywordSearch::Blank);
}

#[test]
fn plan_keyword_search_short_query_uses_like() {
    assert_eq!(
        plan_keyword_search("  宇宙 "),
        KeywordSearch::Substring { pattern: "%宇宙%".to_string() }
    );
    assert_eq!(
        plan_keyword_search("%"),
        KeywordSearch::Substring { pattern: "%\\%%".to_string() }
    );
}

#[test]
fn plan_keyword_search_long_query_uses_phrase() {
    assert_eq!(
        plan_keyword_search(" 開催時間 "),
        KeywordSearch::Phrase { fts_query: "\"開催時間\"".to_string() }
    );
    assert_eq!(
        plan_keyword_search("a \"b\""),
        KeywordSearch::Phrase { fts_query: "\"a \"\"b\"\"\"".to_string() }
    );
}

#[test]
fn save_steps_for_fact_and_chat() {
    assert_eq!(save_first_step("fact"), SaveStep::RefreshFact);
    assert_eq!(save_first_step("user"), SaveStep::Insert);
    assert_eq!(save_first_step("facts"), SaveStep::Insert);
    assert_eq!(save_next_step(SaveStep::RefreshFact, 0), SaveStep::Insert);
    assert_eq!(save_next_step(SaveStep::RefreshFact, 1), SaveStep::Done);
    assert_eq!(save_next_step(SaveStep::Insert, 1), SaveStep::Done);
    assert_eq!(save_next_step(SaveStep::Done, 0), SaveStep::Done);
}

#[test]
fn oldest_first_reverses_rows() {
    let rows = vec![
        ("user".to_string(), "third".to_string()),
        ("assistant".to_string(), "second".to_string()),
        ("user".to_string(), "first".to_string()),
    ];
    let out = oldest_first(rows);
    let contents: Vec<&str> = out.iter().map(|r| r.1.as_str()).collect();
    assert_eq!(contents, vec!["first", "second", "third"]);
    assert!(oldest_first(Vec::<u8>::new()).is_empty());
}

#[test]
fn chrono_now_reads_the_clock() {
    let now = chrono_now().expect("clock after 1970");
    assert!(now > 1_600_000_000);
}

#[test]
fn created_at_of_converts_seconds() {
    assert_eq!(created_at_of(1_700_000_000), 1_700_000_000);
    assert_eq!(created_at_of(0), 0);
    assert_eq!(created_at_of(u64::MAX), -1);
}

#[test]
fn keyword_index_rebuilt_only_when_new() {
    assert!(keyword_index_needs_rebuild(0));
    assert!(!keyword_index_needs_rebuild(1));
}
