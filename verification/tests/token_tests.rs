use acm::token::{estimate_tokens, truncate_to_tokens};

#[test]
fn empty_string_is_zero_tokens() {
    assert_eq!(estimate_tokens(""), 0);
}

#[test]
fn short_string_estimate() {
    // "hello" = 5 bytes / 3.2 = 1.5625, ceil = 2
    assert_eq!(estimate_tokens("hello"), 2);
}

#[test]
fn code_snippet_estimate() {
    let code = "fn main() {\n    println!(\"Hello, world!\");\n}\n";
    let est = estimate_tokens(code);
    // 45 bytes / 3.2 = 14.0625, ceil = 15
    assert_eq!(est, 15);
}

#[test]
fn truncate_returns_full_if_fits() {
    let text = "short text";
    assert_eq!(truncate_to_tokens(text, 100), text);
}

#[test]
fn truncate_cuts_to_fit() {
    let text = "line1\nline2\nline3\nline4\nline5\nline6\nline7\nline8\n";
    let result = truncate_to_tokens(text, 5);
    assert!(estimate_tokens(&result) <= 5, "truncated should fit: {result}");
    assert!(!result.is_empty());
}

#[test]
fn estimate_matches_float_formula_on_many_lengths() {
    for n in 0..5000usize {
        let s = "a".repeat(n);
        let expected = if n == 0 { 0 } else { (n as f64 / 3.2).ceil() as usize };
        assert_eq!(estimate_tokens(&s), expected, "length {n}");
    }
}

#[test]
fn estimate_counts_bytes_not_characters() {
    // four characters, twelve bytes: 12 / 3.2 = 3.75, ceil = 4
    assert_eq!(estimate_tokens("日本語!"), 4);
    assert_eq!(estimate_tokens("日本語"), 3);
}

#[test]
fn truncate_keeps_whole_lines_within_budget() {
    // budget of 5 tokens = 16 bytes; the first 16 bytes end inside "line3"
    let text = "line1\nline2\nline3\nline4\n";
    assert_eq!(truncate_to_tokens(text, 5), "line1\nline2\n");
}

#[test]
fn truncate_without_newline_cuts_at_byte_budget() {
    let text = "abcdefghijklmnopqrstuvwxyz";
    // 3 tokens = 9 bytes
    assert_eq!(truncate_to_tokens(text, 3), "abcdefghi");
}

#[test]
fn truncate_zero_budget_gives_empty_text() {
    assert_eq!(truncate_to_tokens("something", 0), "");
}

#[test]
fn truncation_safety_is_reported_for_multibyte_cut() {
    // 1 token = 3 bytes; "é" occupies bytes 1..3 of "aéz...", so a 3-byte cut is fine,
    // while "aaé" puts a character boundary at 2 and 4 only.
    assert!(acm::token::truncation_is_safe("aébcdef", 1));
    assert!(!acm::token::truncation_is_safe("aaébcdef", 1));
    assert!(acm::token::truncation_is_safe("short", 100));
}
