use acm::config::Config;
use acm::prompt::{
    build_system_prompt, clean_message, could_be_think_tag_prefix, is_commit_line, is_conventional_commit_message,
    think_tag_at,
};

#[test]
fn default_prompt_contains_rules() {
    let config = Config::default();
    let prompt = build_system_prompt(&config, None);
    assert!(prompt.contains("commit message"), "Should mention 'commit message'");
    assert!(prompt.contains("imperative"), "Should mention 'imperative'");
    assert!(prompt.contains("max 72 chars"), "Should mention 'max 72 chars'");
}

#[test]
fn default_prompt_targets_primary_change_with_bullet_body() {
    let config = Config::default();
    let prompt = build_system_prompt(&config, None);
    assert!(prompt.contains("primary change"), "Prompt should anchor type and subject on the primary change: {prompt}");
    assert!(prompt.contains("2-6 \"- \" bullets"), "Prompt should request bullet body for multi-concern commits: {prompt}");
    assert!(prompt.contains("vague subjects"), "Prompt should ban vague subjects: {prompt}");
    assert!(prompt.contains("never invent changes"), "Prompt should forbid inventing changes: {prompt}");
}

#[test]
fn default_prompt_explains_truncated_input_and_low_signal() {
    let config = Config::default();
    let prompt = build_system_prompt(&config, None);
    assert!(prompt.contains("truncated or omitted"), "Prompt should explain possibly-partial hunks: {prompt}");
    assert!(prompt.contains("(low-signal)"), "Prompt should explain low-signal markers: {prompt}");
}

#[test]
fn prompt_includes_scope_hint() {
    let config = Config::default();
    let prompt = build_system_prompt(&config, Some("auth"));
    assert!(prompt.contains("auth"), "Prompt should contain the detected scope 'auth'");
}

#[test]
fn prompt_omits_scope_when_none() {
    let config = Config::default();
    let prompt = build_system_prompt(&config, None);
    assert!(!prompt.contains("Detected scope:"), "Prompt should not contain 'Detected scope:' when scope is None");
    assert!(
        prompt.contains("- Format: <type>: <subject>"),
        "Prompt should allow unscoped conventional commits when scope is None: {prompt}"
    );
    assert!(
        !prompt.contains("<type>(<scope>): <subject>"),
        "Prompt should not require a scope when none was detected: {prompt}"
    );
}

#[test]
fn prompt_uses_scoped_format_when_scope_is_detected() {
    let config = Config::default();
    let prompt = build_system_prompt(&config, Some("auth"));
    assert!(
        prompt.contains("- Format: <type>(<scope>): <subject>"),
        "Prompt should prefer scoped format when scope is detected: {prompt}"
    );
}

#[test]
fn prompt_includes_emoji_instruction() {
    let config = Config { emoji: true, ..Config::default() };
    let prompt = build_system_prompt(&config, None);
    assert!(prompt.contains("emoji"), "Prompt should contain 'emoji' when emoji is enabled");
}

#[test]
fn prompt_omits_emoji_when_disabled() {
    let config = Config { emoji: false, ..Config::default() };
    let prompt = build_system_prompt(&config, None);
    assert!(!prompt.contains("emoji"), "Prompt should not contain 'emoji' when emoji is disabled");
}

#[test]
fn prompt_includes_language_when_not_english() {
    let config = Config { language: "ja".to_string(), ..Config::default() };
    let prompt = build_system_prompt(&config, None);
    assert!(prompt.contains("ja"), "Prompt should contain the language code 'ja'");
}

#[test]
fn prompt_includes_one_line_instruction() {
    let config = Config { one_line: true, ..Config::default() };
    let prompt = build_system_prompt(&config, None);
    assert!(prompt.contains("single-line"), "should mention single-line: {prompt}");
    assert!(!prompt.contains("bullets"), "one_line should not include body guidance: {prompt}");
}

#[test]
fn prompt_includes_user_context() {
    let config = Config::default();
    let prompt = build_system_prompt(&config, None);
    assert!(!prompt.is_empty(), "Prompt should not be empty");
}

#[test]
fn prompt_stays_token_light() {
    let config = Config::default();
    let prompt = build_system_prompt(&config, Some("auth"));
    assert!(
        acm::token::estimate_tokens(&prompt) < 500,
        "System prompt must stay well under 500 tokens; it competes with the diff budget"
    );
}

#[test]
fn prompt_lines_in_order() {
    let config = Config { emoji: true, language: "ro".to_string(), ..Config::default() };
    let prompt = build_system_prompt(&config, Some("api"));
    let lines: Vec<&str> = prompt.lines().collect();
    assert_eq!(lines.len(), 16);
    assert_eq!(lines[1], "");
    assert_eq!(lines[2], "Rules:");
    assert_eq!(lines[3], "- Format: <type>(<scope>): <subject>");
    assert_eq!(lines[13], "- Prefix the subject with a relevant emoji");
    assert_eq!(lines[14], "- Write the message in language: ro");
    assert_eq!(
        lines[15],
        "- Detected scope: api \u{2014} use it unless the changes clearly warrant a different scope"
    );
}

// --- clean_message ---

#[test]
fn clean_noop_on_good_message() {
    assert_eq!(clean_message("feat(auth): add login endpoint"), "feat(auth): add login endpoint");
}

#[test]
fn clean_strips_preamble() {
    let raw = "Here is a concise conventional commit message for the changes:\n\nfeat(auth): add login endpoint";
    assert_eq!(clean_message(raw), "feat(auth): add login endpoint");
}

#[test]
fn clean_strips_preamble_multiline() {
    let raw = "Sure! Based on the diff, here is the commit message:\n\nfix(config): correct default port number\n\nThe default port was wrong.";
    assert_eq!(clean_message(raw), "fix(config): correct default port number\n\nThe default port was wrong.");
}

#[test]
fn clean_strips_trailing_commentary() {
    let raw = "feat(ui): add dark mode toggle\n\n(Note: I used feat because this is a new feature.)";
    assert_eq!(clean_message(raw), "feat(ui): add dark mode toggle");
}

#[test]
fn clean_strips_code_fences() {
    let raw = "```\nfeat(api): add rate limiting\n```";
    assert_eq!(clean_message(raw), "feat(api): add rate limiting");
}

#[test]
fn clean_preserves_body() {
    let raw = "refactor(db): simplify query builder\n\nRemove redundant join logic and consolidate\ninto a single method.";
    assert_eq!(clean_message(raw), raw);
}

#[test]
fn clean_fallback_if_no_type_found() {
    let raw = "update the readme file";
    assert_eq!(clean_message(raw), raw);
}

#[test]
fn clean_handles_type_without_scope() {
    let raw = "Some explanation.\n\nfix: resolve null pointer on empty input";
    assert_eq!(clean_message(raw), "fix: resolve null pointer on empty input");
}

#[test]
fn clean_strips_closed_think_block() {
    let raw = "<think>\nThe diff adds an endpoint. Maybe feat: something else?\n</think>\n\nfeat(auth): add login endpoint";
    assert_eq!(clean_message(raw), "feat(auth): add login endpoint");
}

#[test]
fn clean_strips_multiple_think_blocks() {
    let raw = "<think>first</think>fix: handle empty input<think>second</think>";
    assert_eq!(clean_message(raw), "fix: handle empty input");
}

#[test]
fn clean_strips_uppercase_thinking_block() {
    let raw = "<THINKING>reasoning here</THINKING>\nchore: bump dependencies";
    assert_eq!(clean_message(raw), "chore: bump dependencies");
}

#[test]
fn clean_unclosed_leading_think_returns_empty() {
    let raw = "<think>\nmaybe this could be\nfix: adjust parser\nbecause the hunks show...";
    assert_eq!(clean_message(raw), "");
}

#[test]
fn clean_unclosed_think_after_message_keeps_message() {
    let raw = "fix: adjust parser\n<think>leftover reasoning that never closes";
    assert_eq!(clean_message(raw), "fix: adjust parser");
}

#[test]
fn clean_stray_closer_keeps_text_after_last() {
    let raw = "streamed-away reasoning tail</think>\nfeat: add retry ladder";
    assert_eq!(clean_message(raw), "feat: add retry ladder");
}

#[test]
fn clean_strips_wrapping_quotes() {
    assert_eq!(clean_message("\"feat: add x\""), "feat: add x");
    assert_eq!(clean_message("'fix: repair y'"), "fix: repair y");
}

#[test]
fn clean_think_fence_and_preamble_combined() {
    let raw = "<think>hmm</think>\nHere is the message:\n```\nfeat(api): add rate limiting\n```";
    assert_eq!(clean_message(raw), "feat(api): add rate limiting");
}

#[test]
fn clean_nested_think_blocks() {
    let raw = "<think>a<think>b</think>c</think>docs: explain setup";
    assert_eq!(clean_message(raw), "docs: explain setup");
}

#[test]
fn clean_keeps_body_after_blank_line_before_non_commentary() {
    let raw = "feat: x\n\nBody line.\n\nHere is why I chose this.";
    assert_eq!(clean_message(raw), "feat: x\n\nBody line.");
}

// --- tag matcher ---

#[test]
fn think_tag_matcher_accepts_variants() {
    assert_eq!(think_tag_at("<think>"), Some((7, false)));
    assert_eq!(think_tag_at("</think>"), Some((8, true)));
    assert_eq!(think_tag_at("<THINKING>"), Some((10, false)));
    assert_eq!(think_tag_at("<think type=\"x\">rest"), Some((16, false)));
    assert_eq!(think_tag_at("<thinks>"), None);
    assert_eq!(think_tag_at("<thought>"), None);
    assert_eq!(think_tag_at("plain text"), None);
}

#[test]
fn think_tag_length_is_in_bytes() {
    assert_eq!(think_tag_at("<think é=\"x\">"), Some((14, false)));
    assert_eq!(think_tag_at("<think a<b>"), None);
    assert_eq!(think_tag_at("<think attr"), None);
}

#[test]
fn think_tag_prefix_detection() {
    assert!(could_be_think_tag_prefix("<"));
    assert!(could_be_think_tag_prefix("<th"));
    assert!(could_be_think_tag_prefix("</thin"));
    assert!(could_be_think_tag_prefix("<thinkin"));
    assert!(could_be_think_tag_prefix("<think attr=\"unfinished"));
    assert!(!could_be_think_tag_prefix("<div"));
    assert!(!could_be_think_tag_prefix("<thinkx"));
    assert!(!could_be_think_tag_prefix("<think>")); // complete, not a prefix
}

#[test]
fn commit_lines_are_recognised() {
    assert!(is_commit_line("  FIX(parser): handle eof"));
    assert!(is_commit_line("ci: run tests"));
    assert!(!is_commit_line("fixing things"));
    assert!(is_conventional_commit_message("perf: faster\n\nbody"));
    assert!(!is_conventional_commit_message("body first\nfeat: later"));
    assert!(!is_conventional_commit_message(""));
}

#[test]
fn every_proper_prefix_of_a_tag_is_held() {
    for tag in ["<think>", "</THINKING>", "<thinking mode=\"deep\">", "</think\tx>"] {
        let chars: Vec<char> = tag.chars().collect();
        for k in 1..chars.len() {
            let prefix: String = chars[..k].iter().collect();
            assert!(could_be_think_tag_prefix(&prefix), "{prefix:?} of {tag:?}");
        }
        assert!(!could_be_think_tag_prefix(tag));
    }
}

#[test]
fn commentary_lines_are_recognised() {
    assert!(acm::prompt::is_commentary("(Note: chose feat)"));
    assert!(acm::prompt::is_commentary("  NOTE: something"));
    assert!(acm::prompt::is_commentary("---"));
    assert!(acm::prompt::is_commentary("Here's why"));
    assert!(!acm::prompt::is_commentary("- add parser"));
    assert!(!acm::prompt::is_commentary("----"));
}

#[test]
fn cleaned_message_has_no_surrounding_whitespace() {
    assert_eq!(clean_message("  \n feat: x \n\n"), "feat: x");
    assert_eq!(clean_message("\t\"  just prose  \" "), "just prose");
    assert_eq!(clean_message("```\n\n  docs: y  \n```"), "docs: y");
}
