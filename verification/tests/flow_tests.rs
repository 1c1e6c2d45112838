use acm::diff::DiffMode;
use acm::flow::{
    chat_messages, delivery, is_context_error, retry_mode, should_offer_stage_when_no_staged,
    should_print_cleaned_message, should_show_diff_before_generation, validate_generated_message, when_nothing_staged,
    Delivery, MessageError, NothingStaged,
};
use acm::llm::Role;

#[test]
fn only_interactive_commit_flow_shows_diff_before_generation() {
    assert!(should_show_diff_before_generation(false, false, false));
    assert!(!should_show_diff_before_generation(true, false, false));
    assert!(!should_show_diff_before_generation(false, true, false));
    assert!(!should_show_diff_before_generation(false, false, true));
}

#[test]
fn hook_flow_does_not_offer_to_stage_unstaged_changes() {
    assert!(!should_offer_stage_when_no_staged(true));
    assert!(should_offer_stage_when_no_staged(false));
}

#[test]
fn unchanged_streamed_message_is_not_printed_again() {
    assert!(!should_print_cleaned_message(
        "feat(.): ignore target and .codex files\n",
        "feat(.): ignore target and .codex files"
    ));
}

#[test]
fn generated_message_must_be_non_empty_conventional_commit() {
    assert!(validate_generated_message("").is_err());
    assert!(validate_generated_message("update the readme").is_err());
    assert!(validate_generated_message("fix: handle empty provider output").is_ok());
}

#[test]
fn refusals_name_the_problem() {
    assert_eq!(validate_generated_message("  \n "), Err(MessageError::Empty));
    assert_eq!(
        validate_generated_message("update the readme\nfix: later").unwrap_err().message(),
        "provider returned a non-conventional commit message: update the readme"
    );
}

#[test]
fn context_errors_step_down_the_ladder() {
    assert!(is_context_error("Ollama returned 400 Bad Request: Context length exceeded"));
    assert!(is_context_error("prompt is TOO LONG"));
    assert!(!is_context_error("connection refused"));
    assert_eq!(retry_mode("maximum context", DiffMode::Full, 0), Some(DiffMode::Compact));
    assert_eq!(retry_mode("maximum context", DiffMode::Compact, 1), Some(DiffMode::Budgeted));
    assert_eq!(retry_mode("too many tokens", DiffMode::Stat, 0), None);
    assert_eq!(retry_mode("connection refused", DiffMode::Full, 0), None);
}

#[test]
fn at_most_two_retries_follow_a_context_error() {
    // Full, then Compact, then Budgeted: the third rejection stands.
    let mut mode = DiffMode::Full;
    let mut retries = 0;
    while let Some(next) = retry_mode("context length exceeded", mode, retries) {
        mode = next;
        retries += 1;
    }
    assert_eq!(retries, 2);
    assert_eq!(mode, DiffMode::Budgeted);
}

#[test]
fn user_turn_carries_context_hint() {
    let m = chat_messages("SYS", Some("ticket 42"), "DIFF");
    assert_eq!(m.len(), 2);
    assert_eq!(m[0].role, Role::System);
    assert_eq!(m[0].content, "SYS");
    assert_eq!(m[1].role, Role::User);
    assert_eq!(m[1].content, "Context: ticket 42\n\nDIFF");
    assert_eq!(chat_messages("SYS", None, "DIFF")[1].content, "DIFF");
}

#[test]
fn run_decisions() {
    assert_eq!(when_nothing_staged(true, true), NothingStaged::Quit);
    assert_eq!(when_nothing_staged(false, true), NothingStaged::OfferStage);
    assert_eq!(when_nothing_staged(false, false), NothingStaged::Fail);
    assert_eq!(delivery(true, true, true), Delivery::WriteHookFile);
    assert_eq!(delivery(false, true, true), Delivery::ShowOnly);
    assert_eq!(delivery(false, false, true), Delivery::Commit);
    assert_eq!(delivery(false, false, false), Delivery::Ask);
    assert_eq!(acm::flow::edited_message("  feat: x \n"), "feat: x");
}
