use acm::ui::{
    action_for_key, push_answer, split_editor_command, stage_answer, summary_line, unstaged_stat_block, Action, Key,
    MessageStream, ThinkFilter,
};

/// Feed chunks through a ThinkFilter and collect the displayed text and
/// whether a placeholder was requested.
fn run_filter(chunks: &[&str]) -> (String, bool) {
    let mut filter = ThinkFilter::new();
    let mut displayed = String::new();
    let mut placeholder = false;
    for chunk in chunks {
        let (visible, p) = filter.push(chunk);
        displayed.push_str(&visible);
        placeholder |= p;
    }
    displayed.push_str(&filter.flush());
    (displayed, placeholder)
}

#[test]
fn filter_passes_plain_text_through() {
    let (out, placeholder) = run_filter(&["feat: add ", "login endpoint"]);
    assert_eq!(out, "feat: add login endpoint");
    assert!(!placeholder);
}

#[test]
fn filter_suppresses_think_span_and_requests_placeholder() {
    let (out, placeholder) = run_filter(&["<think>internal reasoning</think>", "fix: handle empty input"]);
    assert_eq!(out, "fix: handle empty input");
    assert!(placeholder);
}

#[test]
fn filter_handles_tag_split_across_chunks() {
    let (out, placeholder) = run_filter(&["<th", "ink>reason", "ing</th", "ink>", "feat: add retry"]);
    assert_eq!(out, "feat: add retry");
    assert!(placeholder);
}

#[test]
fn filter_keeps_non_think_angle_brackets() {
    let (out, _) = run_filter(&["feat: support <T> generics ", "<div> too"]);
    assert_eq!(out, "feat: support <T> generics <div> too");
}

#[test]
fn filter_unclosed_think_suppresses_to_end() {
    let (out, placeholder) = run_filter(&["<think>never closes ", "more reasoning"]);
    assert_eq!(out, "");
    assert!(placeholder);
}

#[test]
fn filter_flushes_trailing_partial_non_tag() {
    let (out, _) = run_filter(&["fix: compare a ", "<themes"]);
    assert_eq!(out, "fix: compare a <themes");
}

#[test]
fn filter_requests_placeholder_once() {
    let mut filter = ThinkFilter::new();
    assert_eq!(filter.push("<think>a</think>x"), ("x".to_string(), true));
    assert_eq!(filter.push("<think>b</think>y"), ("y".to_string(), false));
}

#[test]
fn filter_releases_long_partial_tag_as_text() {
    let long = format!("<think {}", "a".repeat(70));
    let (out, _) = run_filter(&[&long]);
    assert_eq!(out, long);
}

#[test]
fn split_editor_command_handles_args() {
    assert_eq!(split_editor_command("code --wait"), ("code".to_string(), vec!["--wait".to_string()]));
}

#[test]
fn split_editor_command_defaults_to_vi() {
    assert_eq!(split_editor_command("   "), ("vi".to_string(), vec![]));
    assert_eq!(
        split_editor_command("  emacs  -nw\t-q "),
        ("emacs".to_string(), vec!["-nw".to_string(), "-q".to_string()])
    );
}

#[test]
fn summary_line_wording() {
    assert_eq!(summary_line(1, 2, 0), "  Staged: 1 file (+2, -0)");
    assert_eq!(summary_line(3, 0, 0), "  Staged: 3 files");
    assert_eq!(summary_line(2, 0, 5), "  Staged: 2 files (+0, -5)");
}

#[test]
fn unstaged_stat_block_indents_lines() {
    assert_eq!(unstaged_stat_block(""), "");
    assert_eq!(unstaged_stat_block(" a | 1 +\n b | untracked"), "\n   a | 1 +\n   b | untracked\n\n");
}

#[test]
fn keys_choose_actions() {
    assert_eq!(action_for_key(Key::Char('c'), true), Some(Action::Cancel));
    assert_eq!(action_for_key(Key::Char('y'), false), Some(Action::Commit));
    assert_eq!(action_for_key(Key::Enter, false), Some(Action::Commit));
    assert_eq!(action_for_key(Key::Char('e'), false), Some(Action::Edit));
    assert_eq!(action_for_key(Key::Char('r'), false), Some(Action::Regenerate));
    assert_eq!(action_for_key(Key::Char('n'), false), Some(Action::Cancel));
    assert_eq!(action_for_key(Key::Esc, false), Some(Action::Cancel));
    assert_eq!(action_for_key(Key::Char('c'), false), None);
    assert_eq!(action_for_key(Key::Other, false), None);
}

#[test]
fn keys_answer_prompts() {
    assert_eq!(stage_answer(Key::Enter, false), Some(true));
    assert_eq!(push_answer(Key::Enter, false), Some(false));
    assert_eq!(stage_answer(Key::Char('c'), true), Some(false));
    assert_eq!(push_answer(Key::Char('y'), false), Some(true));
    assert_eq!(push_answer(Key::Char('x'), false), None);
}

#[test]
fn message_stream_keeps_raw_and_shown_text() {
    let mut m = MessageStream::new(true);
    assert_eq!(m.feed("<think>hm</think>"), (String::new(), true));
    assert_eq!(m.feed("feat: x <th"), ("feat: x ".to_string(), false));
    let (tail, msg) = m.finish();
    assert_eq!(tail, "<th");
    assert_eq!(msg.raw, "<think>hm</think>feat: x <th");
    assert_eq!(msg.displayed, "feat: x <th");
    let mut quiet = MessageStream::new(false);
    assert_eq!(quiet.feed("<think>"), (String::new(), false));
}

#[test]
fn pager_command_defaults_to_less() {
    assert_eq!(acm::ui::pager_command(None), ("less".to_string(), vec!["-R".to_string()]));
    assert_eq!(acm::ui::pager_command(Some("  ".into())), ("less".to_string(), vec!["-R".to_string()]));
    assert_eq!(acm::ui::pager_command(Some("more".into())), ("more".to_string(), vec![]));
    assert_eq!(
        acm::ui::pager_command(Some("bat --paging always".into())),
        ("bat".to_string(), vec!["--paging".to_string(), "always".to_string()])
    );
}

#[test]
fn chunking_does_not_change_what_is_shown() {
    let text = "Hi <Think>plan</think> there <thinking a=\"1\">x</thinking>!<b>";
    let whole = run_filter(&[text]);
    let chars: Vec<char> = text.chars().collect();
    for cut in 0..=chars.len() {
        let a: String = chars[..cut].iter().collect();
        let b: String = chars[cut..].iter().collect();
        assert_eq!(run_filter(&[&a, &b]), whole, "cut at {cut}");
    }
    assert_eq!(whole.0, "Hi  there !<b>");
}

#[test]
fn three_chunks_show_what_one_shows() {
    let text = "a<think>b</THINK>c<thinking>d</thinking>e<x";
    let whole = run_filter(&[text]);
    let chars: Vec<char> = text.chars().collect();
    for i in 0..=chars.len() {
        for j in i..=chars.len() {
            let a: String = chars[..i].iter().collect();
            let b: String = chars[i..j].iter().collect();
            let c: String = chars[j..].iter().collect();
            assert_eq!(run_filter(&[&a, &b, &c]), whole, "cuts at {i}, {j}");
        }
    }
    assert_eq!(whole, ("ace<x".to_string(), true));
}
