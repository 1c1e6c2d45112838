use acm::diff::{
    build_budgeted, fit_diff, format_with_stat_header, get_forced_diff, next_smaller_mode, DiffError, DiffMode,
};
use acm::git::staged_stat_ranked;
use acm::token;

const TRUNCATION_MARKER: &str = "... [hunks truncated]";

#[test]
fn mode_ladder_terminates() {
    assert_eq!(next_smaller_mode(DiffMode::Full), Some(DiffMode::Compact));
    assert_eq!(next_smaller_mode(DiffMode::Compact), Some(DiffMode::Budgeted));
    assert_eq!(next_smaller_mode(DiffMode::Budgeted), Some(DiffMode::Stat));
    assert_eq!(next_smaller_mode(DiffMode::Stat), None);
}

#[test]
fn budgeted_mode_parses() {
    assert_eq!("budgeted".parse::<DiffMode>(), Ok(DiffMode::Budgeted));
    assert_eq!(DiffMode::Budgeted.name(), "budgeted");
}

fn fake_diff(path: &str, lines: usize) -> (String, String) {
    let mut d = format!("diff --git a/{path} b/{path}\n@@ -0,0 +1,{lines} @@\n");
    for i in 0..lines {
        d.push_str(&format!("+content line {i} in {path}\n"));
    }
    (path.to_string(), d)
}

#[test]
fn budgeted_none_when_header_exceeds_budget() {
    let stat = " some-file.rs | 999 (+999 -0)\n".repeat(200);
    let per_file = vec![fake_diff("src/a.rs", 50)];
    assert_eq!(build_budgeted(&stat, &per_file, 100), None);
}

#[test]
fn budgeted_none_when_no_files() {
    assert_eq!(build_budgeted("stat", &[], 4096), None);
}

#[test]
fn budgeted_output_fits_budget_and_marks_truncation() {
    let stat = " src/a.rs | 2000  (+2000 -0)";
    let per_file = vec![fake_diff("src/a.rs", 2000)];
    let max_tokens = 600;
    let out = build_budgeted(stat, &per_file, max_tokens).expect("should be viable");
    assert!(
        token::estimate_tokens(&out) <= max_tokens,
        "budgeted output must fit: {} > {max_tokens}",
        token::estimate_tokens(&out)
    );
    assert!(out.contains(TRUNCATION_MARKER), "oversized file should carry truncation marker:\n{out}");
    assert!(out.contains("content line 0 in src/a.rs"));
}

#[test]
fn budgeted_signal_files_win_over_bigger_lockfile() {
    let stat = " x";
    let per_file = vec![fake_diff("src/a.rs", 100), fake_diff("src/b.rs", 100), fake_diff("Cargo.lock", 3000)];
    let out = build_budgeted(stat, &per_file, 800).expect("viable");
    assert!(out.contains("content line 0 in src/a.rs"));
    assert!(out.contains("content line 0 in src/b.rs"));
    if !out.contains("content line 0 in Cargo.lock") {
        assert!(out.contains("[hunks omitted for 1 of 3 files"), "dropped lockfile must be reported:\n{out}");
    }
    assert!(token::estimate_tokens(&out) <= 800);
}

#[test]
fn budgeted_all_low_signal_diff_still_gets_hunks() {
    let stat = " Cargo.lock | 50  (+50 -0) (low-signal)";
    let per_file = vec![fake_diff("Cargo.lock", 50)];
    let out = build_budgeted(stat, &per_file, 2048).expect("viable");
    assert!(out.contains("content line 0 in Cargo.lock"), "all-low-signal commit should include its hunks:\n{out}");
}

#[test]
fn budgeted_reports_omitted_files() {
    let stat = " x";
    let per_file: Vec<(String, String)> = (0..8).map(|i| fake_diff(&format!("src/f{i}.rs"), 2000)).collect();
    let out = build_budgeted(stat, &per_file, 500).expect("viable");
    assert!(token::estimate_tokens(&out) <= 500);
    assert!(
        out.contains("[hunks omitted for") && out.contains("of 8 files"),
        "omitted files must be reported:\n{out}"
    );
}

#[test]
fn format_with_stat_header_combines_in_order() {
    let result = format_with_stat_header("STAT-LINE", "DIFF-BODY");
    let stat_pos = result.find("STAT-LINE").unwrap();
    let diff_pos = result.find("DIFF-BODY").unwrap();
    assert!(stat_pos < diff_pos);
}

#[test]
fn format_with_stat_header_handles_empty_stat() {
    assert_eq!(format_with_stat_header("", "DIFF"), "DIFF");
}

#[test]
fn format_with_stat_header_exact_text() {
    assert_eq!(
        format_with_stat_header("S", "B"),
        "Files changed (ranked by relevance):\nS\n\n--- diff (most relevant first) ---\nB"
    );
    assert_eq!(format_with_stat_header("S", ""), "S");
}

#[test]
fn budgeted_exact_small_output() {
    let per_file = vec![("a.rs".to_string(), "+x".to_string())];
    let out = build_budgeted("STAT", &per_file, 4096).unwrap();
    assert_eq!(
        out,
        "Files changed (ranked by relevance):\nSTAT\n\n--- diff (hunks by relevance; some truncated or omitted) ---\n+x"
    );
}

#[test]
fn budgeted_empty_diffs_are_omitted_and_counted() {
    let per_file = vec![
        ("a.rs".to_string(), "+x".to_string()),
        ("b.rs".to_string(), "   \n".to_string()),
    ];
    let out = build_budgeted("STAT", &per_file, 4096).unwrap();
    assert!(out.ends_with("+x\n[hunks omitted for 1 of 2 files \u{2014} see file list above]"), "{out}");
}

#[test]
fn budgeted_none_when_only_empty_diffs() {
    let per_file = vec![("a.rs".to_string(), "".to_string())];
    assert_eq!(build_budgeted("STAT", &per_file, 4096), None);
}

#[test]
fn unknown_forced_mode_is_an_error() {
    let r = fit_diff("stat", &[], "body", 100, "verbose");
    assert_eq!(r, Err(DiffError::UnknownMode("verbose".to_string())));
    assert_eq!(DiffError::UnknownMode("verbose".to_string()).message(), "unknown diff mode: verbose");
}

fn numstat(records: &[(usize, usize, &str)]) -> String {
    let mut s = String::new();
    for (a, d, p) in records {
        s.push_str(&format!("{a}\t{d}\t{p}\0"));
    }
    s
}

fn big_file_inputs(lines: usize) -> (String, Vec<(String, String)>, String) {
    let stat = staged_stat_ranked(&numstat(&[(lines, 0, "big.txt")]));
    let mut body = String::from("diff --git a/big.txt b/big.txt\nnew file mode 100644\n--- /dev/null\n+++ b/big.txt\n");
    body.push_str(&format!("@@ -0,0 +1,{lines} @@\n"));
    for i in 0..lines {
        body.push_str(&format!("+line {i} of big.txt\n"));
    }
    let body = body.trim().to_string();
    (stat, vec![("big.txt".to_string(), body.clone())], body)
}

#[test]
fn fit_diff_with_temp_repo() {
    let (stat, per_file, full) = big_file_inputs(3);
    let (diff, mode) = fit_diff(&stat, &per_file, &full, 4096, "auto").unwrap();
    assert_eq!(mode, DiffMode::Full);
    assert!(diff.starts_with("Files changed (ranked by relevance):"));
    assert!(diff.contains("+line 0 of big.txt"));
}

#[test]
fn fit_diff_auto_picks_budgeted_when_compact_too_big() {
    let (stat, per_file, full) = big_file_inputs(2000);
    let (diff, mode) = fit_diff(&stat, &per_file, &full, 600, "auto").unwrap();
    assert_eq!(mode, DiffMode::Budgeted, "got:\n{diff}");
    assert!(token::estimate_tokens(&diff) <= 600);
    assert!(diff.contains("line 0 of big.txt"));
}

#[test]
fn fit_diff_forced_mode() {
    let (stat, per_file, full) = big_file_inputs(30);
    let (diff, mode) = fit_diff(&stat, &per_file, &full, 4096, "stat").unwrap();
    assert_eq!(mode, DiffMode::Stat);
    assert!(diff.contains("big.txt"));
}

#[test]
fn forced_budgeted_falls_back_to_truncated_stat_when_not_viable() {
    let (stat, per_file, full) = big_file_inputs(30);
    let (diff, mode) = get_forced_diff(&stat, &per_file, &full, DiffMode::Budgeted, 20);
    assert_eq!(mode, DiffMode::Stat, "not-viable budgeted must be labeled Stat so retries terminate");
    assert!(token::estimate_tokens(&diff) <= 20, "fallback stat must be truncated to budget");
}

#[test]
fn forced_budgeted_returns_budgeted_when_viable() {
    let (stat, per_file, full) = big_file_inputs(30);
    let (diff, mode) = get_forced_diff(&stat, &per_file, &full, DiffMode::Budgeted, 4096);
    assert_eq!(mode, DiffMode::Budgeted);
    assert!(diff.contains("line 0 of big.txt"));
}

#[test]
fn checked_variants_refuse_cuts_inside_characters() {
    // The stat is cut at 3 bytes for a budget of one token; that splits "é".
    let stat = "aaé and more text that is long enough";
    assert_eq!(acm::diff::get_forced_diff_checked(stat, &[], "", DiffMode::Stat, 1), None);
    let ok = acm::diff::get_forced_diff_checked("abcdef and more text", &[], "", DiffMode::Stat, 1);
    assert_eq!(ok, Some(("abc".to_string(), DiffMode::Stat)));
}

#[test]
fn checked_budgeted_matches_unchecked() {
    let per_file = vec![fake_diff("src/a.rs", 200)];
    let checked = acm::diff::build_budgeted_checked(" x", &per_file, 400);
    assert_eq!(checked, Some(build_budgeted(" x", &per_file, 400)));
    assert!(acm::diff::budgeted_cuts_fit_chars(" x", &per_file, 400));
}

fn file_diff(name: &str, lines: usize) -> String {
    let mut d = format!("diff --git a/{name} b/{name}\nnew file mode 100644\n--- /dev/null\n+++ b/{name}\n@@ -0,0 +1,{lines} @@\n");
    for i in 0..lines {
        d.push_str(&format!("+line {i}\n"));
    }
    d.trim().to_string()
}

#[test]
fn fit_diff_includes_stat_header_and_ranks_largest_first() {
    let out = numstat(&[(1, 0, "a_small.txt"), (40, 0, "z_big.txt")]);
    let stat = staged_stat_ranked(&out);
    let ranked = acm::git::staged_files_ranked(&out);
    assert_eq!(ranked, vec!["z_big.txt".to_string(), "a_small.txt".to_string()]);
    let outputs: Vec<String> = ranked.iter().map(|f| file_diff(f, if f == "z_big.txt" { 40 } else { 1 })).collect();
    let per_file = acm::diff::per_file_compact_diffs(&ranked, &outputs);
    let full = acm::git::staged_diff_for_files(&outputs);
    let (diff, mode) = fit_diff(&stat, &per_file, &full, 8192, "auto").expect("fit_diff failed");
    assert_eq!(mode, DiffMode::Full, "small change set should fit as Full");
    assert!(diff.starts_with("Files changed (ranked by relevance):"), "got:\n{diff}");
    assert!(diff.contains("--- diff"), "got:\n{diff}");
    let big_pos = diff.find("z_big.txt").expect("z_big.txt missing");
    let small_pos = diff.find("a_small.txt").expect("a_small.txt missing");
    assert!(big_pos < small_pos, "z_big.txt should appear before a_small.txt in the combined output");
}
