use acm::git::{
    git_path, git_result, has_unstaged_changes, is_low_signal_path, rank_entries, staged_diff, staged_diff_for_files,
    staged_files, staged_files_ranked, staged_numstat, staged_stat_ranked, staged_summary, unstaged_stat, GitCommand,
    GitError, GitRun,
};

#[test]
fn low_signal_matches_lockfiles_by_basename() {
    assert!(is_low_signal_path("Cargo.lock"));
    assert!(is_low_signal_path("packages/foo/package-lock.json"));
    assert!(is_low_signal_path("a/b/yarn.lock"));
    assert!(is_low_signal_path("assets/app.min.js"));
    assert!(is_low_signal_path("dist/app.js.map"));
    assert!(is_low_signal_path("vendor/lib/util.go"));
    assert!(is_low_signal_path("pkg/node_modules/x/index.js"));
}

#[test]
fn low_signal_does_not_match_regular_files() {
    assert!(!is_low_signal_path("src/main.rs"));
    assert!(!is_low_signal_path("Cargo.toml"));
    assert!(!is_low_signal_path("vendor")); // root file named vendor
    assert!(!is_low_signal_path("src/locks.rs"));
    assert!(!is_low_signal_path("docs/minjs.md"));
}

#[test]
fn low_signal_extension_match_ignores_case() {
    assert!(is_low_signal_path("web/APP.MIN.JS"));
    assert!(!is_low_signal_path("web/cargo.LOCK"));
}

#[test]
fn ranking_demotes_low_signal_files_below_smaller_signal_files() {
    let mut entries = vec![
        (500, 300, "Cargo.lock".to_string()),
        (10, 2, "src/main.rs".to_string()),
        (40, 5, "src/diff.rs".to_string()),
    ];
    rank_entries(&mut entries);
    let names: Vec<&str> = entries.iter().map(|(_, _, n)| n.as_str()).collect();
    assert_eq!(names, vec!["src/diff.rs", "src/main.rs", "Cargo.lock"]);
}

#[test]
fn ranking_breaks_ties_alphabetically() {
    let mut entries = vec![(1, 1, "b.rs".to_string()), (2, 0, "a.rs".to_string()), (0, 5, "c.rs".to_string())];
    rank_entries(&mut entries);
    let names: Vec<&str> = entries.iter().map(|(_, _, n)| n.as_str()).collect();
    assert_eq!(names, vec!["c.rs", "a.rs", "b.rs"]);
}

#[test]
fn no_staged_files_returns_error() {
    let err = staged_files("").unwrap_err();
    assert!(err.message().contains("no staged changes"), "got: {}", err.message());
}

#[test]
fn staged_files_lists_files() {
    let files = staged_files("a.txt\nb.txt").unwrap();
    assert!(files.contains(&"a.txt".to_string()));
    assert!(files.contains(&"b.txt".to_string()));
    assert_eq!(files, vec!["a.txt".to_string(), "b.txt".to_string()]);
}

#[test]
fn numstat_reads_records_binaries_and_renames() {
    let out = "3\t1\tsrc/a.rs\0-\t-\timg.png\0" .to_string() + "2\t0\t\0old.txt\0new.txt\0";
    let entries = staged_numstat(&out);
    assert_eq!(
        entries,
        vec![
            (3, 1, "src/a.rs".to_string()),
            (0, 0, "img.png".to_string()),
            (2, 0, "new.txt".to_string()),
        ]
    );
}

#[test]
fn staged_files_ranked_orders_by_change_size() {
    let out = "1\t0\ta_small.txt\0" .to_string() + "50\t0\tz_big.txt\0";
    assert_eq!(staged_files_ranked(&out), vec!["z_big.txt".to_string(), "a_small.txt".to_string()]);
}

#[test]
fn staged_summary_counts_correctly() {
    let (files, insertions, _deletions) = staged_summary("2\t0\tsummary.txt\0");
    assert_eq!(files, 1, "Expected 1 staged file");
    assert!(insertions > 0, "Expected insertions > 0");
    let out = "2\t0\tsummary.txt\0".to_string() + "1\t3\tb.txt\0";
    assert_eq!(staged_summary(&out), (2, 3, 3));
}

#[test]
fn staged_stat_ranked_exact_layout() {
    let out = "30\t0\tCargo.lock\0" .to_string() + "1\t0\tmain.rs\0" + "20\t2\tbig.txt\0";
    let stat = staged_stat_ranked(&out);
    assert_eq!(
        stat,
        " big.txt    | 22  (+20 -2)\n main.rs    |  1  (+1 -0)\n Cargo.lock | 30  (+30 -0) (low-signal)\n \
         3 files changed, 51 insertions(+), 2 deletions(-)"
    );
}

#[test]
fn staged_stat_ranked_singular_words() {
    let stat = staged_stat_ranked("1\t1\tx\0");
    assert!(stat.ends_with(" 1 file changed, 1 insertion(+), 1 deletion(-)"), "{stat}");
    assert_eq!(staged_stat_ranked(""), "");
}

#[test]
fn staged_diff_for_files_skips_empty_parts() {
    let parts = vec!["zulu diff".to_string(), "".to_string(), "alpha diff".to_string()];
    assert_eq!(staged_diff_for_files(&parts), "zulu diff\nalpha diff");
}

#[test]
fn unstaged_stat_includes_untracked_files() {
    assert_eq!(unstaged_stat("", "untracked.txt"), " untracked.txt | untracked");
    assert_eq!(unstaged_stat(" a | 2 +-", "n1\nn2"), " a | 2 +-\n n1 | untracked\n n2 | untracked");
    assert_eq!(unstaged_stat(" a | 2 +-", ""), " a | 2 +-");
}

#[test]
fn git_path_joins_relative_paths() {
    assert_eq!(git_path("/repo", ".git/hooks"), "/repo/.git/hooks");
    assert_eq!(git_path("/repo/", ".git/hooks"), "/repo/.git/hooks");
    assert_eq!(git_path("/repo", "/abs/.git/hooks"), "/abs/.git/hooks");
}

#[test]
fn git_commands_have_the_expected_arguments() {
    assert_eq!(staged_diff(Some(0)).args(), vec!["diff", "--cached", "--unified=0"]);
    assert_eq!(staged_diff(None).args(), vec!["diff", "--cached"]);
    assert_eq!(
        GitCommand::StagedDiffOf(Some(12), "f.rs".to_string()).args(),
        vec!["diff", "--cached", "--unified=12", "--", "f.rs"]
    );
    assert_eq!(acm::git::stage_all().args(), vec!["add", "-A"]);
    assert_eq!(acm::git::push().args(), vec!["push"]);
    assert_eq!(acm::git::working_tree_status().args(), vec!["status", "--porcelain"]);
    assert_eq!(GitCommand::Commit("msg".to_string()).label(), "commit");
    assert_eq!(GitCommand::TopLevel.label(), "rev-parse --show-toplevel");
}

#[test]
fn git_results_are_trimmed_or_reported() {
    let ok = git_result(&GitCommand::Status, GitRun { success: true, stdout: " M a\n".into(), stderr: String::new() });
    assert_eq!(ok, Ok("M a".to_string()));
    let raw = git_result(&GitCommand::StagedNumstat, GitRun { success: true, stdout: "1\t0\ta\0".into(), stderr: String::new() });
    assert_eq!(raw, Ok("1\t0\ta\0".to_string()));
    let err = git_result(&GitCommand::Push, GitRun { success: false, stdout: String::new(), stderr: "fatal: no remote\n".into() });
    assert_eq!(err, Err(GitError::Failed("push".to_string(), "fatal: no remote".to_string())));
    assert_eq!(err.unwrap_err().message(), "git push: fatal: no remote");
    assert_eq!(acm::git::git_launch_error(&GitCommand::Push).message(), "Failed to run: git push");
}

#[test]
fn unstaged_changes_follow_status_output() {
    assert!(has_unstaged_changes(&Ok(" M a.txt".to_string())));
    assert!(!has_unstaged_changes(&Ok(String::new())));
    assert!(!has_unstaged_changes(&Err(GitError::Failed("status --porcelain".into(), "x".into()))));
}

#[test]
fn commit_skips_acm_prepare_commit_msg_hook() {
    assert_eq!(
        GitCommand::Commit("m".to_string()).env(),
        Some(("ACM_SKIP_HOOK".to_string(), "1".to_string()))
    );
    assert_eq!(GitCommand::Push.env(), None);
    assert_eq!(GitCommand::Commit("fix: x".to_string()).args(), vec!["commit", "-m", "fix: x"]);
}

#[test]
fn numstat_overflow_is_detected() {
    assert!(acm::git::numstat_fits("1\t2\ta\0"));
    let huge = format!("{}\t1\ta\0", usize::MAX);
    assert!(!acm::git::numstat_fits(&huge));
    let sums = format!("{}\t0\ta\0{}\t0\tb\0", usize::MAX, 1);
    assert!(!acm::git::numstat_fits(&sums));
}

#[test]
fn per_file_diff_commands_keep_order() {
    let files = vec!["z.rs".to_string(), "a.rs".to_string()];
    let cmds = acm::git::diff_commands(Some(0), &files);
    assert_eq!(cmds.len(), 2);
    assert_eq!(cmds[0].args(), vec!["diff", "--cached", "--unified=0", "--", "z.rs"]);
    assert_eq!(cmds[1].args(), vec!["diff", "--cached", "--unified=0", "--", "a.rs"]);
}

#[test]
fn commit_creates_commit() {
    assert_eq!(
        GitCommand::Commit("my test commit message".to_string()).args(),
        vec!["commit", "-m", "my test commit message"]
    );
}

#[test]
fn staged_diff_returns_diff() {
    assert_eq!(staged_diff(None).args(), vec!["diff", "--cached"]);
    let out = git_result(
        &staged_diff(None),
        GitRun { success: true, stdout: "+hello world\n".into(), stderr: String::new() },
    );
    assert!(out.unwrap().contains("hello world"));
}

#[test]
fn staged_diff_compact_has_no_context_lines() {
    assert_eq!(staged_diff(Some(0)).args(), vec!["diff", "--cached", "--unified=0"]);
}

#[test]
fn staged_stat_ranked_lists_files_in_descending_change_order() {
    let out = "1\t0\tsmall.txt\0".to_string() + "20\t0\tbig.txt\0";
    let stat = staged_stat_ranked(&out);
    let big_pos = stat.find("big.txt").expect("big.txt missing from stat");
    let small_pos = stat.find("small.txt").expect("small.txt missing from stat");
    assert!(big_pos < small_pos, "big.txt should appear before small.txt in ranked stat:\n{stat}");
    assert!(stat.contains("2 files changed"), "stat should include summary line, got:\n{stat}");
}

#[test]
fn staged_diff_for_files_preserves_order() {
    let parts = vec!["diff --git a/zulu.txt b/zulu.txt".to_string(), "diff --git a/alpha.txt b/alpha.txt".to_string()];
    let diff = staged_diff_for_files(&parts);
    let zulu_pos = diff.find("zulu.txt").expect("zulu.txt missing");
    let alpha_pos = diff.find("alpha.txt").expect("alpha.txt missing");
    assert!(zulu_pos < alpha_pos, "diff should respect requested file order, got:\n{diff}");
}

#[test]
fn staged_files_ranked_uses_postimage_path_for_renames() {
    let ranked = staged_files_ranked("0\t0\t\0old.txt\0new.txt\0");
    assert_eq!(ranked, vec!["new.txt".to_string()]);
}

#[test]
fn stat_ranked_marks_low_signal_files() {
    let out = "30\t0\tCargo.lock\0".to_string() + "1\t0\tmain.rs\0";
    let stat = staged_stat_ranked(&out);
    let lock_line = stat.lines().find(|l| l.contains("Cargo.lock")).expect("Cargo.lock missing from stat");
    assert!(lock_line.contains("(low-signal)"), "lockfile line should carry low-signal marker:\n{stat}");
    let main_pos = stat.find("main.rs").unwrap();
    let lock_pos = stat.find("Cargo.lock").unwrap();
    assert!(main_pos < lock_pos, "signal file should outrank bigger lockfile:\n{stat}");
}
