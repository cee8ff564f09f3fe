use vcs_prompt::status::parse_porcelain_output;
use vcs_prompt::status::increment_git_status;
use vcs_prompt::status::GitStatus;

#[test]
fn test_parse_empty_porcelain_output() {
    let output = parse_porcelain_output("");

    let expected: GitStatus = Default::default();
    assert_eq!(output, expected);
}

#[test]
fn test_parse_porcelain_output() {
    let output = parse_porcelain_output(
        "M src/prompt.rs
MM src/main.rs
A src/formatter.rs
? README.md",
    );

    let expected = GitStatus {
        modified: 2,
        added: 1,
        untracked: 1,
        ..Default::default()
    };
    assert_eq!(output, expected);
}

#[test]
fn untracked_marker_is_not_a_conflict() {
    let output = parse_porcelain_output("M a\nMM b\nA c\n?? d\n");

    let expected = GitStatus {
        modified: 2,
        added: 1,
        untracked: 1,
        ..Default::default()
    };
    assert_eq!(output, expected);
}

#[test]
fn merge_conflict_codes_count_once() {
    let output = parse_porcelain_output("UU one\nAA two\nDD three\n");

    let expected = GitStatus {
        conflicted: 3,
        ..Default::default()
    };
    assert_eq!(output, expected);
}

#[test]
fn worktree_column_decides_when_both_are_set() {
    // index says added, worktree says modified: the worktree letter counts.
    let output = parse_porcelain_output("AM staged_then_edited\n D gone\nR  moved\n");

    let expected = GitStatus {
        modified: 1,
        deleted: 1,
        renamed: 1,
        ..Default::default()
    };
    assert_eq!(output, expected);
}

#[test]
fn unknown_codes_and_blank_lines_are_ignored() {
    let output = parse_porcelain_output("ZZ strange\n\n!! ignored\nM known\n");

    let expected = GitStatus {
        modified: 1,
        ..Default::default()
    };
    assert_eq!(output, expected);
}

#[test]
fn count_sum_matches_classified_lines() {
    // four non-empty lines, one of which matches no rule; a conflict line
    // counts once, so the counts sum to three.
    let s = parse_porcelain_output("UU x\nM y\nZZ z\n?? w\n");
    let total = s.untracked + s.added + s.modified + s.renamed + s.deleted + s.stashed
        + s.unmerged + s.ahead + s.behind + s.diverged + s.conflicted + s.staged;
    assert_eq!(total, 3);
    assert_eq!(s.conflicted, 1);
    assert_eq!(s.modified, 1);
    assert_eq!(s.untracked, 1);
}

#[test]
fn increment_follows_the_letter_table() {
    let mut s = GitStatus::default();
    increment_git_status(&mut s, 'A');
    increment_git_status(&mut s, 'C');
    increment_git_status(&mut s, 'M');
    increment_git_status(&mut s, 'U');
    increment_git_status(&mut s, 'D');
    increment_git_status(&mut s, 'R');
    increment_git_status(&mut s, '?');
    increment_git_status(&mut s, 'z');
    let expected = GitStatus {
        added: 2,
        modified: 2,
        deleted: 1,
        renamed: 1,
        untracked: 1,
        ..Default::default()
    };
    assert_eq!(s, expected);
}
