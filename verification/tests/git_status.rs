use visual_git::git::{add_status_entry, parse_porcelain_v2, CliBackend, GitRun, StatusSnapshot};

fn paths(s: &StatusSnapshot) -> Vec<String> {
    s.entries.iter().map(|e| e.path.clone()).collect()
}

fn codes(s: &StatusSnapshot) -> Vec<String> {
    s.entries.iter().map(|e| e.code.clone()).collect()
}

fn sample() -> Vec<u8> {
    let mut out = Vec::new();
    out.extend_from_slice(b"# branch.oid 0123abcd\0");
    out.extend_from_slice(b"# branch.head main\0");
    out.extend_from_slice(b"1 .M N... 100644 100644 100644 aaa bbb src/lib.rs\0");
    out.extend_from_slice(b"2 R. N... 100644 100644 100644 aaa bbb R100 new.rs\0old.rs\0");
    out.extend_from_slice(b"u UU N... 100644 100644 100644 100644 a b c conflict.txt\0");
    out.extend_from_slice(b"? untracked.txt\0");
    out.extend_from_slice(b"! ignored.log\0");
    out
}

fn parse(stdout: &[u8]) -> Result<StatusSnapshot, String> {
    parse_porcelain_v2("/repo", stdout, 1234)
}

#[test]
fn parses_a_full_status() {
    let s = match parse(&sample()) {
        Ok(s) => s,
        Err(e) => panic!("unexpected error: {}", e),
    };
    assert_eq!(s.repo_path, "/repo");
    assert_eq!(s.branch, "main");
    assert_eq!(s.updated_unix_ms, 1234);
    assert_eq!(s.error, "");
    assert!(!s.clean);
    assert_eq!(
        paths(&s),
        vec!["c conflict.txt", "ignored.log", "old.rs -> new.rs", "src/lib.rs", "untracked.txt"]
    );
    assert_eq!(codes(&s), vec!["UU", "!!", "R.", ".M", "??"]);
    assert_eq!(s.staged, 4);
    assert_eq!(s.unstaged, 4);
    assert_eq!(s.untracked, 1);
}

#[test]
fn two_letter_codes_count_both_sides_unless_blank() {
    let s = parse(b"1 M. N... 1 1 1 a b staged.rs\0").ok().unwrap();
    assert_eq!(s.staged, 1);
    assert_eq!(s.unstaged, 1);
    assert_eq!(s.untracked, 0);
}

#[test]
fn codes_that_are_not_two_bytes_are_not_counted() {
    // Two spaces in a row leave a one-letter code and shift the path.
    let s = parse(b"1 M  N... 1 1 1 a b x\0").ok().unwrap();
    assert_eq!(codes(&s), vec!["M"]);
    assert_eq!(paths(&s), vec!["b x"]);
    assert_eq!(s.staged, 0);
    assert_eq!(s.unstaged, 0);
    assert!(!s.clean);
}

#[test]
fn conflict_codes_count_as_staged_and_unstaged() {
    let s = parse(b"u AA N... 1 1 1 1 a b c both.txt\0u DU N... 1 1 1 1 a b c gone.txt\0").ok().unwrap();
    assert_eq!(s.staged, 2);
    assert_eq!(s.unstaged, 2);
}

#[test]
fn detached_and_unknown_heads_are_named() {
    let s = parse(b"# branch.head (detached)\0").ok().unwrap();
    assert_eq!(s.branch, "DETACHED");
    assert!(s.clean);
    assert!(s.entries.is_empty());
    let s = parse(b"# branch.head (unknown)\0").ok().unwrap();
    assert_eq!(s.branch, "UNKNOWN");
}

#[test]
fn empty_output_is_a_clean_detached_status() {
    let s = parse(b"").ok().unwrap();
    assert_eq!(s.branch, "DETACHED");
    assert!(s.clean);
    assert_eq!(s.staged + s.unstaged + s.untracked, 0);
}

#[test]
fn malformed_records_are_reported() {
    assert_eq!(parse(b"1 .M short\0").err().unwrap(), "invalid status record: 1 .M short");
    assert_eq!(parse(b"2 R. x\0").err().unwrap(), "invalid rename/copy record: 2 R. x");
    assert_eq!(parse(b"u UU x\0").err().unwrap(), "invalid unmerged record: u UU x");
    assert_eq!(parse(b"?x\0").err().unwrap(), "invalid untracked record: ?x");
    assert_eq!(parse(b"!x\0").err().unwrap(), "invalid ignored record: !x");
}

#[test]
fn rename_without_original_path_is_reported() {
    assert_eq!(
        parse(b"2 R. N... 1 1 1 a b R100 new.rs").err().unwrap(),
        "missing original path for: 2 R. N... 1 1 1 a b R100 new.rs"
    );
    let s = parse(b"2 R. N... 1 1 1 a b R100 new.rs\0").ok().unwrap();
    assert_eq!(paths(&s), vec![" -> new.rs"]);
}

#[test]
fn equal_paths_keep_their_order() {
    let s = parse(b"? b\0? a\0! a\0").ok().unwrap();
    assert_eq!(paths(&s), vec!["a", "a", "b"]);
    assert_eq!(codes(&s), vec!["??", "!!", "??"]);
}

#[test]
fn undecodable_paths_are_replaced() {
    let s = parse(b"? caf\xff\0").ok().unwrap();
    assert_eq!(paths(&s), vec!["caf\u{FFFD}"]);
}

#[test]
fn unknown_records_are_skipped() {
    let s = parse(b"# branch.upstream origin/main\0# branch.ab +1 -0\0").ok().unwrap();
    assert!(s.clean);
    assert_eq!(s.branch, "DETACHED");
}

#[test]
fn git_that_cannot_start_gives_an_error_snapshot() {
    let b = CliBackend::new();
    let s = b.read_status("/repo", GitRun::NotStarted("No such file or directory".to_string()), 7);
    assert_eq!(s.error, "failed to run git status: No such file or directory");
    assert_eq!(s.branch, "DETACHED");
    assert_eq!(s.repo_path, "/repo");
    assert_eq!(s.updated_unix_ms, 7);
    assert!(!s.clean);
    assert!(s.entries.is_empty());
}

#[test]
fn failed_git_reports_its_trimmed_stderr() {
    let b = CliBackend::new();
    let run = GitRun::Exited {
        success: false,
        status: "exit status: 128".to_string(),
        stdout: Vec::new(),
        stderr: b"  fatal: not a git repository\n".to_vec(),
    };
    let s = b.read_status("/repo", run, 7);
    assert_eq!(s.error, "failed to run git status: fatal: not a git repository");
}

#[test]
fn failed_git_without_stderr_reports_its_exit_status() {
    let b = CliBackend::new();
    let run = GitRun::Exited {
        success: false,
        status: "exit status: 128".to_string(),
        stdout: Vec::new(),
        stderr: b" \n\t".to_vec(),
    };
    let r = b.read_status_inner("/repo", run, 7);
    assert_eq!(r.err().unwrap(), "failed to run git status: git status exited with exit status: 128");
}

#[test]
fn successful_git_output_is_parsed() {
    let b = CliBackend::new();
    let run = GitRun::Exited {
        success: true,
        status: "exit status: 0".to_string(),
        stdout: sample(),
        stderr: Vec::new(),
    };
    let s = b.read_status("/repo", run, 99);
    assert_eq!(s.error, "");
    assert_eq!(s.branch, "main");
    assert_eq!(s.entries.len(), 5);
    assert_eq!(s.updated_unix_ms, 99);
}

#[test]
fn unparsable_git_output_gives_an_error_snapshot() {
    let b = CliBackend::new();
    let run = GitRun::Exited {
        success: true,
        status: "exit status: 0".to_string(),
        stdout: b"? a\0?bad\0".to_vec(),
        stderr: Vec::new(),
    };
    let s = b.read_status("/repo", run, 1);
    assert_eq!(s.error, "invalid untracked record: ?bad");
    assert!(s.entries.is_empty());
    assert!(!s.clean);
}

#[test]
fn the_status_command_asks_for_porcelain_v2() {
    assert_eq!(
        CliBackend::new().status_args(),
        vec!["status", "--porcelain=v2", "--branch", "-z", "--untracked-files=all"]
    );
}

#[test]
fn added_entries_go_to_the_end_and_are_counted() {
    let mut s = parse(b"# branch.head main\0? z\0").ok().unwrap();
    add_status_entry(&mut s, "M.".to_string(), "a.rs".to_string());
    add_status_entry(&mut s, "??".to_string(), "b".to_string());
    add_status_entry(&mut s, "UU".to_string(), "c".to_string());
    assert_eq!(paths(&s), vec!["z", "a.rs", "b", "c"]);
    assert_eq!(codes(&s), vec!["??", "M.", "??", "UU"]);
    assert_eq!((s.staged, s.unstaged, s.untracked), (2, 2, 2));
    assert_eq!(s.branch, "main");
    assert_eq!(s.repo_path, "/repo");
    assert_eq!(s.updated_unix_ms, 1234);
    assert_eq!(s.error, "");
    assert!(!s.clean);
}
