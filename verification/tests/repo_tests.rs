use vcs_prompt::repo::branch_of_contents;
use vcs_prompt::repo::discover_step;
use vcs_prompt::repo::hash_of_output;
use vcs_prompt::repo::parse_branch;
use vcs_prompt::repo::status_of_output;
use vcs_prompt::repo::CommandOutput;
use vcs_prompt::repo::Probe;
use vcs_prompt::repo::ProbeStep;
use vcs_prompt::repo::Repository;
use vcs_prompt::status::GitStatus;

fn bare_handle(root: &str) -> Repository {
    Repository {
        git_dir: format!("{}/.git", root),
        root_dir: root.to_string(),
        branch: None,
        status: None,
        hash: None,
    }
}

/// A scripted collaborator that records how often each probe runs.
struct StubProbe {
    dirs: Vec<String>,
    files: Vec<(String, String)>,
    status_stdout: Option<String>,
    hash_stdout: Option<String>,
    dir_calls: usize,
    read_calls: usize,
    exec_calls: usize,
}

impl StubProbe {
    fn new() -> StubProbe {
        StubProbe {
            dirs: Vec::new(),
            files: Vec::new(),
            status_stdout: None,
            hash_stdout: None,
            dir_calls: 0,
            read_calls: 0,
            exec_calls: 0,
        }
    }
}

impl Probe for StubProbe {
    fn dir_exists(&mut self, path: &str) -> bool {
        self.dir_calls += 1;
        self.dirs.iter().any(|d| d == path)
    }

    fn read_file(&mut self, path: &str) -> Option<String> {
        self.read_calls += 1;
        self.files.iter().find(|(p, _)| p == path).map(|(_, c)| c.clone())
    }

    fn exec(&mut self, _program: &str, args: &Vec<String>) -> Option<CommandOutput> {
        self.exec_calls += 1;
        let stdout = if args.iter().any(|a| a == "status") {
            self.status_stdout.clone()
        } else {
            self.hash_stdout.clone()
        };
        stdout.map(|s| CommandOutput { stdout: s, exit_code: 0 })
    }
}

#[test]
fn discover_finds_nothing_without_metadata() {
    let mut probe = StubProbe::new();
    assert!(Repository::discover("/home/user/project/src", &mut probe).is_none());
}

#[test]
fn discover_returns_the_ancestor_with_metadata_at_any_depth() {
    // at the directory itself
    let mut probe = StubProbe::new();
    probe.dirs.push("/home/user/project/.git".to_string());
    let repo = Repository::discover("/home/user/project", &mut probe).unwrap();
    assert_eq!(repo.root_dir, "/home/user/project");
    assert_eq!(repo.git_dir, "/home/user/project/.git");

    // two levels down
    let mut probe = StubProbe::new();
    probe.dirs.push("/home/user/project/.git".to_string());
    let repo = Repository::discover("/home/user/project/src/deep", &mut probe).unwrap();
    assert_eq!(repo.root_dir, "/home/user/project");

    // five levels down
    let mut probe = StubProbe::new();
    probe.dirs.push("/home/user/project/.git".to_string());
    let repo = Repository::discover("/home/user/project/a/b/c/d/e", &mut probe).unwrap();
    assert_eq!(repo.root_dir, "/home/user/project");
}

#[test]
fn discover_prefers_the_nearest_ancestor() {
    let mut probe = StubProbe::new();
    probe.dirs.push("/outer/.git".to_string());
    probe.dirs.push("/outer/inner/.git".to_string());
    let repo = Repository::discover("/outer/inner/src", &mut probe).unwrap();
    assert_eq!(repo.root_dir, "/outer/inner");
}

#[test]
fn branch_reads_the_head_reference_file() {
    assert_eq!(parse_branch("ref: refs/heads/main\n"), "main");
    assert_eq!(parse_branch(""), "HEAD");
    assert_eq!(parse_branch("no slash at all"), "HEAD");
    assert_eq!(parse_branch("ref: refs/heads/feature/nested\n"), "nested");

    let mut probe = StubProbe::new();
    probe.dirs.push("/repo/.git".to_string());
    probe
        .files
        .push(("/repo/.git/HEAD".to_string(), "ref: refs/heads/main\n".to_string()));
    let mut repo = Repository::discover("/repo", &mut probe).unwrap();
    assert_eq!(repo.branch(&mut probe), "main");
}

#[test]
fn branch_trimming_covers_all_unicode_whitespace() {
    assert_eq!(parse_branch("ref: refs/heads/main\u{b}"), "main");
    assert_eq!(parse_branch("ref: refs/heads/main\u{c}"), "main");
    assert_eq!(parse_branch("ref: refs/heads/main\u{a0}\u{2028}"), "main");
    assert_eq!(parse_branch("ref: refs/heads/main \t\r\n"), "main");
    // whitespace inside the name stays
    assert_eq!(parse_branch("ref: refs/heads/a b\n"), "a b");
}

#[test]
fn discover_only_matches_whole_path_components() {
    // metadata under /a/b must not be found from /a/bc: the walk probes
    // /a/bc/.git, /a/.git and /.git, never /a/b/.git
    let mut probe = StubProbe::new();
    probe.dirs.push("/a/b/.git".to_string());
    assert!(Repository::discover("/a/bc", &mut probe).is_none());
}

#[test]
fn branch_falls_back_when_the_file_is_unreadable() {
    let mut probe = StubProbe::new();
    probe.dirs.push("/repo/.git".to_string());
    let mut repo = Repository::discover("/repo", &mut probe).unwrap();
    assert_eq!(repo.branch(&mut probe), "HEAD");
    // the fallback is cached like any other result
    assert_eq!(repo.branch(&mut probe), "HEAD");
    assert_eq!(probe.read_calls, 1);
}

#[test]
fn status_runs_the_external_command_at_most_once() {
    let mut probe = StubProbe::new();
    probe.dirs.push("/repo/.git".to_string());
    probe.status_stdout = Some(" M a\n?? b\n".to_string());
    let mut repo = Repository::discover("/repo", &mut probe).unwrap();

    let first = repo.status(&mut probe);
    assert_eq!(probe.exec_calls, 1);
    let second = repo.status(&mut probe);
    assert_eq!(probe.exec_calls, 1);
    assert_eq!(first, second);
    assert_eq!(first.modified, 1);
    assert_eq!(first.untracked, 1);
}

#[test]
fn status_defaults_to_all_zero_on_command_failure() {
    let mut probe = StubProbe::new();
    probe.dirs.push("/repo/.git".to_string());
    let mut repo = Repository::discover("/repo", &mut probe).unwrap();
    let status = repo.status(&mut probe);
    assert_eq!(status, Default::default());
}

#[test]
fn hash_is_memoized_too() {
    let mut probe = StubProbe::new();
    probe.dirs.push("/repo/.git".to_string());
    probe.hash_stdout = Some("0123abcd\n".to_string());
    let mut repo = Repository::discover("/repo", &mut probe).unwrap();

    let first = repo.hash(&mut probe);
    assert_eq!(probe.exec_calls, 1);
    let second = repo.hash(&mut probe);
    assert_eq!(probe.exec_calls, 1);
    assert_eq!(first.as_deref(), Some("0123abcd\n"));
    assert_eq!(first, second);
}

#[test]
fn the_status_command_line_is_fixed_by_contract() {
    let repo = bare_handle("/repo");
    let args = repo.status_args();
    assert_eq!(args, vec!["--git-dir", "/repo/.git", "status", "--porcelain"]);
    let args = repo.hash_args();
    assert_eq!(args, vec!["--git-dir", "/repo/.git", "rev-parse", "HEAD"]);
    assert_eq!(repo.head_file_path(), "/repo/.git/HEAD");
}

#[test]
fn status_outcomes_map_to_parse_or_default() {
    let ok = CommandOutput { stdout: " M a\n?? b\n".to_string(), exit_code: 0 };
    let parsed = status_of_output(Some(ok));
    assert_eq!(parsed.modified, 1);
    assert_eq!(parsed.untracked, 1);

    let failed = CommandOutput { stdout: " M a\n".to_string(), exit_code: 1 };
    assert_eq!(status_of_output(Some(failed)), GitStatus::default());
    assert_eq!(status_of_output(None), GitStatus::default());
}

#[test]
fn hash_outcomes_map_to_stdout_or_nothing() {
    let ok = CommandOutput { stdout: "0123abcd\n".to_string(), exit_code: 0 };
    assert_eq!(hash_of_output(Some(ok)).as_deref(), Some("0123abcd\n"));

    let failed = CommandOutput { stdout: "fatal\n".to_string(), exit_code: 128 };
    assert_eq!(hash_of_output(Some(failed)), None);
    assert_eq!(hash_of_output(None), None);
}

#[test]
fn branch_outcomes_map_to_the_name_or_the_fallback() {
    assert_eq!(branch_of_contents(Some("ref: refs/heads/main\n".to_string())), "main");
    assert_eq!(branch_of_contents(Some("".to_string())), "HEAD");
    assert_eq!(branch_of_contents(None), "HEAD");
}

#[test]
fn one_walk_step_finds_ascends_or_gives_up() {
    match discover_step("/a/b".to_string(), true) {
        ProbeStep::Found(repo) => {
            assert_eq!(repo.root_dir, "/a/b");
            assert_eq!(repo.git_dir, "/a/b/.git");
            assert!(repo.branch.is_none() && repo.status.is_none() && repo.hash.is_none());
        }
        other => panic!("expected a handle, got {:?}", other),
    }
    match discover_step("/a/b".to_string(), false) {
        ProbeStep::Ascend(next) => assert_eq!(next, "/a"),
        other => panic!("expected an ascent, got {:?}", other),
    }
    match discover_step("/a".to_string(), false) {
        ProbeStep::Ascend(next) => assert_eq!(next, "/"),
        other => panic!("expected an ascent to the root, got {:?}", other),
    }
    match discover_step("/".to_string(), false) {
        ProbeStep::Exhausted => {}
        other => panic!("expected the walk to end, got {:?}", other),
    }
    match discover_step("relative".to_string(), false) {
        ProbeStep::Exhausted => {}
        other => panic!("expected the walk to end, got {:?}", other),
    }
}

#[test]
fn hash_is_nothing_when_the_command_fails() {
    let mut probe = StubProbe::new();
    probe.dirs.push("/repo/.git".to_string());
    let mut repo = Repository::discover("/repo", &mut probe).unwrap();
    assert_eq!(repo.hash(&mut probe), None);
}
