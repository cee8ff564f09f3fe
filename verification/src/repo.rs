//! The repository probe: locates the nearest version-controlled directory
//! above a path, and memoizes branch name, commit hash and status summary,
//! each computed at most once per handle.

use vstd::prelude::*;

use crate::status::CountsV;
use crate::status::GitStatus;
use crate::status::lemma_parsed_counts_listing_only;
use crate::status::parse_porcelain_output;
use crate::status::parsed_counts;
use crate::status::zero_counts;

verus! {

/// What one external command run returned.
#[derive(Debug)]
pub struct CommandOutput {
    pub stdout: String,
    pub exit_code: i32,
}

/// The outside world as the repository logic sees it: directory probes,
/// small file reads, and external command runs. Supplied by the caller;
/// nothing is assumed of what it answers.
pub trait Probe {
    /// Whether a directory exists at `path`.
    fn dir_exists(&mut self, path: &str) -> bool;

    /// The contents of the text file at `path`, or nothing if unreadable.
    fn read_file(&mut self, path: &str) -> Option<String>;

    /// Run an external command and capture it, or nothing on spawn failure.
    fn exec(&mut self, program: &str, args: &Vec<String>) -> Option<CommandOutput>;
}

/// Index of the last occurrence of `c` in `s`, or -1 if there is none.
pub open spec fn find_last(s: Seq<char>, c: char) -> int
    decreases s.len(),
{
    if s.len() == 0 {
        -1
    } else if s[s.len() - 1] == c {
        s.len() - 1
    } else {
        find_last(s.subrange(0, s.len() - 1), c)
    }
}

pub proof fn lemma_find_last(s: Seq<char>, c: char)
    ensures
        find_last(s, c) == -1 ==> forall|i: int| 0 <= i < s.len() ==> s[i] != c,
        find_last(s, c) != -1 ==> 0 <= find_last(s, c) < s.len() && s[find_last(s, c)] == c,
        find_last(s, c) != -1 ==> forall|i: int| find_last(s, c) < i < s.len() ==> s[i] != c,
    decreases s.len(),
{
    if s.len() == 0 {
    } else if s[s.len() - 1] == c {
    } else {
        let t = s.subrange(0, s.len() - 1);
        lemma_find_last(t, c);
        assert(forall|i: int| 0 <= i < t.len() ==> t[i] == s[i]);
    }
}

/// One past the index of the last slash: 0 when there is none.
fn last_slash_end(s: &str, n: usize) -> (j: usize)
    requires
        n == s@.len(),
    ensures
        j <= n,
        j == 0 ==> find_last(s@, '/') == -1,
        j > 0 ==> find_last(s@, '/') == j - 1,
{
    proof {
        lemma_find_last(s@, '/');
    }
    let mut j = n;
    while j > 0 && s.get_char(j - 1) != '/'
        invariant
            n == s@.len(),
            j <= n,
            forall|k: int| j <= k < n ==> s@[k] != '/',
        decreases j,
    {
        j -= 1;
    }
    proof {
        let f = find_last(s@, '/');
        if j > 0 {
            assert(s@[j - 1] == '/');
            assert(f != -1);
            if f < j - 1 {
                assert(s@[j - 1] != '/');
                assert(false);
            }
            if f > j - 1 {
                assert(s@[f] != '/');
                assert(false);
            }
        } else {
            if f != -1 {
                assert(s@[f] != '/');
                assert(false);
            }
        }
    }
    j
}

/// The parent directory of a path, in the string model of paths: everything
/// before the last slash; the root and slash-less paths have no parent.
pub open spec fn spec_parent(p: Seq<char>) -> Option<Seq<char>> {
    let i = find_last(p, '/');
    if !(0 <= i < p.len()) {
        None
    } else if i == 0 {
        if p.len() == 1 {
            None
        } else {
            Some(seq!['/'])
        }
    } else {
        Some(p.subrange(0, i))
    }
}

/// Whether `a` is a leading piece of `b`.
pub open spec fn is_path_prefix(a: Seq<char>, b: Seq<char>) -> bool {
    a.len() <= b.len() && a == b.subrange(0, a.len() as int)
}

fn parent_of(p: &str) -> (r: Option<String>)
    ensures
        r matches Some(q) ==> spec_parent(p@) == Some(q@) && q@.len() < p@.len() && is_path_prefix(
            q@,
            p@,
        ) && (q@ == seq!['/'] || p@[q@.len() as int] == '/'),
        r is None ==> spec_parent(p@) is None,
{
    let n = p.unicode_len();
    let j = last_slash_end(p, n);
    proof {
        lemma_find_last(p@, '/');
    }
    if j == 0 {
        None
    } else if j == 1 {
        if n == 1 {
            None
        } else {
            let root = String::from_str(p.substring_char(0, 1));
            proof {
                assert(p@[0] == '/');
                assert(root@ =~= seq!['/']);
                assert(root@ =~= p@.subrange(0, 1));
            }
            Some(root)
        }
    } else {
        let q = String::from_str(p.substring_char(0, j - 1));
        proof {
            assert(q@ =~= p@.subrange(0, j - 1));
        }
        Some(q)
    }
}

/// A point-in-time handle on one working tree: where its metadata
/// directory and root are, and the lazily computed, memoized fields.
#[derive(Debug)]
pub struct Repository {
    pub git_dir: String,
    pub root_dir: String,
    pub branch: Option<String>,
    pub status: Option<GitStatus>,
    pub hash: Option<Option<String>>,
}

pub open spec fn strings_view(v: Seq<String>) -> Seq<Seq<char>> {
    v.map_values(|s: String| s@)
}

/// The external tool every command runs through.
pub fn vcs_program() -> (r: &'static str)
    ensures
        r@ == "git"@,
{
    "git"
}

/// The argument list of the porcelain status command, scoped to one
/// metadata directory.
pub open spec fn spec_status_args(git_dir: Seq<char>) -> Seq<Seq<char>> {
    seq!["--git-dir"@, git_dir, "status"@, "--porcelain"@]
}

/// The argument list of the head-resolving command, scoped to one
/// metadata directory.
pub open spec fn spec_hash_args(git_dir: Seq<char>) -> Seq<Seq<char>> {
    seq!["--git-dir"@, git_dir, "rev-parse"@, "HEAD"@]
}

/// What the status command's outcome denotes: a run that exited zero has
/// its listing parsed; a spawn failure or nonzero exit is recovered as the
/// all-zero default.
pub open spec fn spec_status_outcome(out: Option<CommandOutput>) -> CountsV {
    match out {
        Some(o) => if o.exit_code == 0 {
            parsed_counts(o.stdout@)
        } else {
            zero_counts()
        },
        None => zero_counts(),
    }
}

/// Map the status command's outcome to the summary it denotes.
pub fn status_of_output(out: Option<CommandOutput>) -> (r: GitStatus)
    ensures
        r@ == spec_status_outcome(out),
        r@.stashed == 0,
        r@.unmerged == 0,
        r@.ahead == 0,
        r@.behind == 0,
        r@.diverged == 0,
        r@.staged == 0,
{
    match out {
        Some(o) => {
            if o.exit_code == 0 {
                let parsed = parse_porcelain_output(o.stdout.as_str());
                proof {
                    lemma_parsed_counts_listing_only(o.stdout@);
                }
                parsed
            } else {
                GitStatus::default()
            }
        },
        None => GitStatus::default(),
    }
}

/// What the head-resolving command's outcome denotes: the captured output
/// on a zero exit, nothing on any failure.
pub open spec fn spec_hash_outcome(out: Option<CommandOutput>) -> Option<Seq<char>> {
    match out {
        Some(o) => if o.exit_code == 0 {
            Some(o.stdout@)
        } else {
            None
        },
        None => None,
    }
}

/// Map the head-resolving command's outcome to the identifier it denotes.
pub fn hash_of_output(out: Option<CommandOutput>) -> (r: Option<String>)
    ensures
        r matches Some(s) ==> spec_hash_outcome(out) == Some(s@),
        r is None ==> spec_hash_outcome(out) is None,
{
    match out {
        Some(o) => {
            if o.exit_code == 0 {
                Some(o.stdout)
            } else {
                None
            }
        },
        None => None,
    }
}

/// What a head-reference read's outcome denotes: the branch name the
/// contents hold, or the detached-head fallback when the file was
/// unreadable.
pub open spec fn spec_branch_outcome(contents: Option<String>) -> Seq<char> {
    match contents {
        Some(c) => spec_branch_of(c@),
        None => seq!['H', 'E', 'A', 'D'],
    }
}

/// Map a head-reference read's outcome to the branch name it denotes.
pub fn branch_of_contents(contents: Option<String>) -> (r: String)
    ensures
        r@ == spec_branch_outcome(contents),
{
    match contents {
        Some(c) => parse_branch(c.as_str()),
        None => {
            let r = String::from_str("HEAD");
            proof {
                reveal_strlit("HEAD");
                assert(r@ =~= seq!['H', 'E', 'A', 'D']);
            }
            r
        },
    }
}

/// The directory tested at each level of the upward walk: the candidate's
/// metadata child.
pub fn metadata_dir_path(candidate: &String) -> (r: String)
    ensures
        r@ == candidate@ + "/.git"@,
{
    candidate.clone().concat("/.git")
}

/// What one step of the upward walk decides.
#[derive(Debug)]
pub enum ProbeStep {
    /// The candidate holds a metadata child: the finished handle.
    Found(Repository),
    /// No metadata here: continue at the candidate's parent.
    Ascend(String),
    /// No metadata here and no parent left: the walk is over.
    Exhausted,
}

/// Decide one step of the walk, given the current candidate and whether
/// the probe found a metadata directory under it: a hit yields a fresh
/// handle rooted there; a miss ascends to the parent per `spec_parent`,
/// or ends the walk at the top of the chain.
pub fn discover_step(candidate: String, has_metadata: bool) -> (r: ProbeStep)
    ensures
        has_metadata ==> (r matches ProbeStep::Found(repo) && repo.root_dir@ == candidate@
            && repo.git_dir@ == candidate@ + "/.git"@ && repo.branch is None && repo.status is None
            && repo.hash is None),
        !has_metadata ==> (match spec_parent(candidate@) {
            Some(p) => r matches ProbeStep::Ascend(q) && q@ == p && q@.len() < candidate@.len()
                && is_path_prefix(q@, candidate@) && (q@ == seq!['/'] || candidate@[q@.len() as int]
                == '/'),
            None => r is Exhausted,
        }),
{
    if has_metadata {
        let git_dir = metadata_dir_path(&candidate);
        ProbeStep::Found(
            Repository { git_dir, root_dir: candidate, branch: None, status: None, hash: None },
        )
    } else {
        match parent_of(candidate.as_str()) {
            Some(q) => ProbeStep::Ascend(q),
            None => ProbeStep::Exhausted,
        }
    }
}

impl Repository {
    /// The argument list handed to the external tool for the status probe.
    pub fn status_args(&self) -> (r: Vec<String>)
        ensures
            strings_view(r@) == spec_status_args(self.git_dir@),
    {
        let mut args: Vec<String> = Vec::new();
        args.push(String::from_str("--git-dir"));
        args.push(self.git_dir.clone());
        args.push(String::from_str("status"));
        args.push(String::from_str("--porcelain"));
        proof {
            assert(strings_view(args@) =~= spec_status_args(self.git_dir@));
        }
        args
    }

    /// The argument list handed to the external tool to resolve the head
    /// to a commit identifier.
    pub fn hash_args(&self) -> (r: Vec<String>)
        ensures
            strings_view(r@) == spec_hash_args(self.git_dir@),
    {
        let mut args: Vec<String> = Vec::new();
        args.push(String::from_str("--git-dir"));
        args.push(self.git_dir.clone());
        args.push(String::from_str("rev-parse"));
        args.push(String::from_str("HEAD"));
        proof {
            assert(strings_view(args@) =~= spec_hash_args(self.git_dir@));
        }
        args
    }

    /// The path of the head-reference file read on first branch access.
    pub fn head_file_path(&self) -> (r: String)
        ensures
            r@ == self.git_dir@ + "/HEAD"@,
    {
        self.git_dir.clone().concat("/HEAD")
    }

    /// Walk upward from `path` through its ancestors, inclusive, and return
    /// a fresh handle rooted at the first directory that has a metadata
    /// directory as a direct child; nothing when the walk exhausts the
    /// ancestor chain. At each level the probe is asked for
    /// `metadata_dir_path` of the candidate, and its answer is turned into
    /// the next move by `discover_step`, whose contract fixes both the
    /// handle a hit yields and the parent a miss ascends to. A returned
    /// root is a whole-component ancestor: the path itself, the root
    /// directory, or a prefix that the path continues with a slash.
    pub fn discover<P: Probe>(path: &str, probe: &mut P) -> (r: Option<Repository>)
        ensures
            r matches Some(repo) ==> is_path_prefix(repo.root_dir@, path@) && repo.git_dir@
                == repo.root_dir@ + "/.git"@ && repo.branch is None && repo.status is None
                && repo.hash is None && (repo.root_dir@ == path@ || repo.root_dir@ == seq!['/'] || (
            repo.root_dir@.len() < path@.len() && path@[repo.root_dir@.len() as int] == '/')),
    {
        let mut cur = String::from_str(path);
        proof {
            assert(path@.subrange(0, path@.len() as int) =~= path@);
        }
        loop
            invariant
                is_path_prefix(cur@, path@),
                cur@ == path@ || cur@ == seq!['/'] || (cur@.len() < path@.len() && path@[cur@.len() as int]
                    == '/'),
            decreases cur@.len(),
        {
            let probe_path = metadata_dir_path(&cur);
            let has_metadata = probe.dir_exists(probe_path.as_str());
            match discover_step(cur, has_metadata) {
                ProbeStep::Found(repo) => {
                    return Some(repo);
                },
                ProbeStep::Ascend(next) => {
                    proof {
                        assert(next@ =~= path@.subrange(0, next@.len() as int));
                    }
                    cur = next;
                },
                ProbeStep::Exhausted => {
                    return None;
                },
            }
        }
    }

    /// Cached branch name, computed on first call by reading the
    /// head-reference file at `head_file_path` through the probe and
    /// mapping the outcome through `branch_of_contents`: the name the
    /// contents hold, or `"HEAD"` when the file is unreadable or holds no
    /// slash. Once cached, later calls return the same name and touch
    /// neither the handle nor the probe.
    pub fn branch<P: Probe>(&mut self, probe: &mut P) -> (r: String)
        ensures
            final(self).branch == Some(r),
            final(self).git_dir == old(self).git_dir,
            final(self).root_dir == old(self).root_dir,
            final(self).status == old(self).status,
            final(self).hash == old(self).hash,
            old(self).branch matches Some(b) ==> r == b && *final(self) == *old(self)
                && *final(probe) == *old(probe),
    {
        match &self.branch {
            Some(b) => b.clone(),
            None => {
                let head_path = self.head_file_path();
                let contents = probe.read_file(head_path.as_str());
                let b = branch_of_contents(contents);
                self.branch = Some(b.clone());
                b
            },
        }
    }

    /// Cached status summary, computed on first call by running
    /// `vcs_program` with `status_args` (the porcelain status command,
    /// scoped to this handle's metadata directory) through the probe and
    /// mapping the outcome through `status_of_output`: a zero exit has its
    /// listing parsed, any failure is recovered as the all-zero default.
    /// Once cached, later calls return the same summary and touch neither
    /// the handle nor the probe. Only the listing categories are ever set.
    pub fn status<P: Probe>(&mut self, probe: &mut P) -> (r: GitStatus)
        ensures
            final(self).status == Some(r),
            final(self).git_dir == old(self).git_dir,
            final(self).root_dir == old(self).root_dir,
            final(self).branch == old(self).branch,
            final(self).hash == old(self).hash,
            old(self).status matches Some(s) ==> r == s && *final(self) == *old(self)
                && *final(probe) == *old(probe),
            old(self).status is None ==> r@.stashed == 0 && r@.unmerged == 0 && r@.ahead == 0
                && r@.behind == 0 && r@.diverged == 0 && r@.staged == 0,
    {
        match &self.status {
            Some(s) => *s,
            None => {
                let args = self.status_args();
                let out = probe.exec(vcs_program(), &args);
                let s = status_of_output(out);
                self.status = Some(s);
                s
            },
        }
    }

    /// Cached commit identifier, computed on first call by running
    /// `vcs_program` with `hash_args` (the head-resolving command) through
    /// the probe and mapping the outcome through `hash_of_output`: the
    /// captured output on a zero exit, nothing on any failure. Once
    /// cached, later calls return the same value and touch neither the
    /// handle nor the probe.
    pub fn hash<P: Probe>(&mut self, probe: &mut P) -> (r: Option<String>)
        ensures
            final(self).hash == Some(r),
            final(self).git_dir == old(self).git_dir,
            final(self).root_dir == old(self).root_dir,
            final(self).branch == old(self).branch,
            final(self).status == old(self).status,
            old(self).hash matches Some(h) ==> r == h && *final(self) == *old(self)
                && *final(probe) == *old(probe),
    {
        match &self.hash {
            Some(h) => clone_opt_string(h),
            None => {
                let args = self.hash_args();
                let out = probe.exec(vcs_program(), &args);
                let h = hash_of_output(out);
                self.hash = Some(clone_opt_string(&h));
                h
            },
        }
    }
}

fn clone_opt_string(o: &Option<String>) -> (r: Option<String>)
    ensures
        r == *o,
{
    match o {
        Some(x) => Some(x.clone()),
        None => None,
    }
}

/// The characters trimmed from the end of the branch name: the Unicode
/// white-space set (the `White_Space` property), the set trailing-whitespace
/// trimming removes.
pub open spec fn is_trim_space(c: char) -> bool {
    let u = c as u32;
    (0x9 <= u && u <= 0xd) || u == 0x20 || u == 0x85 || u == 0xa0 || u == 0x1680 || (0x2000 <= u
        && u <= 0x200a) || u == 0x2028 || u == 0x2029 || u == 0x202f || u == 0x205f || u == 0x3000
}

/// Length of `s` once trailing whitespace is dropped.
pub open spec fn trim_end_len(s: Seq<char>) -> nat
    decreases s.len(),
{
    if s.len() == 0 {
        0
    } else if is_trim_space(s[s.len() - 1]) {
        trim_end_len(s.subrange(0, s.len() - 1))
    } else {
        s.len()
    }
}

pub proof fn lemma_trim_end(s: Seq<char>)
    ensures
        trim_end_len(s) <= s.len(),
        forall|k: int| trim_end_len(s) <= k < s.len() ==> is_trim_space(s[k]),
        trim_end_len(s) > 0 ==> !is_trim_space(s[trim_end_len(s) - 1]),
    decreases s.len(),
{
    if s.len() == 0 {
    } else if is_trim_space(s[s.len() - 1]) {
        let t = s.subrange(0, s.len() - 1);
        lemma_trim_end(t);
        assert(forall|k: int| 0 <= k < t.len() ==> t[k] == s[k]);
    } else {
    }
}

/// The branch name a head-reference file denotes: everything after the
/// last slash, trimmed of trailing whitespace; `HEAD` when the contents
/// hold no slash at all.
pub open spec fn spec_branch_of(head: Seq<char>) -> Seq<char> {
    let i = find_last(head, '/');
    if !(0 <= i < head.len()) {
        seq!['H', 'E', 'A', 'D']
    } else {
        let tail = head.subrange(i + 1, head.len() as int);
        tail.subrange(0, trim_end_len(tail) as int)
    }
}

/// Extract the branch name from the contents of a head-reference file.
pub fn parse_branch(head: &str) -> (r: String)
    ensures
        r@ == spec_branch_of(head@),
{
    let n = head.unicode_len();
    let j = last_slash_end(head, n);
    proof {
        lemma_find_last(head@, '/');
    }
    if j == 0 {
        let r = String::from_str("HEAD");
        proof {
            reveal_strlit("HEAD");
            assert(r@ =~= seq!['H', 'E', 'A', 'D']);
        }
        r
    } else {
        let ghost tail = head@.subrange(j as int, n as int);
        proof {
            lemma_trim_end(tail);
            assert(forall|k: int| 0 <= k < tail.len() ==> tail[k] == head@[j + k]);
        }
        let mut e = n;
        while e > j && is_trim_space_exec(head.get_char(e - 1))
            invariant
                n == head@.len(),
                j <= e <= n,
                forall|k: int| e <= k < n ==> is_trim_space(head@[k]),
            decreases e,
        {
            e -= 1;
        }
        proof {
            let t = trim_end_len(tail) as int;
            if t < e - j {
                assert(is_trim_space(tail[e - j - 1]));
                assert(!is_trim_space(head@[e - 1]));
                assert(false);
            }
            if t > e - j {
                assert(!is_trim_space(tail[t - 1]));
                assert(is_trim_space(head@[j + t - 1]));
                assert(false);
            }
        }
        let r = String::from_str(head.substring_char(j, e));
        proof {
            assert(r@ =~= tail.subrange(0, trim_end_len(tail) as int));
        }
        r
    }
}

fn is_trim_space_exec(c: char) -> (r: bool)
    ensures
        r == is_trim_space(c),
{
    let u = c as u32;
    (0x9 <= u && u <= 0xd) || u == 0x20 || u == 0x85 || u == 0xa0 || u == 0x1680 || (0x2000 <= u
        && u <= 0x200a) || u == 0x2028 || u == 0x2029 || u == 0x202f || u == 0x205f || u == 0x3000
}

} // verus!
