//! Categorized counts parsed from a porcelain status listing.
//!
//! Each line of the listing starts with a two-character status code
//! (index status, worktree status). Every line contributes to at most one
//! category; lines whose code matches no rule are ignored.

use vstd::prelude::*;

verus! {

/// Categorized, non-negative counts summarizing one status listing.
#[derive(Clone, Copy, Debug, PartialEq, Eq, Structural)]
pub struct GitStatus {
    pub untracked: usize,
    pub added: usize,
    pub modified: usize,
    pub renamed: usize,
    pub deleted: usize,
    pub stashed: usize,
    pub unmerged: usize,
    pub ahead: usize,
    pub behind: usize,
    pub diverged: usize,
    pub conflicted: usize,
    pub staged: usize,
}

/// Mathematical model of a `GitStatus`: the same counts, as naturals.
pub ghost struct CountsV {
    pub untracked: nat,
    pub added: nat,
    pub modified: nat,
    pub renamed: nat,
    pub deleted: nat,
    pub stashed: nat,
    pub unmerged: nat,
    pub ahead: nat,
    pub behind: nat,
    pub diverged: nat,
    pub conflicted: nat,
    pub staged: nat,
}

impl View for GitStatus {
    type V = CountsV;

    open spec fn view(&self) -> CountsV {
        CountsV {
            untracked: self.untracked as nat,
            added: self.added as nat,
            modified: self.modified as nat,
            renamed: self.renamed as nat,
            deleted: self.deleted as nat,
            stashed: self.stashed as nat,
            unmerged: self.unmerged as nat,
            ahead: self.ahead as nat,
            behind: self.behind as nat,
            diverged: self.diverged as nat,
            conflicted: self.conflicted as nat,
            staged: self.staged as nat,
        }
    }
}

pub open spec fn zero_counts() -> CountsV {
    CountsV {
        untracked: 0,
        added: 0,
        modified: 0,
        renamed: 0,
        deleted: 0,
        stashed: 0,
        unmerged: 0,
        ahead: 0,
        behind: 0,
        diverged: 0,
        conflicted: 0,
        staged: 0,
    }
}

impl Default for GitStatus {
    /// The all-zero summary, used when no listing is available.
    fn default() -> (r: Self)
        ensures
            r@ == zero_counts(),
    {
        GitStatus {
            untracked: 0,
            added: 0,
            modified: 0,
            renamed: 0,
            deleted: 0,
            stashed: 0,
            unmerged: 0,
            ahead: 0,
            behind: 0,
            diverged: 0,
            conflicted: 0,
            staged: 0,
        }
    }
}

/// The categories a single listing line can contribute to.
pub ghost enum Category {
    Untracked,
    Added,
    Modified,
    Renamed,
    Deleted,
    Conflicted,
}

/// The fixed single-letter table: which category one status letter feeds.
pub open spec fn letter_category(c: char) -> Option<Category> {
    if c == 'A' {
        Some(Category::Added)
    } else if c == 'M' {
        Some(Category::Modified)
    } else if c == 'D' {
        Some(Category::Deleted)
    } else if c == 'R' {
        Some(Category::Renamed)
    } else if c == 'C' {
        // a copy is treated as an addition
        Some(Category::Added)
    } else if c == 'U' {
        // unresolved merge marker
        Some(Category::Modified)
    } else if c == '?' {
        Some(Category::Untracked)
    } else {
        None
    }
}

/// Classification of one two-character code pair (index, worktree).
///
/// `??` is the untracked marker, not a conflict. Only the documented
/// merge-conflict pairs (`UU`, `AA`, `DD`) count as conflicted; any other
/// equal pair contributes through the single-letter table, once. An unequal
/// pair contributes through the worktree letter when that letter is in the
/// table, else through the index letter.
pub open spec fn pair_category(x: char, y: char) -> Option<Category> {
    if x == '?' && y == '?' {
        Some(Category::Untracked)
    } else if x == y && (x == 'U' || x == 'A' || x == 'D') {
        Some(Category::Conflicted)
    } else if x == y {
        letter_category(x)
    } else if letter_category(y) is Some {
        letter_category(y)
    } else {
        letter_category(x)
    }
}

/// The first two characters of a line, missing characters defaulting to space.
pub open spec fn line_codes(line: Seq<char>) -> (char, char) {
    (
        if line.len() >= 1 {
            line[0]
        } else {
            ' '
        },
        if line.len() >= 2 {
            line[1]
        } else {
            ' '
        },
    )
}

pub open spec fn line_category(line: Seq<char>) -> Option<Category> {
    pair_category(line_codes(line).0, line_codes(line).1)
}

pub open spec fn counts_add_category(c: CountsV, cat: Option<Category>) -> CountsV {
    match cat {
        None => c,
        Some(Category::Untracked) => CountsV { untracked: c.untracked + 1, ..c },
        Some(Category::Added) => CountsV { added: c.added + 1, ..c },
        Some(Category::Modified) => CountsV { modified: c.modified + 1, ..c },
        Some(Category::Renamed) => CountsV { renamed: c.renamed + 1, ..c },
        Some(Category::Deleted) => CountsV { deleted: c.deleted + 1, ..c },
        Some(Category::Conflicted) => CountsV { conflicted: c.conflicted + 1, ..c },
    }
}

/// Index of the first newline in `s`, or -1 if there is none.
pub open spec fn find_newline(s: Seq<char>) -> int
    decreases s.len(),
{
    if s.len() == 0 {
        -1
    } else if s[0] == '\n' {
        0
    } else {
        let r = find_newline(s.subrange(1, s.len() as int));
        if r < 0 {
            -1
        } else {
            1 + r
        }
    }
}

pub proof fn lemma_find_newline(s: Seq<char>)
    ensures
        find_newline(s) == -1 ==> forall|i: int| 0 <= i < s.len() ==> s[i] != '\n',
        find_newline(s) != -1 ==> 0 <= find_newline(s) < s.len() && s[find_newline(s)] == '\n',
        find_newline(s) != -1 ==> forall|i: int| 0 <= i < find_newline(s) ==> s[i] != '\n',
    decreases s.len(),
{
    if s.len() == 0 {
    } else if s[0] == '\n' {
    } else {
        let t = s.subrange(1, s.len() as int);
        lemma_find_newline(t);
        if find_newline(t) == -1 {
            assert forall|i: int| 0 <= i < s.len() implies s[i] != '\n' by {
                if i > 0 {
                    assert(t[i - 1] == s[i]);
                }
            }
        } else {
            assert(find_newline(s) == 1 + find_newline(t));
            assert(s[find_newline(s)] == t[find_newline(t)]);
            assert forall|i: int| 0 <= i < find_newline(s) implies s[i] != '\n' by {
                if i > 0 {
                    assert(t[i - 1] == s[i]);
                }
            }
        }
    }
}

/// The counts a whole listing yields: split into lines at `'\n'`, classify
/// each line by its first two characters, add the categories up.
pub open spec fn parsed_counts(s: Seq<char>) -> CountsV
    decreases s.len(),
{
    if s.len() == 0 {
        zero_counts()
    } else {
        let i = find_newline(s);
        if !(0 <= i < s.len()) {
            counts_add_category(zero_counts(), line_category(s))
        } else {
            counts_add_category(
                parsed_counts(s.subrange(i + 1, s.len() as int)),
                line_category(s.subrange(0, i)),
            )
        }
    }
}

/// Number of lines of `s` that match some category.
pub open spec fn matched_line_count(s: Seq<char>) -> nat
    decreases s.len(),
{
    if s.len() == 0 {
        0
    } else {
        let i = find_newline(s);
        if !(0 <= i < s.len()) {
            if line_category(s) is Some {
                1
            } else {
                0
            }
        } else {
            matched_line_count(s.subrange(i + 1, s.len() as int)) + if line_category(
                s.subrange(0, i),
            ) is Some {
                1nat
            } else {
                0nat
            }
        }
    }
}

/// Number of non-empty lines of `s`.
pub open spec fn nonempty_line_count(s: Seq<char>) -> nat
    decreases s.len(),
{
    if s.len() == 0 {
        0
    } else {
        let i = find_newline(s);
        if !(0 <= i < s.len()) {
            1
        } else {
            nonempty_line_count(s.subrange(i + 1, s.len() as int)) + if i > 0 {
                1nat
            } else {
                0nat
            }
        }
    }
}

/// Sum of all twelve category counts.
pub open spec fn counts_total(c: CountsV) -> nat {
    c.untracked + c.added + c.modified + c.renamed + c.deleted + c.stashed + c.unmerged + c.ahead
        + c.behind + c.diverged + c.conflicted + c.staged
}

/// Each listing line lands in at most one category: the sum of all counts
/// equals the number of non-empty lines minus those matching no rule, and a
/// conflict line counts once, not once per code character.
pub proof fn lemma_counts_total(s: Seq<char>)
    ensures
        counts_total(parsed_counts(s)) == matched_line_count(s),
        matched_line_count(s) <= nonempty_line_count(s),
    decreases s.len(),
{
    if s.len() == 0 {
    } else {
        let i = find_newline(s);
        if !(0 <= i < s.len()) {
        } else {
            lemma_counts_total(s.subrange(i + 1, s.len() as int));
            if i == 0 {
                assert(line_category(s.subrange(0, i)) is None);
            }
        }
    }
}

/// A listing only ever fills the listing categories: the ahead/behind,
/// diverged, stash, merge and staging counters stay zero.
pub proof fn lemma_parsed_counts_listing_only(s: Seq<char>)
    ensures
        parsed_counts(s).stashed == 0,
        parsed_counts(s).unmerged == 0,
        parsed_counts(s).ahead == 0,
        parsed_counts(s).behind == 0,
        parsed_counts(s).diverged == 0,
        parsed_counts(s).staged == 0,
    decreases s.len(),
{
    if s.len() == 0 {
    } else {
        let i = find_newline(s);
        if !(0 <= i < s.len()) {
        } else {
            lemma_parsed_counts_listing_only(s.subrange(i + 1, s.len() as int));
        }
    }
}

/// Update the cumulative status, given one "short format" status letter.
pub fn increment_git_status(vcs_status: &mut GitStatus, letter: char)
    requires
        counts_total(old(vcs_status)@) < usize::MAX as nat,
    ensures
        final(vcs_status)@ == counts_add_category(old(vcs_status)@, letter_category(letter)),
{
    match letter {
        'A' => {
            vcs_status.added += 1;
        },
        'M' => {
            vcs_status.modified += 1;
        },
        'D' => {
            vcs_status.deleted += 1;
        },
        'R' => {
            vcs_status.renamed += 1;
        },
        'C' => {
            vcs_status.added += 1;
        },
        'U' => {
            vcs_status.modified += 1;
        },
        '?' => {
            vcs_status.untracked += 1;
        },
        _ => {},
    }
}

/// Parse the categorized counts out of one porcelain status listing.
#[verifier::rlimit(60)]
pub fn parse_porcelain_output(porcelain: &str) -> (r: GitStatus)
    ensures
        r@ == parsed_counts(porcelain@),
{
    let n = porcelain.unicode_len();
    let mut vcs_status = GitStatus::default();
    let mut pos: usize = 0;
    proof {
        assert(porcelain@.subrange(0, n as int) =~= porcelain@);
    }
    while pos < n
        invariant
            n == porcelain@.len(),
            pos <= n,
            counts_total(vcs_status@) <= pos,
            parsed_counts(porcelain@) == add_counts(
                vcs_status@,
                parsed_counts(porcelain@.subrange(pos as int, n as int)),
            ),
        decreases n - pos,
    {
        let ghost t = porcelain@.subrange(pos as int, n as int);
        proof {
            lemma_find_newline(t);
        }
        let c0 = porcelain.get_char(pos);
        if c0 == '\n' {
            proof {
                assert(t[0] == '\n');
                assert(find_newline(t) == 0);
                assert(line_category(t.subrange(0, 0)) is None);
                assert(t.subrange(1, t.len() as int) =~= porcelain@.subrange(
                    pos + 1,
                    n as int,
                ));
            }
            pos += 1;
        } else {
            // find the end of this line
            let mut line_end: usize = pos;
            while line_end < n && porcelain.get_char(line_end) != '\n'
                invariant
                    n == porcelain@.len(),
                    pos <= line_end <= n,
                    forall|k: int| pos <= k < line_end ==> porcelain@[k] != '\n',
                decreases n - line_end,
            {
                line_end += 1;
            }
            let ghost fnl = find_newline(t);
            proof {
                assert(forall|j: int| 0 <= j < t.len() ==> t[j] == porcelain@[pos + j]);
                if line_end < n {
                    assert(porcelain@[line_end as int] == '\n');
                    assert(t[line_end - pos] == '\n');
                    assert(fnl != -1);
                    // the first newline in t is exactly line_end - pos
                    if fnl < line_end - pos {
                        assert(porcelain@[pos + fnl] == '\n');
                        assert(false);
                    }
                    if fnl > line_end - pos {
                        assert(t[line_end - pos] != '\n');
                        assert(false);
                    }
                    assert(fnl == line_end - pos);
                } else {
                    if fnl != -1 {
                        assert(t[fnl] == '\n');
                        assert(porcelain@[pos + fnl] != '\n');
                        assert(false);
                    }
                }
            }
            let ghost line = if fnl == -1 {
                t
            } else {
                t.subrange(0, fnl)
            };
            // read the pair of code characters
            let c1 = if pos + 1 < line_end {
                porcelain.get_char(pos + 1)
            } else {
                ' '
            };
            proof {
                assert(line[0] == t[0]);
                assert(c0 == line[0]);
                if pos + 1 < line_end {
                    assert(line.len() >= 2);
                    assert(line[1] == t[1]);
                    assert(c1 == line[1]);
                } else {
                    assert(line.len() == line_end - pos);
                    assert(line.len() < 2);
                }
                assert(line_codes(line) == (c0, c1));
            }
            // classify and count
            if c0 == '?' && c1 == '?' {
                vcs_status.untracked += 1;
            } else if c0 == c1 && (c0 == 'U' || c0 == 'A' || c0 == 'D') {
                vcs_status.conflicted += 1;
            } else if c0 == c1 {
                increment_git_status(&mut vcs_status, c0);
            } else if has_category(c1) {
                increment_git_status(&mut vcs_status, c1);
            } else {
                increment_git_status(&mut vcs_status, c0);
            }
            // move past the line and its newline, if any
            let new_pos = if line_end < n {
                line_end + 1
            } else {
                n
            };
            proof {
                if fnl == -1 {
                    assert(parsed_counts(t) == counts_add_category(
                        zero_counts(),
                        line_category(line),
                    ));
                    assert(porcelain@.subrange(new_pos as int, n as int).len() == 0);
                } else {
                    assert(t.subrange(fnl + 1, t.len() as int) =~= porcelain@.subrange(
                        new_pos as int,
                        n as int,
                    ));
                    assert(parsed_counts(t) == counts_add_category(
                        parsed_counts(porcelain@.subrange(new_pos as int, n as int)),
                        line_category(line),
                    ));
                }
            }
            pos = new_pos;
        }
    }
    proof {
        assert(porcelain@.subrange(pos as int, n as int).len() == 0);
    }
    vcs_status
}

/// Pointwise sum of two count records.
pub open spec fn add_counts(a: CountsV, b: CountsV) -> CountsV {
    CountsV {
        untracked: a.untracked + b.untracked,
        added: a.added + b.added,
        modified: a.modified + b.modified,
        renamed: a.renamed + b.renamed,
        deleted: a.deleted + b.deleted,
        stashed: a.stashed + b.stashed,
        unmerged: a.unmerged + b.unmerged,
        ahead: a.ahead + b.ahead,
        behind: a.behind + b.behind,
        diverged: a.diverged + b.diverged,
        conflicted: a.conflicted + b.conflicted,
        staged: a.staged + b.staged,
    }
}

/// Whether a letter is in the single-letter category table.
fn has_category(c: char) -> (r: bool)
    ensures
        r == (letter_category(c) is Some),
{
    c == 'A' || c == 'M' || c == 'D' || c == 'R' || c == 'C' || c == 'U' || c == '?'
}

} // verus!
