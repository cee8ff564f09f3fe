//! The status renderer: maps categorized counts through per-category
//! mini-format strings and assembles the final segment sequence under the
//! master format string.

use vstd::prelude::*;

use crate::formatter::Resolver;
use crate::formatter::SegV;
use crate::formatter::Segment;
use crate::formatter::VarV;
use crate::formatter::is_absent_binding;
use crate::formatter::lemma_absent_values_bindings;
use crate::formatter::lemma_all_absent_renders_nothing;
use crate::formatter::render_format;
use crate::formatter::segs_view;
use crate::formatter::separators_grouped;
use crate::formatter::spec_expand_nodes;
use crate::formatter::spec_parse;
use crate::formatter::spec_render;
use crate::formatter::str_pairs_view;
use crate::formatter::var_view;
use crate::formatter::vars_view;
use crate::formatter::VarValue;
use crate::status::CountsV;
use crate::status::GitStatus;

verus! {

/// Cap on meta-variable expansion rounds.
pub const META_DEPTH: u64 = 16;

/// The decimal numeral of `n`, most significant digit first.
pub open spec fn spec_decimal(n: nat) -> Seq<char>
    decreases n,
{
    if n < 10 {
        seq![spec_digit(n)]
    } else {
        spec_decimal(n / 10).push(spec_digit(n % 10))
    }
}

pub open spec fn spec_digit(d: nat) -> char {
    if d == 0 {
        '0'
    } else if d == 1 {
        '1'
    } else if d == 2 {
        '2'
    } else if d == 3 {
        '3'
    } else if d == 4 {
        '4'
    } else if d == 5 {
        '5'
    } else if d == 6 {
        '6'
    } else if d == 7 {
        '7'
    } else if d == 8 {
        '8'
    } else {
        '9'
    }
}

fn digit_str(d: usize) -> (r: &'static str)
    requires
        d < 10,
    ensures
        r@ == seq![spec_digit(d as nat)],
{
    proof {
        reveal_strlit("0");
        reveal_strlit("1");
        reveal_strlit("2");
        reveal_strlit("3");
        reveal_strlit("4");
        reveal_strlit("5");
        reveal_strlit("6");
        reveal_strlit("7");
        reveal_strlit("8");
        reveal_strlit("9");
    }
    match d {
        0 => "0",
        1 => "1",
        2 => "2",
        3 => "3",
        4 => "4",
        5 => "5",
        6 => "6",
        7 => "7",
        8 => "8",
        _ => "9",
    }
}

/// Decimal rendering of a count.
pub fn count_to_string(n: usize) -> (r: String)
    ensures
        r@ == spec_decimal(n as nat),
    decreases n,
{
    if n < 10 {
        String::from_str(digit_str(n))
    } else {
        let mut s = count_to_string(n / 10);
        let ghost prefix = s@;
        s.append(digit_str(n % 10));
        proof {
            assert(s@ =~= prefix.push(spec_digit((n % 10) as nat)));
        }
        s
    }
}

/// The per-category mini-format strings, the master format, and the style
/// token, as the surrounding configuration supplies them.
#[derive(Debug)]
pub struct GitStatusConfig {
    pub format: String,
    pub style: String,
    pub stashed: String,
    pub ahead: String,
    pub behind: String,
    pub conflicted: String,
    pub deleted: String,
    pub renamed: String,
    pub modified: String,
    pub staged: String,
    pub untracked: String,
}

/// Mathematical model of a `GitStatusConfig`.
pub ghost struct ConfigV {
    pub format: Seq<char>,
    pub style: Seq<char>,
    pub stashed: Seq<char>,
    pub ahead: Seq<char>,
    pub behind: Seq<char>,
    pub conflicted: Seq<char>,
    pub deleted: Seq<char>,
    pub renamed: Seq<char>,
    pub modified: Seq<char>,
    pub staged: Seq<char>,
    pub untracked: Seq<char>,
}

impl View for GitStatusConfig {
    type V = ConfigV;

    open spec fn view(&self) -> ConfigV {
        ConfigV {
            format: self.format@,
            style: self.style@,
            stashed: self.stashed@,
            ahead: self.ahead@,
            behind: self.behind@,
            conflicted: self.conflicted@,
            deleted: self.deleted@,
            renamed: self.renamed@,
            modified: self.modified@,
            staged: self.staged@,
            untracked: self.untracked@,
        }
    }
}

impl Default for GitStatusConfig {
    /// The stock configuration: each category shows its symbol, and the
    /// whole status is one style group that vanishes when every category
    /// is empty.
    fn default() -> (r: Self)
        ensures
            r@.format == "[$all_status]($style)"@,
            r@.style == "red bold"@,
            r@.stashed == "\\$"@,
            r@.ahead == "\u{21e1}"@,
            r@.behind == "\u{21e3}"@,
            r@.conflicted == "="@,
            r@.deleted == "\u{2718}"@,
            r@.renamed == "\u{bb}"@,
            r@.modified == "!"@,
            r@.staged == "+"@,
            r@.untracked == "?"@,
    {
        GitStatusConfig {
            format: String::from_str("[$all_status]($style)"),
            style: String::from_str("red bold"),
            stashed: String::from_str("\\$"),
            ahead: String::from_str("\u{21e1}"),
            behind: String::from_str("\u{21e3}"),
            conflicted: String::from_str("="),
            deleted: String::from_str("\u{2718}"),
            renamed: String::from_str("\u{bb}"),
            modified: String::from_str("!"),
            staged: String::from_str("+"),
            untracked: String::from_str("?"),
        }
    }
}

/// The order in which the `all_status` meta-variable lists the categories.
fn all_status_format() -> (r: &'static str)
    ensures
        r@ == "$conflicted$stashed$deleted$renamed$modified$staged$untracked"@,
{
    "$conflicted$stashed$deleted$renamed$modified$staged$untracked"
}

/// Rendering a mini-format string against plain text variable bindings:
/// the segments it denotes, or nothing when it is malformed or references
/// an unbound variable.
pub open spec fn spec_format_text(
    fmt: Seq<char>,
    vars: Seq<(Seq<char>, Seq<char>)>,
) -> Option<Seq<SegV>> {
    match spec_render(
        fmt,
        Seq::empty(),
        vars.map_values(|p: (Seq<char>, Seq<char>)| (p.0, VarV::Text(p.1))),
        Seq::empty(),
        META_DEPTH as nat,
    ) {
        Ok(segs) => Some(segs),
        Err(_) => None,
    }
}

/// What `format_count` yields: nothing for a zero count, else the
/// mini-format rendered with `count` bound to the decimal numeral.
pub open spec fn spec_format_count(fmt: Seq<char>, count: nat) -> Option<Seq<SegV>> {
    if count == 0 {
        None
    } else {
        spec_format_text(fmt, seq![("count"@, spec_decimal(count))])
    }
}

pub open spec fn opt_segs_view(r: Option<Vec<Segment>>) -> Option<Seq<SegV>> {
    match r {
        Some(v) => Some(segs_view(v@)),
        None => None,
    }
}

/// Evaluate one mini-format string with plain text variable bindings.
///
/// A malformed format string or an unbound variable yields nothing rather
/// than an error: a broken mini-template only silences its own category.
/// The `config_path` names the configuration entry the format came from.
pub fn format_text(format_str: &str, config_path: &str, vars: &Vec<(String, String)>) -> (r:
    Option<Vec<Segment>>)
    ensures
        opt_segs_view(r) == spec_format_text(format_str@, str_pairs_view(vars@)),
{
    let _ = config_path;
    let mut bound: Vec<(String, VarValue)> = Vec::new();
    let n = vars.len();
    let mut i: usize = 0;
    while i < n
        invariant
            n == vars@.len(),
            i <= n,
            bound@.len() == i,
            forall|k: int|
                0 <= k < i ==> (bound@[k].0@ == vars@[k].0@ && (bound@[k].1 matches VarValue::Text(
                    t,
                ) && t@ == vars@[k].1@)),
        decreases n - i,
    {
        bound.push((vars[i].0.clone(), VarValue::Text(vars[i].1.clone())));
        i += 1;
    }
    let resolver = Resolver { vars: bound, metas: Vec::new(), styles: Vec::new() };
    proof {
        assert(vars_view(resolver.vars@) =~= str_pairs_view(vars@).map_values(
            |p: (Seq<char>, Seq<char>)| (p.0, VarV::Text(p.1)),
        ));
        assert(str_pairs_view(resolver.metas@) =~= Seq::<(Seq<char>, Seq<char>)>::empty());
        assert(str_pairs_view(resolver.styles@) =~= Seq::<(Seq<char>, Seq<char>)>::empty());
    }
    match render_format(format_str, &resolver, META_DEPTH) {
        Ok(segs) => Some(segs),
        Err(_) => None,
    }
}

/// Render one category's mini-format for a given count: no segments at all
/// when the count is zero (the category vanishes), else the mini-format
/// evaluated with `count` bound to the decimal count.
pub fn format_count(format_str: &str, config_path: &str, count: usize) -> (r: Option<Vec<Segment>>)
    ensures
        opt_segs_view(r) == spec_format_count(format_str@, count as nat),
        count == 0 ==> r is None,
{
    if count == 0 {
        return None;
    }
    let mut vars: Vec<(String, String)> = Vec::new();
    vars.push((String::from_str("count"), count_to_string(count)));
    proof {
        assert(str_pairs_view(vars@) =~= seq![("count"@, spec_decimal(count as nat))]);
    }
    format_text(format_str, config_path, &vars)
}

/// A category variable's binding: the category's rendered segments, or an
/// absent (empty) binding when the count is zero or its template is broken.
pub open spec fn spec_count_var(fmt: Seq<char>, count: nat) -> VarV {
    VarV::Segments(
        match spec_format_count(fmt, count) {
            Some(segs) => segs,
            None => Seq::empty(),
        },
    )
}

fn count_var(format_str: &String, config_path: &str, count: usize) -> (r: VarValue)
    ensures
        var_view(r) == spec_count_var(format_str@, count as nat),
{
    match format_count(format_str.as_str(), config_path, count) {
        Some(segs) => VarValue::Segments(segs),
        None => {
            let empty: Vec<Segment> = Vec::new();
            proof {
                assert(segs_view(empty@) =~= Seq::<SegV>::empty());
            }
            VarValue::Segments(empty)
        },
    }
}

/// The variable bindings the master format is evaluated against.
pub open spec fn spec_status_vars(st: CountsV, c: ConfigV) -> Seq<(Seq<char>, VarV)> {
    seq![
        ("stashed"@, spec_count_var(c.stashed, st.stashed)),
        ("ahead"@, spec_count_var(c.ahead, st.ahead)),
        ("behind"@, spec_count_var(c.behind, st.behind)),
        ("conflicted"@, spec_count_var(c.conflicted, st.conflicted)),
        ("deleted"@, spec_count_var(c.deleted, st.deleted)),
        ("renamed"@, spec_count_var(c.renamed, st.renamed)),
        ("modified"@, spec_count_var(c.modified, st.modified)),
        ("staged"@, spec_count_var(c.staged, st.staged)),
        ("untracked"@, spec_count_var(c.untracked, st.untracked)),
    ]
}

/// The one meta-variable the module knows: `all_status`, expanding to the
/// fixed category order.
pub open spec fn spec_module_metas() -> Seq<(Seq<char>, Seq<char>)> {
    seq![("all_status"@, "$conflicted$stashed$deleted$renamed$modified$staged$untracked"@)]
}

/// The one style key the module resolves: `style`, to the configured token.
pub open spec fn spec_module_styles(c: ConfigV) -> Seq<(Seq<char>, Seq<char>)> {
    seq![("style"@, c.style)]
}

/// What the whole module renders: the master format evaluated against the
/// category bindings, with `all_status` expanding to the fixed category
/// order and `style` resolving to the configured token. A failed render or
/// an empty segment list both mean there is nothing to display.
pub open spec fn spec_module(st: CountsV, c: ConfigV) -> Option<Seq<SegV>> {
    match spec_render(
        c.format,
        spec_module_metas(),
        spec_status_vars(st, c),
        spec_module_styles(c),
        META_DEPTH as nat,
    ) {
        Err(_) => None,
        Ok(segs) => if segs.len() == 0 {
            None
        } else {
            Some(segs)
        },
    }
}

/// A zero count binds its category absent, whatever its template says.
proof fn lemma_zero_count_var_absent(fmt: Seq<char>)
    ensures
        is_absent_binding(spec_count_var(fmt, 0)),
{
}

/// A clean tree shows nothing: with every category count zero, every
/// category binding is absent, so a master format whose expanded tree keeps
/// each separator literal in a group beside a variable — the stock format
/// among them — renders no segments end to end, and the module yields
/// nothing to display.
pub proof fn lemma_zero_status_shows_nothing(st: CountsV, c: ConfigV)
    requires
        st.stashed == 0,
        st.ahead == 0,
        st.behind == 0,
        st.conflicted == 0,
        st.deleted == 0,
        st.renamed == 0,
        st.modified == 0,
        st.staged == 0,
        st.untracked == 0,
        (match spec_parse(c.format, false) {
            Ok(pr) => match spec_expand_nodes(pr.0, spec_module_metas(), META_DEPTH as nat) {
                Ok(exp) => separators_grouped(exp),
                Err(_) => true,
            },
            Err(_) => true,
        }),
    ensures
        spec_module(st, c) is None,
{
    let vs = spec_status_vars(st, c);
    assert forall|i: int| 0 <= i < vs.len() implies is_absent_binding((#[trigger] vs[i]).1) by {
        lemma_zero_count_var_absent(c.stashed);
        lemma_zero_count_var_absent(c.ahead);
        lemma_zero_count_var_absent(c.behind);
        lemma_zero_count_var_absent(c.conflicted);
        lemma_zero_count_var_absent(c.deleted);
        lemma_zero_count_var_absent(c.renamed);
        lemma_zero_count_var_absent(c.modified);
        lemma_zero_count_var_absent(c.staged);
        lemma_zero_count_var_absent(c.untracked);
    }
    lemma_absent_values_bindings(vs);
    match spec_parse(c.format, false) {
        Err(_) => {},
        Ok(pr) => {
            match spec_expand_nodes(pr.0, spec_module_metas(), META_DEPTH as nat) {
                Err(_) => {},
                Ok(exp) => {
                    lemma_all_absent_renders_nothing(exp, vs, spec_module_styles(c));
                },
            }
        },
    }
}

/// Render the status summary under the given configuration, or nothing
/// when there is nothing to display (a clean tree, or a broken master
/// format string).
pub fn module(status: &GitStatus, config: &GitStatusConfig) -> (r: Option<Vec<Segment>>)
    ensures
        opt_segs_view(r) == spec_module(status@, config@),
{
    let mut vars: Vec<(String, VarValue)> = Vec::new();
    vars.push(
        (String::from_str("stashed"), count_var(&config.stashed, "git_status.stashed", status.stashed)),
    );
    vars.push((String::from_str("ahead"), count_var(&config.ahead, "git_status.ahead", status.ahead)));
    vars.push(
        (String::from_str("behind"), count_var(&config.behind, "git_status.behind", status.behind)),
    );
    vars.push(
        (
            String::from_str("conflicted"),
            count_var(&config.conflicted, "git_status.conflicted", status.conflicted),
        ),
    );
    vars.push(
        (String::from_str("deleted"), count_var(&config.deleted, "git_status.deleted", status.deleted)),
    );
    vars.push(
        (String::from_str("renamed"), count_var(&config.renamed, "git_status.renamed", status.renamed)),
    );
    vars.push(
        (
            String::from_str("modified"),
            count_var(&config.modified, "git_status.modified", status.modified),
        ),
    );
    vars.push(
        (String::from_str("staged"), count_var(&config.staged, "git_status.staged", status.staged)),
    );
    vars.push(
        (
            String::from_str("untracked"),
            count_var(&config.untracked, "git_status.untracked", status.untracked),
        ),
    );
    let mut metas: Vec<(String, String)> = Vec::new();
    metas.push((String::from_str("all_status"), String::from_str(all_status_format())));
    let mut styles: Vec<(String, String)> = Vec::new();
    styles.push((String::from_str("style"), config.style.clone()));
    let resolver = Resolver { vars, metas, styles };
    proof {
        assert(vars_view(resolver.vars@) =~= spec_status_vars(status@, config@));
        assert(str_pairs_view(resolver.metas@) =~= seq![
            (
                "all_status"@,
                "$conflicted$stashed$deleted$renamed$modified$staged$untracked"@,
            ),
        ]);
        assert(str_pairs_view(resolver.styles@) =~= seq![("style"@, config@.style)]);
    }
    match render_format(config.format.as_str(), &resolver, META_DEPTH) {
        Err(_) => None,
        Ok(segs) => {
            if segs.len() == 0 {
                None
            } else {
                Some(segs)
            }
        },
    }
}

} // verus!
