//! The template engine: a format string is parsed into a node tree and
//! evaluated against variable and style bindings into styled text segments.
//!
//! Syntax: `$name` references a variable (or a meta-variable, which expands
//! to another format string); `[body](style-key)` scopes a style over its
//! body; `\$`, `\[`, `\]`, `\(`, `\)` escape the special characters.

use vstd::prelude::*;

verus! {

/// One atomic unit of rendered output: a text with an opaque style token.
#[derive(Debug)]
pub struct Segment {
    pub text: String,
    pub style: Option<String>,
}

/// Mathematical model of a `Segment`.
pub ghost struct SegV {
    pub text: Seq<char>,
    pub style: Option<Seq<char>>,
}

pub open spec fn seg_view(s: Segment) -> SegV {
    SegV {
        text: s.text@,
        style: match s.style {
            Some(st) => Some(st@),
            None => None,
        },
    }
}

pub open spec fn segs_view(s: Seq<Segment>) -> Seq<SegV> {
    s.map_values(|x: Segment| seg_view(x))
}

/// One node of a parsed format string.
#[derive(Debug)]
pub enum FormatNode {
    Literal(String),
    Variable(String),
    Group(Vec<FormatNode>, String),
}

/// Mathematical model of a `FormatNode`.
pub ghost enum NodeV {
    Literal(Seq<char>),
    Variable(Seq<char>),
    Group(Seq<NodeV>, Seq<char>),
}

pub open spec fn node_view(n: FormatNode) -> NodeV
    decreases n,
{
    match n {
        FormatNode::Literal(t) => NodeV::Literal(t@),
        FormatNode::Variable(name) => NodeV::Variable(name@),
        FormatNode::Group(children, key) => NodeV::Group(nodes_view(children@), key@),
    }
}

pub open spec fn nodes_view(nodes: Seq<FormatNode>) -> Seq<NodeV>
    decreases nodes,
{
    if nodes.len() == 0 {
        Seq::empty()
    } else {
        seq![node_view(nodes[0])] + nodes_view(nodes.subrange(1, nodes.len() as int))
    }
}

/// How evaluation of a format string can fail.
#[derive(Debug)]
pub enum FormatError {
    /// The named format string is malformed.
    Parse(String),
    /// A variable reference that no binding resolves.
    UnknownVariable(String),
    /// A meta-variable chain exceeded the expansion depth cap.
    RecursionLimit,
}

/// Mathematical model of a `FormatError`.
pub ghost enum ErrV {
    Parse(Seq<char>),
    UnknownVariable(Seq<char>),
    RecursionLimit,
}

pub open spec fn err_view(e: FormatError) -> ErrV {
    match e {
        FormatError::Parse(f) => ErrV::Parse(f@),
        FormatError::UnknownVariable(n) => ErrV::UnknownVariable(n@),
        FormatError::RecursionLimit => ErrV::RecursionLimit,
    }
}

/// The characters with a reserved meaning in a format string.
pub open spec fn is_special(c: char) -> bool {
    c == '$' || c == '[' || c == ']' || c == '(' || c == ')' || c == '\\'
}

/// The characters an escape may carry (the special ones except backslash).
pub open spec fn is_escapable(c: char) -> bool {
    c == '$' || c == '[' || c == ']' || c == '(' || c == ')'
}

/// Variable names are runs of ASCII letters, digits and underscores.
pub open spec fn is_ident_char(c: char) -> bool {
    (('a' as u32) <= (c as u32) && (c as u32) <= ('z' as u32)) || (('A' as u32) <= (c as u32) && (
    c as u32) <= ('Z' as u32)) || (('0' as u32) <= (c as u32) && (c as u32) <= ('9' as u32)) || c
        == '_'
}

/// Length of the longest prefix of `s` made of non-special characters.
pub open spec fn literal_run_len(s: Seq<char>) -> nat
    decreases s.len(),
{
    if s.len() == 0 {
        0
    } else if is_special(s[0]) {
        0
    } else {
        1 + literal_run_len(s.subrange(1, s.len() as int))
    }
}

/// Length of the longest prefix of `s` made of identifier characters.
pub open spec fn ident_run_len(s: Seq<char>) -> nat
    decreases s.len(),
{
    if s.len() == 0 {
        0
    } else if !is_ident_char(s[0]) {
        0
    } else {
        1 + ident_run_len(s.subrange(1, s.len() as int))
    }
}

/// Index of the first occurrence of `c` in `s`, or -1 if there is none.
pub open spec fn find_char(s: Seq<char>, c: char) -> int
    decreases s.len(),
{
    if s.len() == 0 {
        -1
    } else if s[0] == c {
        0
    } else {
        let r = find_char(s.subrange(1, s.len() as int), c);
        if r < 0 {
            -1
        } else {
            1 + r
        }
    }
}

proof fn lemma_literal_run(s: Seq<char>)
    ensures
        literal_run_len(s) <= s.len(),
        forall|i: int| 0 <= i < literal_run_len(s) ==> !is_special(s[i]),
        literal_run_len(s) < s.len() ==> is_special(s[literal_run_len(s) as int]),
    decreases s.len(),
{
    if s.len() == 0 {
    } else if is_special(s[0]) {
    } else {
        let t = s.subrange(1, s.len() as int);
        lemma_literal_run(t);
        assert forall|i: int| 0 <= i < literal_run_len(s) implies !is_special(s[i]) by {
            if i > 0 {
                assert(t[i - 1] == s[i]);
            }
        }
        if literal_run_len(s) < s.len() {
            assert(t[literal_run_len(t) as int] == s[literal_run_len(s) as int]);
        }
    }
}

proof fn lemma_ident_run(s: Seq<char>)
    ensures
        ident_run_len(s) <= s.len(),
        forall|i: int| 0 <= i < ident_run_len(s) ==> is_ident_char(s[i]),
        ident_run_len(s) < s.len() ==> !is_ident_char(s[ident_run_len(s) as int]),
    decreases s.len(),
{
    if s.len() == 0 {
    } else if !is_ident_char(s[0]) {
    } else {
        let t = s.subrange(1, s.len() as int);
        lemma_ident_run(t);
        assert forall|i: int| 0 <= i < ident_run_len(s) implies is_ident_char(s[i]) by {
            if i > 0 {
                assert(t[i - 1] == s[i]);
            }
        }
        if ident_run_len(s) < s.len() {
            assert(t[ident_run_len(t) as int] == s[ident_run_len(s) as int]);
        }
    }
}

proof fn lemma_find_char(s: Seq<char>, c: char)
    ensures
        find_char(s, c) == -1 ==> forall|i: int| 0 <= i < s.len() ==> s[i] != c,
        find_char(s, c) != -1 ==> 0 <= find_char(s, c) < s.len() && s[find_char(s, c)] == c,
        find_char(s, c) != -1 ==> forall|i: int| 0 <= i < find_char(s, c) ==> s[i] != c,
    decreases s.len(),
{
    if s.len() == 0 {
    } else if s[0] == c {
    } else {
        let t = s.subrange(1, s.len() as int);
        lemma_find_char(t, c);
        if find_char(t, c) == -1 {
            assert forall|i: int| 0 <= i < s.len() implies s[i] != c by {
                if i > 0 {
                    assert(t[i - 1] == s[i]);
                }
            }
        } else {
            assert(s[find_char(s, c)] == t[find_char(t, c)]);
            assert forall|i: int| 0 <= i < find_char(s, c) implies s[i] != c by {
                if i > 0 {
                    assert(t[i - 1] == s[i]);
                }
            }
        }
    }
}

/// The parse function of the format language, over a character sequence.
///
/// Returns the nodes parsed from the front of `s` together with the
/// unconsumed rest: parsing stops at end of input (at a `]` when `in_group`,
/// which then starts the rest). Any bare special character in the wrong
/// position is a parse error, as is an unterminated group or escape and a
/// `$` without a name. The in-definition bounds checks on scan results only
/// keep the recursion visibly well-founded.
pub open spec fn spec_parse(s: Seq<char>, in_group: bool) -> Result<(Seq<NodeV>, Seq<char>), ()>
    decreases s.len(),
{
    if s.len() == 0 {
        if in_group {
            Err(())
        } else {
            Ok((Seq::empty(), s))
        }
    } else if s[0] == ']' {
        if in_group {
            Ok((Seq::empty(), s))
        } else {
            Err(())
        }
    } else if s[0] == '\\' {
        if s.len() >= 2 && is_escapable(s[1]) {
            match spec_parse(s.subrange(2, s.len() as int), in_group) {
                Ok((nodes, rest)) => Ok((seq![NodeV::Literal(seq![s[1]])] + nodes, rest)),
                Err(e) => Err(e),
            }
        } else {
            Err(())
        }
    } else if s[0] == '$' {
        let k = ident_run_len(s.subrange(1, s.len() as int));
        if k == 0 || k + 1 > s.len() {
            Err(())
        } else {
            let name = s.subrange(1, k as int + 1);
            match spec_parse(s.subrange(k as int + 1, s.len() as int), in_group) {
                Ok((nodes, rest)) => Ok((seq![NodeV::Variable(name)] + nodes, rest)),
                Err(e) => Err(e),
            }
        }
    } else if s[0] == '[' {
        match spec_parse(s.subrange(1, s.len() as int), true) {
            Err(e) => Err(e),
            Ok((children, after)) => {
                if after.len() < 2 || after[1] != '(' {
                    Err(())
                } else {
                    let tail = after.subrange(2, after.len() as int);
                    let m = find_char(tail, ')');
                    if m < 0 || m >= tail.len() {
                        Err(())
                    } else {
                        let key = tail.subrange(0, m);
                        let rest = tail.subrange(m + 1, tail.len() as int);
                        if rest.len() < s.len() {
                            match spec_parse(rest, in_group) {
                                Ok((nodes, leftover)) => Ok(
                                    (seq![NodeV::Group(children, key)] + nodes, leftover),
                                ),
                                Err(e) => Err(e),
                            }
                        } else {
                            Err(())
                        }
                    }
                }
            },
        }
    } else if s[0] == '(' || s[0] == ')' {
        Err(())
    } else {
        let k = literal_run_len(s);
        if 1 <= k <= s.len() {
            match spec_parse(s.subrange(k as int, s.len() as int), in_group) {
                Ok((nodes, rest)) => Ok((seq![NodeV::Literal(s.subrange(0, k as int))] + nodes, rest)),
                Err(e) => Err(e),
            }
        } else {
            Err(())
        }
    }
}

/// A successful parse consumes only forward; inside a group it stops at `]`,
/// and at the top level it consumes the whole input.
pub proof fn lemma_spec_parse_props(s: Seq<char>, in_group: bool)
    ensures
        spec_parse(s, in_group) matches Ok(pr) ==> pr.1.len() <= s.len() && (in_group
            ==> pr.1.len() >= 1 && pr.1[0] == ']') && (!in_group ==> pr.1.len() == 0),
    decreases s.len(),
{
    if s.len() == 0 {
    } else if s[0] == ']' {
    } else if s[0] == '\\' {
        if s.len() >= 2 && is_escapable(s[1]) {
            lemma_spec_parse_props(s.subrange(2, s.len() as int), in_group);
        }
    } else if s[0] == '$' {
        let k = ident_run_len(s.subrange(1, s.len() as int));
        if !(k == 0 || k + 1 > s.len()) {
            lemma_spec_parse_props(s.subrange(k as int + 1, s.len() as int), in_group);
        }
    } else if s[0] == '[' {
        lemma_spec_parse_props(s.subrange(1, s.len() as int), true);
        match spec_parse(s.subrange(1, s.len() as int), true) {
            Err(_) => {},
            Ok((children, after)) => {
                if !(after.len() < 2 || after[1] != '(') {
                    let tail = after.subrange(2, after.len() as int);
                    let m = find_char(tail, ')');
                    if !(m < 0 || m >= tail.len()) {
                        let rest = tail.subrange(m + 1, tail.len() as int);
                        if rest.len() < s.len() {
                            lemma_spec_parse_props(rest, in_group);
                        }
                    }
                }
            },
        }
    } else if s[0] == '(' || s[0] == ')' {
    } else {
        let k = literal_run_len(s);
        if 1 <= k <= s.len() {
            lemma_spec_parse_props(s.subrange(k as int, s.len() as int), in_group);
        }
    }
}

/// The source text a node denotes, special characters re-escaped.
pub open spec fn escape_char(c: char) -> Seq<char> {
    if is_escapable(c) {
        seq!['\\', c]
    } else {
        seq![c]
    }
}

pub open spec fn escape_text(t: Seq<char>) -> Seq<char>
    decreases t.len(),
{
    if t.len() == 0 {
        Seq::empty()
    } else {
        escape_char(t[0]) + escape_text(t.subrange(1, t.len() as int))
    }
}

pub open spec fn unparse_node(n: NodeV) -> Seq<char>
    decreases n,
{
    match n {
        NodeV::Literal(t) => escape_text(t),
        NodeV::Variable(name) => seq!['$'] + name,
        NodeV::Group(children, key) => seq!['['] + unparse_nodes(children) + seq![']', '('] + key
            + seq![')'],
    }
}

pub open spec fn unparse_nodes(nodes: Seq<NodeV>) -> Seq<char>
    decreases nodes,
{
    if nodes.len() == 0 {
        Seq::empty()
    } else {
        unparse_node(nodes[0]) + unparse_nodes(nodes.subrange(1, nodes.len() as int))
    }
}

proof fn lemma_unparse_cons(x: NodeV, rest: Seq<NodeV>)
    ensures
        unparse_nodes(seq![x] + rest) == unparse_node(x) + unparse_nodes(rest),
{
    let all = seq![x] + rest;
    assert(all[0] == x);
    assert(all.subrange(1, all.len() as int) =~= rest);
}

proof fn lemma_escape_plain(t: Seq<char>)
    requires
        forall|i: int| 0 <= i < t.len() ==> !is_special(t[i]),
    ensures
        escape_text(t) == t,
    decreases t.len(),
{
    if t.len() == 0 {
        assert(escape_text(t) =~= t);
    } else {
        let rest = t.subrange(1, t.len() as int);
        assert(forall|i: int| 0 <= i < rest.len() ==> rest[i] == t[i + 1]);
        lemma_escape_plain(rest);
        assert(!is_escapable(t[0]));
        assert(escape_text(t) =~= t);
    }
}

/// A successful parse loses nothing: the parsed nodes print back, escapes
/// included, to exactly the consumed part of the input.
#[verifier::rlimit(60)]
pub proof fn lemma_parse_unparse(s: Seq<char>, in_group: bool)
    ensures
        spec_parse(s, in_group) matches Ok(pr) ==> unparse_nodes(pr.0) + pr.1 == s,
    decreases s.len(),
{
    if s.len() == 0 {
        if !in_group {
            assert(unparse_nodes(Seq::<NodeV>::empty()) + s =~= s);
        }
    } else if s[0] == ']' {
        if in_group {
            assert(unparse_nodes(Seq::<NodeV>::empty()) + s =~= s);
        }
    } else if s[0] == '\\' {
        if s.len() >= 2 && is_escapable(s[1]) {
            let rest = s.subrange(2, s.len() as int);
            lemma_parse_unparse(rest, in_group);
            match spec_parse(rest, in_group) {
                Ok((nodes, leftover)) => {
                    let node = NodeV::Literal(seq![s[1]]);
                    assert(seq![s[1]].subrange(1, 1) =~= Seq::<char>::empty());
                    assert(escape_text(Seq::<char>::empty()) == Seq::<char>::empty());
                    assert(escape_char(s[1]) == seq!['\\', s[1]]);
                    assert(escape_text(seq![s[1]]) =~= seq!['\\', s[1]]);
                    lemma_unparse_cons(node, nodes);
                    assert(unparse_nodes(nodes) + leftover == rest);
                    assert((seq!['\\', s[1]] + unparse_nodes(nodes)) + leftover =~= seq![
                        '\\',
                        s[1],
                    ] + (unparse_nodes(nodes) + leftover));
                    assert(seq!['\\', s[1]] + rest =~= s);
                    assert(unparse_nodes(seq![node] + nodes) + leftover =~= s);
                },
                Err(_) => {},
            }
        }
    } else if s[0] == '$' {
        let k = ident_run_len(s.subrange(1, s.len() as int));
        if !(k == 0 || k + 1 > s.len()) {
            let name = s.subrange(1, k as int + 1);
            let rest = s.subrange(k as int + 1, s.len() as int);
            lemma_parse_unparse(rest, in_group);
            match spec_parse(rest, in_group) {
                Ok((nodes, leftover)) => {
                    let node = NodeV::Variable(name);
                    assert(unparse_node(node) =~= s.subrange(0, k as int + 1));
                    lemma_unparse_cons(node, nodes);
                    assert(unparse_nodes(nodes) + leftover == rest);
                    assert((unparse_node(node) + unparse_nodes(nodes)) + leftover =~= unparse_node(
                        node,
                    ) + (unparse_nodes(nodes) + leftover));
                    assert(s.subrange(0, k as int + 1) + s.subrange(k as int + 1, s.len() as int)
                        =~= s);
                    assert(unparse_nodes(seq![node] + nodes) + leftover =~= s);
                },
                Err(_) => {},
            }
        }
    } else if s[0] == '[' {
        lemma_parse_unparse(s.subrange(1, s.len() as int), true);
        lemma_spec_parse_props(s.subrange(1, s.len() as int), true);
        match spec_parse(s.subrange(1, s.len() as int), true) {
            Err(_) => {},
            Ok((children, after)) => {
                if !(after.len() < 2 || after[1] != '(') {
                    let tail = after.subrange(2, after.len() as int);
                    let m = find_char(tail, ')');
                    lemma_find_char(tail, ')');
                    if !(m < 0 || m >= tail.len()) {
                        let key = tail.subrange(0, m);
                        let rest = tail.subrange(m + 1, tail.len() as int);
                        if rest.len() < s.len() {
                            lemma_parse_unparse(rest, in_group);
                            match spec_parse(rest, in_group) {
                                Ok((nodes, leftover)) => {
                                    let node = NodeV::Group(children, key);
                                    // the group prints back to everything up to `rest`
                                    assert(after[0] == ']');
                                    assert(tail[m] == ')');
                                    assert(unparse_nodes(children) + after =~= s.subrange(
                                        1,
                                        s.len() as int,
                                    ));
                                    assert(tail =~= key + (seq![')'] + rest));
                                    assert(after =~= seq![']', '('] + tail);
                                    assert(unparse_node(node) + rest =~= (seq!['[']
                                        + unparse_nodes(children)) + after);
                                    assert((seq!['['] + unparse_nodes(children)) + after =~= seq![
                                        '[',
                                    ] + (unparse_nodes(children) + after));
                                    assert(seq!['['] + s.subrange(1, s.len() as int) =~= s);
                                    assert(unparse_node(node) + rest =~= s);
                                    lemma_unparse_cons(node, nodes);
                                    assert(unparse_nodes(nodes) + leftover == rest);
                                    assert(unparse_nodes(seq![node] + nodes) + leftover =~= s);
                                },
                                Err(_) => {},
                            }
                        }
                    }
                }
            },
        }
    } else if s[0] == '(' || s[0] == ')' {
    } else {
        let k = literal_run_len(s);
        lemma_literal_run(s);
        if 1 <= k <= s.len() {
            let text = s.subrange(0, k as int);
            let rest = s.subrange(k as int, s.len() as int);
            lemma_parse_unparse(rest, in_group);
            match spec_parse(rest, in_group) {
                Ok((nodes, leftover)) => {
                    assert(forall|i: int| 0 <= i < text.len() ==> !is_special(text[i]));
                    lemma_escape_plain(text);
                    let node = NodeV::Literal(text);
                    lemma_unparse_cons(node, nodes);
                    assert(unparse_nodes(nodes) + leftover == rest);
                    assert((unparse_node(node) + unparse_nodes(nodes)) + leftover =~= unparse_node(
                        node,
                    ) + (unparse_nodes(nodes) + leftover));
                    assert(s.subrange(0, k as int) + s.subrange(k as int, s.len() as int) =~= s);
                    assert(unparse_nodes(seq![node] + nodes) + leftover =~= s);
                },
                Err(_) => {},
            }
        }
    }
}

/// A format string that parses prints back to itself: the tree holds the
/// whole input and nothing else.
pub proof fn lemma_parse_round_trip(fmt: Seq<char>)
    ensures
        spec_parse(fmt, false) matches Ok(pr) ==> unparse_nodes(pr.0) == fmt,
{
    lemma_parse_unparse(fmt, false);
    lemma_spec_parse_props(fmt, false);
    match spec_parse(fmt, false) {
        Ok((nodes, leftover)) => {
            assert(leftover =~= Seq::<char>::empty());
            assert(unparse_nodes(nodes) + leftover =~= unparse_nodes(nodes));
        },
        Err(_) => {},
    }
}

proof fn lemma_nodes_view_cons(x: FormatNode, rest: Seq<FormatNode>)
    ensures
        nodes_view(seq![x] + rest) == seq![node_view(x)] + nodes_view(rest),
{
    let s = seq![x] + rest;
    assert(s[0] == x);
    assert(s.subrange(1, s.len() as int) =~= rest);
}

fn char_is_special(c: char) -> (r: bool)
    ensures
        r == is_special(c),
{
    c == '$' || c == '[' || c == ']' || c == '(' || c == ')' || c == '\\'
}

fn char_is_escapable(c: char) -> (r: bool)
    ensures
        r == is_escapable(c),
{
    c == '$' || c == '[' || c == ']' || c == '(' || c == ')'
}

fn char_is_ident(c: char) -> (r: bool)
    ensures
        r == is_ident_char(c),
{
    let u = c as u32;
    (('a' as u32) <= u && u <= ('z' as u32)) || (('A' as u32) <= u && u <= ('Z' as u32)) || (('0'
        as u32) <= u && u <= ('9' as u32)) || c == '_'
}

fn scan_literal(s: &str, pos: usize, n: usize) -> (e: usize)
    requires
        n == s@.len(),
        pos <= n,
    ensures
        pos <= e <= n,
        e - pos == literal_run_len(s@.subrange(pos as int, n as int)),
{
    let ghost t = s@.subrange(pos as int, n as int);
    proof {
        lemma_literal_run(t);
        assert(forall|j: int| 0 <= j < t.len() ==> t[j] == s@[pos + j]);
    }
    let mut e = pos;
    while e < n && !char_is_special(s.get_char(e))
        invariant
            n == s@.len(),
            pos <= e <= n,
            forall|k: int| pos <= k < e ==> !is_special(s@[k]),
        decreases n - e,
    {
        e += 1;
    }
    proof {
        let r = literal_run_len(t) as int;
        if r < e - pos {
            assert(is_special(t[r]));
            assert(!is_special(s@[pos + r]));
            assert(false);
        }
        if r > e - pos {
            assert(e < n);
            assert(is_special(s@[e as int]));
            assert(!is_special(t[e - pos]));
            assert(false);
        }
    }
    e
}

fn scan_ident(s: &str, pos: usize, n: usize) -> (e: usize)
    requires
        n == s@.len(),
        pos <= n,
    ensures
        pos <= e <= n,
        e - pos == ident_run_len(s@.subrange(pos as int, n as int)),
{
    let ghost t = s@.subrange(pos as int, n as int);
    proof {
        lemma_ident_run(t);
        assert(forall|j: int| 0 <= j < t.len() ==> t[j] == s@[pos + j]);
    }
    let mut e = pos;
    while e < n && char_is_ident(s.get_char(e))
        invariant
            n == s@.len(),
            pos <= e <= n,
            forall|k: int| pos <= k < e ==> is_ident_char(s@[k]),
        decreases n - e,
    {
        e += 1;
    }
    proof {
        let r = ident_run_len(t) as int;
        if r < e - pos {
            assert(!is_ident_char(t[r]));
            assert(is_ident_char(s@[pos + r]));
            assert(false);
        }
        if r > e - pos {
            assert(e < n);
            assert(!is_ident_char(s@[e as int]));
            assert(is_ident_char(t[e - pos]));
            assert(false);
        }
    }
    e
}

fn scan_to_char(s: &str, pos: usize, n: usize, c: char) -> (e: usize)
    requires
        n == s@.len(),
        pos <= n,
    ensures
        pos <= e <= n,
        e == n ==> find_char(s@.subrange(pos as int, n as int), c) == -1,
        e < n ==> find_char(s@.subrange(pos as int, n as int), c) == e - pos,
{
    let ghost t = s@.subrange(pos as int, n as int);
    proof {
        lemma_find_char(t, c);
        assert(forall|j: int| 0 <= j < t.len() ==> t[j] == s@[pos + j]);
    }
    let mut e = pos;
    while e < n && s.get_char(e) != c
        invariant
            n == s@.len(),
            pos <= e <= n,
            forall|k: int| pos <= k < e ==> s@[k] != c,
        decreases n - e,
    {
        e += 1;
    }
    proof {
        let f = find_char(t, c);
        if e < n {
            assert(s@[e as int] == c);
            assert(t[e - pos] == c);
            if f < e - pos {
                assert(t[f] == c);
                assert(s@[pos + f] != c);
                assert(false);
            }
            if f > e - pos {
                assert(t[e - pos] != c);
                assert(false);
            }
        } else {
            if f != -1 {
                assert(t[f] == c);
                assert(s@[pos + f] != c);
                assert(false);
            }
        }
    }
    e
}

fn parse_at(s: &str, pos: usize, n: usize, in_group: bool) -> (r: Result<
    (Vec<FormatNode>, usize),
    (),
>)
    requires
        n == s@.len(),
        pos <= n,
    ensures
        r matches Ok(pr) ==> pos <= pr.1 <= n && spec_parse(
            s@.subrange(pos as int, n as int),
            in_group,
        ) == Ok::<(Seq<NodeV>, Seq<char>), ()>(
            (nodes_view(pr.0@), s@.subrange(pr.1 as int, n as int)),
        ),
        r is Err ==> spec_parse(s@.subrange(pos as int, n as int), in_group) is Err,
    decreases n - pos,
{
    let ghost t = s@.subrange(pos as int, n as int);
    proof {
        assert(forall|j: int| 0 <= j < t.len() ==> t[j] == s@[pos + j]);
    }
    if pos == n {
        if in_group {
            Err(())
        } else {
            let nodes: Vec<FormatNode> = Vec::new();
            proof {
                assert(t =~= s@.subrange(pos as int, n as int));
            }
            Ok((nodes, pos))
        }
    } else {
        let c0 = s.get_char(pos);
        if c0 == ']' {
            if in_group {
                let nodes: Vec<FormatNode> = Vec::new();
                Ok((nodes, pos))
            } else {
                Err(())
            }
        } else if c0 == '\\' {
            if pos + 1 < n && char_is_escapable(s.get_char(pos + 1)) {
                proof {
                    assert(t.len() >= 2 && is_escapable(t[1]));
                    assert(t.subrange(2, t.len() as int) =~= s@.subrange(pos + 2, n as int));
                }
                match parse_at(s, pos + 2, n, in_group) {
                    Ok((mut nodes, end)) => {
                        let lit = String::from_str(s.substring_char(pos + 1, pos + 2));
                        let ghost old_nodes = nodes@;
                        let node = FormatNode::Literal(lit);
                        nodes.insert(0, node);
                        proof {
                            assert(lit@ =~= seq![t[1]]);
                            assert(nodes@ =~= seq![node] + old_nodes);
                            lemma_nodes_view_cons(node, old_nodes);
                        }
                        Ok((nodes, end))
                    },
                    Err(e) => Err(e),
                }
            } else {
                proof {
                    if pos + 1 < n {
                        assert(t.len() >= 2 && !is_escapable(t[1]));
                    } else {
                        assert(t.len() < 2);
                    }
                }
                Err(())
            }
        } else if c0 == '$' {
            let e = scan_ident(s, pos + 1, n);
            proof {
                assert(t.subrange(1, t.len() as int) =~= s@.subrange(pos + 1, n as int));
            }
            let ghost k = ident_run_len(t.subrange(1, t.len() as int));
            proof {
                assert(k == e - (pos + 1));
                lemma_ident_run(t.subrange(1, t.len() as int));
            }
            if e == pos + 1 {
                Err(())
            } else {
                let name = String::from_str(s.substring_char(pos + 1, e));
                proof {
                    assert(name@ =~= t.subrange(1, k as int + 1));
                    assert(t.subrange(k as int + 1, t.len() as int) =~= s@.subrange(
                        e as int,
                        n as int,
                    ));
                }
                match parse_at(s, e, n, in_group) {
                    Ok((mut nodes, end)) => {
                        let ghost old_nodes = nodes@;
                        let node = FormatNode::Variable(name);
                        nodes.insert(0, node);
                        proof {
                            assert(nodes@ =~= seq![node] + old_nodes);
                            lemma_nodes_view_cons(node, old_nodes);
                        }
                        Ok((nodes, end))
                    },
                    Err(e2) => Err(e2),
                }
            }
        } else if c0 == '[' {
            proof {
                assert(t.subrange(1, t.len() as int) =~= s@.subrange(pos + 1, n as int));
            }
            match parse_at(s, pos + 1, n, true) {
                Err(e) => Err(e),
                Ok((children, close)) => {
                    let ghost after = s@.subrange(close as int, n as int);
                    proof {
                        lemma_spec_parse_props(s@.subrange(pos + 1, n as int), true);
                        assert(after.len() >= 1 && after[0] == ']');
                        assert(close < n);
                        assert(forall|j: int| 0 <= j < after.len() ==> after[j] == s@[close + j]);
                    }
                    if close + 1 < n && s.get_char(close + 1) == '(' {
                        proof {
                            assert(after.len() >= 2 && after[1] == '(');
                            assert(after.subrange(2, after.len() as int) =~= s@.subrange(
                                close + 2,
                                n as int,
                            ));
                        }
                        let j = scan_to_char(s, close + 2, n, ')');
                        let ghost tail = after.subrange(2, after.len() as int);
                        if j == n {
                            proof {
                                assert(find_char(tail, ')') == -1);
                            }
                            Err(())
                        } else {
                            let ghost m = j - (close + 2);
                            proof {
                                assert(find_char(tail, ')') == m);
                                lemma_find_char(tail, ')');
                            }
                            let key = String::from_str(s.substring_char(close + 2, j));
                            proof {
                                assert(key@ =~= tail.subrange(0, m));
                                assert(tail.subrange(m + 1, tail.len() as int) =~= s@.subrange(
                                    j + 1,
                                    n as int,
                                ));
                                assert(tail.subrange(m + 1, tail.len() as int).len() < t.len());
                            }
                            match parse_at(s, j + 1, n, in_group) {
                                Ok((mut nodes, end)) => {
                                    let ghost old_nodes = nodes@;
                                    let node = FormatNode::Group(children, key);
                                    nodes.insert(0, node);
                                    proof {
                                        assert(nodes@ =~= seq![node] + old_nodes);
                                        lemma_nodes_view_cons(node, old_nodes);
                                    }
                                    Ok((nodes, end))
                                },
                                Err(e2) => Err(e2),
                            }
                        }
                    } else {
                        proof {
                            if close + 1 < n {
                                assert(after.len() >= 2 && after[1] != '(');
                            } else {
                                assert(after.len() < 2);
                            }
                        }
                        Err(())
                    }
                },
            }
        } else if c0 == '(' || c0 == ')' {
            Err(())
        } else {
            let e = scan_literal(s, pos, n);
            let ghost k = literal_run_len(t);
            proof {
                assert(k == e - pos);
                lemma_literal_run(t);
                assert(!is_special(t[0]));
                assert(k >= 1);
            }
            let lit = String::from_str(s.substring_char(pos, e));
            proof {
                assert(lit@ =~= t.subrange(0, k as int));
                assert(t.subrange(k as int, t.len() as int) =~= s@.subrange(e as int, n as int));
            }
            match parse_at(s, e, n, in_group) {
                Ok((mut nodes, end)) => {
                    let ghost old_nodes = nodes@;
                    let node = FormatNode::Literal(lit);
                    nodes.insert(0, node);
                    proof {
                        assert(nodes@ =~= seq![node] + old_nodes);
                        lemma_nodes_view_cons(node, old_nodes);
                    }
                    Ok((nodes, end))
                },
                Err(e2) => Err(e2),
            }
        }
    }
}

/// Parse a format string into its node tree.
///
/// On failure the error is a parse error naming the offending format
/// string; no partial tree is ever produced.
pub fn parse_format(fmt: &str) -> (r: Result<Vec<FormatNode>, FormatError>)
    ensures
        r matches Ok(nodes) ==> spec_parse(fmt@, false) == Ok::<(Seq<NodeV>, Seq<char>), ()>(
            (nodes_view(nodes@), Seq::<char>::empty()),
        ),
        r matches Err(e) ==> spec_parse(fmt@, false) is Err && err_view(e) == ErrV::Parse(fmt@),
{
    let n = fmt.unicode_len();
    proof {
        assert(fmt@.subrange(0, n as int) =~= fmt@);
    }
    match parse_at(fmt, 0, n, false) {
        Ok((nodes, end)) => {
            proof {
                lemma_spec_parse_props(fmt@, false);
                assert(fmt@.subrange(end as int, n as int).len() == 0);
                assert(fmt@.subrange(end as int, n as int) =~= Seq::<char>::empty());
            }
            Ok(nodes)
        },
        Err(_) => Err(FormatError::Parse(String::from_str(fmt))),
    }
}

/// What a variable reference resolves to: a plain text (styled by the
/// enclosing scope) or a pre-rendered segment list (used as it stands).
/// Zero segments, or an empty text, mean the variable is absent.
#[derive(Debug)]
pub enum VarValue {
    Text(String),
    Segments(Vec<Segment>),
}

/// Mathematical model of a `VarValue`.
pub ghost enum VarV {
    Text(Seq<char>),
    Segments(Seq<SegV>),
}

pub open spec fn var_view(v: VarValue) -> VarV {
    match v {
        VarValue::Text(t) => VarV::Text(t@),
        VarValue::Segments(sv) => VarV::Segments(segs_view(sv@)),
    }
}

/// The bindings an evaluation runs against: variables, meta-variables
/// (names expanding to further format strings), and style tokens by key.
#[derive(Debug)]
pub struct Resolver {
    pub vars: Vec<(String, VarValue)>,
    pub metas: Vec<(String, String)>,
    pub styles: Vec<(String, String)>,
}

pub open spec fn vars_view(v: Seq<(String, VarValue)>) -> Seq<(Seq<char>, VarV)> {
    v.map_values(|p: (String, VarValue)| (p.0@, var_view(p.1)))
}

pub open spec fn str_pairs_view(v: Seq<(String, String)>) -> Seq<(Seq<char>, Seq<char>)> {
    v.map_values(|p: (String, String)| (p.0@, p.1@))
}

/// First binding for `name` in an association list, if any.
pub open spec fn lookup_pairs<T>(pairs: Seq<(Seq<char>, T)>, name: Seq<char>) -> Option<T>
    decreases pairs.len(),
{
    if pairs.len() == 0 {
        None
    } else if pairs[0].0 == name {
        Some(pairs[0].1)
    } else {
        lookup_pairs(pairs.subrange(1, pairs.len() as int), name)
    }
}

fn lookup_var<'a>(vars: &'a Vec<(String, VarValue)>, name: &String) -> (r: Option<&'a VarValue>)
    ensures
        r matches Some(v) ==> lookup_pairs(vars_view(vars@), name@) == Some(var_view(*v)),
        r is None ==> lookup_pairs(vars_view(vars@), name@) is None,
{
    let n = vars.len();
    let mut i: usize = 0;
    proof {
        assert(vars@.subrange(0, n as int) =~= vars@);
    }
    while i < n
        invariant
            n == vars@.len(),
            i <= n,
            lookup_pairs(vars_view(vars@), name@) == lookup_pairs(
                vars_view(vars@.subrange(i as int, n as int)),
                name@,
            ),
        decreases n - i,
    {
        let ghost suf = vars@.subrange(i as int, n as int);
        proof {
            assert(vars_view(suf).len() == suf.len());
            assert(suf[0] == vars@[i as int]);
            assert(vars_view(suf)[0] == (vars@[i as int].0@, var_view(vars@[i as int].1)));
        }
        if vars[i].0.eq(name) {
            proof {
                assert(vars_view(suf)[0].0 == name@);
                assert(lookup_pairs(vars_view(suf), name@) == Some(vars_view(suf)[0].1));
            }
            return Some(&vars[i].1);
        }
        proof {
            assert(vars_view(suf)[0].0 != name@);
            assert(lookup_pairs(vars_view(suf), name@) == lookup_pairs(
                vars_view(suf).subrange(1, vars_view(suf).len() as int),
                name@,
            ));
            assert(vars_view(suf).subrange(1, vars_view(suf).len() as int) =~= vars_view(
                vars@.subrange(i + 1, n as int),
            ));
        }
        i += 1;
    }
    proof {
        assert(vars_view(vars@.subrange(n as int, n as int)) =~= Seq::<(Seq<char>, VarV)>::empty());
    }
    None
}

fn lookup_str<'a>(pairs: &'a Vec<(String, String)>, name: &String) -> (r: Option<&'a String>)
    ensures
        r matches Some(v) ==> lookup_pairs(str_pairs_view(pairs@), name@) == Some(v@),
        r is None ==> lookup_pairs(str_pairs_view(pairs@), name@) is None,
{
    let n = pairs.len();
    let mut i: usize = 0;
    proof {
        assert(pairs@.subrange(0, n as int) =~= pairs@);
    }
    while i < n
        invariant
            n == pairs@.len(),
            i <= n,
            lookup_pairs(str_pairs_view(pairs@), name@) == lookup_pairs(
                str_pairs_view(pairs@.subrange(i as int, n as int)),
                name@,
            ),
        decreases n - i,
    {
        let ghost suf = pairs@.subrange(i as int, n as int);
        proof {
            assert(str_pairs_view(suf).len() == suf.len());
            assert(suf[0] == pairs@[i as int]);
            assert(str_pairs_view(suf)[0] == (pairs@[i as int].0@, pairs@[i as int].1@));
        }
        if pairs[i].0.eq(name) {
            proof {
                assert(str_pairs_view(suf)[0].0 == name@);
                assert(lookup_pairs(str_pairs_view(suf), name@) == Some(str_pairs_view(suf)[0].1));
            }
            return Some(&pairs[i].1);
        }
        proof {
            assert(str_pairs_view(suf)[0].0 != name@);
            assert(lookup_pairs(str_pairs_view(suf), name@) == lookup_pairs(
                str_pairs_view(suf).subrange(1, str_pairs_view(suf).len() as int),
                name@,
            ));
            assert(str_pairs_view(suf).subrange(1, str_pairs_view(suf).len() as int)
                =~= str_pairs_view(pairs@.subrange(i + 1, n as int)));
        }
        i += 1;
    }
    proof {
        assert(str_pairs_view(pairs@.subrange(n as int, n as int)) =~= Seq::<
            (Seq<char>, Seq<char>),
        >::empty());
    }
    None
}

/// Result of evaluating a node list: the segments produced, whether any
/// variable reference was seen, and whether any of them was present.
pub ghost struct EvalOk {
    pub segs: Seq<SegV>,
    pub vars_seen: bool,
    pub present: bool,
}

pub open spec fn style_seg(tok: Seq<char>, sv: SegV) -> SegV {
    if sv.style is None {
        SegV { text: sv.text, style: Some(tok) }
    } else {
        sv
    }
}

pub open spec fn apply_style_segs(tok: Seq<char>, segs: Seq<SegV>) -> Seq<SegV> {
    segs.map_values(|sv: SegV| style_seg(tok, sv))
}

/// A style key may be written as a variable-style reference (`$style`);
/// a leading dollar is not part of the key looked up.
pub open spec fn strip_key(key: Seq<char>) -> Seq<char> {
    if key.len() > 0 && key[0] == '$' {
        key.subrange(1, key.len() as int)
    } else {
        key
    }
}

/// Evaluation of one node.
///
/// A literal yields one unstyled segment (styles are attached by enclosing
/// groups). A variable yields what its binding holds; an unbound name is an
/// error. A group whose variables are all absent vanishes entirely,
/// separators included; otherwise the group's style (resolved from its key;
/// an unresolvable key styles nothing, without error) is given to every
/// inner segment that has none yet.
pub open spec fn spec_eval_node(
    n: NodeV,
    vars: Seq<(Seq<char>, VarV)>,
    styles: Seq<(Seq<char>, Seq<char>)>,
) -> Result<EvalOk, Seq<char>>
    decreases n,
{
    match n {
        NodeV::Literal(t) => Ok(
            EvalOk {
                segs: if t.len() > 0 {
                    seq![SegV { text: t, style: None }]
                } else {
                    Seq::empty()
                },
                vars_seen: false,
                present: false,
            },
        ),
        NodeV::Variable(name) => match lookup_pairs(vars, name) {
            None => Err(name),
            Some(VarV::Text(t)) => Ok(
                EvalOk {
                    segs: if t.len() > 0 {
                        seq![SegV { text: t, style: None }]
                    } else {
                        Seq::empty()
                    },
                    vars_seen: true,
                    present: t.len() > 0,
                },
            ),
            Some(VarV::Segments(sv)) => Ok(
                EvalOk { segs: sv, vars_seen: true, present: sv.len() > 0 },
            ),
        },
        NodeV::Group(children, key) => match spec_eval_nodes(children, vars, styles) {
            Err(e) => Err(e),
            Ok(inner) => {
                if inner.vars_seen && !inner.present {
                    Ok(EvalOk { segs: Seq::empty(), vars_seen: true, present: false })
                } else {
                    let styled = match lookup_pairs(styles, strip_key(key)) {
                        Some(tok) => apply_style_segs(tok, inner.segs),
                        None => inner.segs,
                    };
                    Ok(EvalOk { segs: styled, vars_seen: inner.vars_seen, present: inner.present })
                }
            },
        },
    }
}

pub open spec fn spec_eval_nodes(
    nodes: Seq<NodeV>,
    vars: Seq<(Seq<char>, VarV)>,
    styles: Seq<(Seq<char>, Seq<char>)>,
) -> Result<EvalOk, Seq<char>>
    decreases nodes,
{
    if nodes.len() == 0 {
        Ok(EvalOk { segs: Seq::empty(), vars_seen: false, present: false })
    } else {
        match spec_eval_node(nodes[0], vars, styles) {
            Err(e) => Err(e),
            Ok(h) => match spec_eval_nodes(nodes.subrange(1, nodes.len() as int), vars, styles) {
                Err(e) => Err(e),
                Ok(t) => Ok(
                    EvalOk {
                        segs: h.segs + t.segs,
                        vars_seen: h.vars_seen || t.vars_seen,
                        present: h.present || t.present,
                    },
                ),
            },
        }
    }
}

proof fn lemma_nodes_view_concat(a: Seq<FormatNode>, b: Seq<FormatNode>)
    ensures
        nodes_view(a + b) == nodes_view(a) + nodes_view(b),
    decreases a.len(),
{
    if a.len() == 0 {
        assert(a + b =~= b);
        assert(nodes_view(a) + nodes_view(b) =~= nodes_view(b));
    } else {
        let t = a.subrange(1, a.len() as int);
        lemma_nodes_view_concat(t, b);
        assert((a + b)[0] == a[0]);
        assert((a + b).subrange(1, (a + b).len() as int) =~= t + b);
        assert(seq![node_view(a[0])] + (nodes_view(t) + nodes_view(b)) =~= (seq![node_view(a[0])]
            + nodes_view(t)) + nodes_view(b));
    }
}

/// Evaluating a concatenation evaluates the parts in order: the first error
/// wins, and on success the segments concatenate and the flags combine.
pub proof fn lemma_eval_nodes_concat(
    a: Seq<NodeV>,
    b: Seq<NodeV>,
    vars: Seq<(Seq<char>, VarV)>,
    styles: Seq<(Seq<char>, Seq<char>)>,
)
    ensures
        spec_eval_nodes(a + b, vars, styles) == (match (
            spec_eval_nodes(a, vars, styles),
            spec_eval_nodes(b, vars, styles),
        ) {
            (Err(e), _) => Err::<EvalOk, Seq<char>>(e),
            (Ok(_), Err(e)) => Err(e),
            (Ok(x), Ok(y)) => Ok(
                EvalOk {
                    segs: x.segs + y.segs,
                    vars_seen: x.vars_seen || y.vars_seen,
                    present: x.present || y.present,
                },
            ),
        }),
    decreases a.len(),
{
    if a.len() == 0 {
        assert(a + b =~= b);
        match spec_eval_nodes(b, vars, styles) {
            Err(_) => {},
            Ok(y) => {
                assert(Seq::<SegV>::empty() + y.segs =~= y.segs);
            },
        }
    } else {
        let t = a.subrange(1, a.len() as int);
        lemma_eval_nodes_concat(t, b, vars, styles);
        assert((a + b)[0] == a[0]);
        assert((a + b).subrange(1, (a + b).len() as int) =~= t + b);
        match spec_eval_node(a[0], vars, styles) {
            Err(_) => {},
            Ok(h) => {
                match (spec_eval_nodes(t, vars, styles), spec_eval_nodes(b, vars, styles)) {
                    (Ok(x), Ok(y)) => {
                        assert(h.segs + (x.segs + y.segs) =~= (h.segs + x.segs) + y.segs);
                    },
                    _ => {},
                }
            },
        }
    }
}

proof fn lemma_nodes_view_one(x: FormatNode)
    ensures
        nodes_view(seq![x]) == seq![node_view(x)],
{
    lemma_nodes_view_cons(x, Seq::<FormatNode>::empty());
    assert(seq![x] + Seq::<FormatNode>::empty() =~= seq![x]);
    assert(nodes_view(Seq::<FormatNode>::empty()) == Seq::<NodeV>::empty());
    assert(seq![node_view(x)] + Seq::<NodeV>::empty() =~= seq![node_view(x)]);
}

fn clone_segment(s: &Segment) -> (r: Segment)
    ensures
        seg_view(r) == seg_view(*s),
{
    Segment {
        text: s.text.clone(),
        style: match &s.style {
            Some(st) => Some(st.clone()),
            None => None,
        },
    }
}

fn clone_segments(sv: &Vec<Segment>) -> (r: Vec<Segment>)
    ensures
        segs_view(r@) == segs_view(sv@),
{
    let n = sv.len();
    let mut out: Vec<Segment> = Vec::new();
    let mut i: usize = 0;
    while i < n
        invariant
            n == sv@.len(),
            i <= n,
            out@.len() == i,
            forall|k: int| 0 <= k < i ==> seg_view(out@[k]) == seg_view(sv@[k]),
        decreases n - i,
    {
        out.push(clone_segment(&sv[i]));
        i += 1;
    }
    proof {
        assert(segs_view(out@) =~= segs_view(sv@));
    }
    out
}

fn apply_style_exec(tok: &String, segs: &Vec<Segment>) -> (r: Vec<Segment>)
    ensures
        segs_view(r@) == apply_style_segs(tok@, segs_view(segs@)),
{
    let n = segs.len();
    let mut out: Vec<Segment> = Vec::new();
    let mut i: usize = 0;
    while i < n
        invariant
            n == segs@.len(),
            i <= n,
            out@.len() == i,
            forall|k: int| 0 <= k < i ==> seg_view(out@[k]) == style_seg(tok@, seg_view(segs@[k])),
        decreases n - i,
    {
        let styled = match &segs[i].style {
            None => Segment { text: segs[i].text.clone(), style: Some(tok.clone()) },
            Some(_) => clone_segment(&segs[i]),
        };
        out.push(styled);
        i += 1;
    }
    proof {
        assert(segs_view(out@) =~= apply_style_segs(tok@, segs_view(segs@)));
    }
    out
}

fn strip_key_exec(key: &String) -> (r: String)
    ensures
        r@ == strip_key(key@),
{
    let n = key.as_str().unicode_len();
    if n > 0 && key.as_str().get_char(0) == '$' {
        let r = String::from_str(key.as_str().substring_char(1, n));
        proof {
            assert(r@ =~= strip_key(key@));
        }
        r
    } else {
        key.clone()
    }
}

/// Exec-side evaluation result before packaging.
struct Evaluated {
    segs: Vec<Segment>,
    vars_seen: bool,
    present: bool,
}

spec fn evaluated_view(ev: Evaluated) -> EvalOk {
    EvalOk { segs: segs_view(ev.segs@), vars_seen: ev.vars_seen, present: ev.present }
}

#[verifier::loop_isolation(false)]
fn eval_node_exec(
    n: &FormatNode,
    vars: &Vec<(String, VarValue)>,
    styles: &Vec<(String, String)>,
) -> (r: Result<Evaluated, FormatError>)
    ensures
        ({
            let sp = spec_eval_node(node_view(*n), vars_view(vars@), str_pairs_view(styles@));
            match r {
                Ok(ev) => sp == Ok::<EvalOk, Seq<char>>(evaluated_view(ev)),
                Err(e) => sp matches Err(name) && err_view(e) == ErrV::UnknownVariable(name),
            }
        }),
    decreases *n,
{
    match n {
        FormatNode::Literal(t) => {
            let mut segs: Vec<Segment> = Vec::new();
            if !t.as_str().is_empty() {
                segs.push(Segment { text: t.clone(), style: None });
            }
            proof {
                if t@.len() > 0 {
                    assert(segs_view(segs@) =~= seq![SegV { text: t@, style: None }]);
                } else {
                    assert(segs_view(segs@) =~= Seq::<SegV>::empty());
                }
            }
            Ok(Evaluated { segs, vars_seen: false, present: false })
        },
        FormatNode::Variable(name) => match lookup_var(vars, name) {
            None => Err(FormatError::UnknownVariable(name.clone())),
            Some(v) => match v {
                VarValue::Text(t) => {
                    let mut segs: Vec<Segment> = Vec::new();
                    let present = !t.as_str().is_empty();
                    if present {
                        segs.push(Segment { text: t.clone(), style: None });
                    }
                    proof {
                        if t@.len() > 0 {
                            assert(segs_view(segs@) =~= seq![SegV { text: t@, style: None }]);
                        } else {
                            assert(segs_view(segs@) =~= Seq::<SegV>::empty());
                        }
                    }
                    Ok(Evaluated { segs, vars_seen: true, present })
                },
                VarValue::Segments(sv) => {
                    let segs = clone_segments(sv);
                    let present = segs.len() > 0;
                    Ok(Evaluated { segs, vars_seen: true, present })
                },
            },
        },
        FormatNode::Group(children, key) => {
            let m = children.len();
            let mut segs: Vec<Segment> = Vec::new();
            let mut vars_seen = false;
            let mut present = false;
            let mut j: usize = 0;
            proof {
                assert(node_view(*n) == NodeV::Group(nodes_view(children@), key@));
                assert(nodes_view(children@.subrange(0, 0)) =~= Seq::<NodeV>::empty());
                assert(segs_view(segs@) =~= Seq::<SegV>::empty());
            }
            while j < m
                invariant
                    m == children@.len(),
                    j <= m,
                    spec_eval_nodes(
                        nodes_view(children@.subrange(0, j as int)),
                        vars_view(vars@),
                        str_pairs_view(styles@),
                    ) == Ok::<EvalOk, Seq<char>>(
                        EvalOk { segs: segs_view(segs@), vars_seen, present },
                    ),
                decreases m - j,
            {
                let ghost pre = children@.subrange(0, j as int);
                let ghost suf = children@.subrange(j as int, m as int);
                proof {
                    assert(n->Group_0 == *children);
                    assert(decreases_to!(*n => n->Group_0));
                    assert(decreases_to!(n->Group_0 => n->Group_0@));
                    assert(decreases_to!(n->Group_0@ => n->Group_0@[j as int]));
                    assert(children@[j as int] == n->Group_0@[j as int]);
                }
                match eval_node_exec(&children[j], vars, styles) {
                    Err(e) => {
                        proof {
                            assert(children@ =~= pre + suf);
                            lemma_nodes_view_concat(pre, suf);
                            assert(suf[0] == children@[j as int]);
                            assert(nodes_view(suf)[0] == node_view(children@[j as int]));
                            lemma_eval_nodes_concat(
                                nodes_view(pre),
                                nodes_view(suf),
                                vars_view(vars@),
                                str_pairs_view(styles@),
                            );
                        }
                        return Err(e);
                    },
                    Ok(mut ev) => {
                        proof {
                            assert(children@.subrange(0, j + 1) =~= pre + seq![
                                children@[j as int],
                            ]);
                            lemma_nodes_view_concat(pre, seq![children@[j as int]]);
                            lemma_nodes_view_one(children@[j as int]);
                            lemma_eval_nodes_concat(
                                nodes_view(pre),
                                seq![node_view(children@[j as int])],
                                vars_view(vars@),
                                str_pairs_view(styles@),
                            );
                            assert(seq![node_view(children@[j as int])].subrange(
                                1,
                                1,
                            ) =~= Seq::<NodeV>::empty());
                            assert(evaluated_view(ev).segs + Seq::<SegV>::empty()
                                =~= evaluated_view(ev).segs);
                        }
                        let ghost old_segs = segs@;
                        let ghost added = ev.segs@;
                        segs.append(&mut ev.segs);
                        proof {
                            assert(segs@ =~= old_segs + added);
                            assert(segs_view(segs@) =~= segs_view(old_segs) + segs_view(added));
                        }
                        vars_seen = vars_seen || ev.vars_seen;
                        present = present || ev.present;
                    },
                }
                j += 1;
            }
            proof {
                assert(children@.subrange(0, m as int) =~= children@);
            }
            if vars_seen && !present {
                let empty: Vec<Segment> = Vec::new();
                proof {
                    assert(segs_view(empty@) =~= Seq::<SegV>::empty());
                }
                Ok(Evaluated { segs: empty, vars_seen: true, present: false })
            } else {
                let stripped = strip_key_exec(key);
                match lookup_str(styles, &stripped) {
                    Some(tok) => {
                        let styled = apply_style_exec(tok, &segs);
                        Ok(Evaluated { segs: styled, vars_seen, present })
                    },
                    None => Ok(Evaluated { segs, vars_seen, present }),
                }
            }
        },
    }
}

/// Evaluate an expanded node tree against the resolver's variable and style
/// bindings. Succeeds exactly when every referenced variable is bound,
/// yielding the segments the tree denotes; an unbound name is reported as an
/// unknown-variable error.
#[verifier::loop_isolation(false)]
pub fn evaluate(nodes: &Vec<FormatNode>, resolver: &Resolver) -> (r: Result<
    Vec<Segment>,
    FormatError,
>)
    ensures
        ({
            let sp = spec_eval_nodes(
                nodes_view(nodes@),
                vars_view(resolver.vars@),
                str_pairs_view(resolver.styles@),
            );
            match r {
                Ok(segs) => sp matches Ok(out) && segs_view(segs@) == out.segs,
                Err(e) => sp matches Err(name) && err_view(e) == ErrV::UnknownVariable(name),
            }
        }),
{
    let m = nodes.len();
    let mut segs: Vec<Segment> = Vec::new();
    let mut j: usize = 0;
    proof {
        assert(nodes_view(nodes@.subrange(0, 0)) =~= Seq::<NodeV>::empty());
        assert(segs_view(segs@) =~= Seq::<SegV>::empty());
    }
    while j < m
        invariant
            m == nodes@.len(),
            j <= m,
            spec_eval_nodes(
                nodes_view(nodes@.subrange(0, j as int)),
                vars_view(resolver.vars@),
                str_pairs_view(resolver.styles@),
            ) matches Ok(out) && out.segs == segs_view(segs@),
        decreases m - j,
    {
        let ghost pre = nodes@.subrange(0, j as int);
        let ghost suf = nodes@.subrange(j as int, m as int);
        match eval_node_exec(&nodes[j], &resolver.vars, &resolver.styles) {
            Err(e) => {
                proof {
                    assert(nodes@ =~= pre + suf);
                    lemma_nodes_view_concat(pre, suf);
                    assert(suf[0] == nodes@[j as int]);
                    assert(nodes_view(suf)[0] == node_view(nodes@[j as int]));
                    lemma_eval_nodes_concat(
                        nodes_view(pre),
                        nodes_view(suf),
                        vars_view(resolver.vars@),
                        str_pairs_view(resolver.styles@),
                    );
                }
                return Err(e);
            },
            Ok(mut ev) => {
                proof {
                    assert(nodes@.subrange(0, j + 1) =~= pre + seq![nodes@[j as int]]);
                    lemma_nodes_view_concat(pre, seq![nodes@[j as int]]);
                    lemma_nodes_view_one(nodes@[j as int]);
                    lemma_eval_nodes_concat(
                        nodes_view(pre),
                        seq![node_view(nodes@[j as int])],
                        vars_view(resolver.vars@),
                        str_pairs_view(resolver.styles@),
                    );
                    assert(seq![node_view(nodes@[j as int])].subrange(1, 1) =~= Seq::<
                        NodeV,
                    >::empty());
                    assert(evaluated_view(ev).segs + Seq::<SegV>::empty() =~= evaluated_view(
                        ev,
                    ).segs);
                }
                let ghost old_segs = segs@;
                let ghost added = ev.segs@;
                segs.append(&mut ev.segs);
                proof {
                    assert(segs@ =~= old_segs + added);
                    assert(segs_view(segs@) =~= segs_view(old_segs) + segs_view(added));
                }
            },
        }
        j += 1;
    }
    proof {
        assert(nodes@.subrange(0, m as int) =~= nodes@);
    }
    Ok(segs)
}

/// Whether a node contains a variable reference, transitively.
pub open spec fn node_has_var(n: NodeV) -> bool
    decreases n,
{
    match n {
        NodeV::Literal(_) => false,
        NodeV::Variable(_) => true,
        NodeV::Group(children, _) => nodes_have_var(children),
    }
}

pub open spec fn nodes_have_var(nodes: Seq<NodeV>) -> bool
    decreases nodes,
{
    if nodes.len() == 0 {
        false
    } else {
        node_has_var(nodes[0]) || nodes_have_var(nodes.subrange(1, nodes.len() as int))
    }
}

/// A binding that is absent for this render: an empty segment list.
pub open spec fn is_absent_binding(v: VarV) -> bool {
    match v {
        VarV::Segments(s) => s.len() == 0,
        VarV::Text(_) => false,
    }
}

/// Whether every name these bindings resolve at all is resolved as absent.
pub open spec fn all_bindings_absent(vars: Seq<(Seq<char>, VarV)>) -> bool {
    forall|name: Seq<char>|
        (#[trigger] lookup_pairs(vars, name)) matches Some(v) ==> is_absent_binding(v)
}

/// Bindings whose every entry is absent resolve every name absent.
pub proof fn lemma_absent_values_bindings(pairs: Seq<(Seq<char>, VarV)>)
    requires
        forall|i: int| 0 <= i < pairs.len() ==> is_absent_binding((#[trigger] pairs[i]).1),
    ensures
        all_bindings_absent(pairs),
    decreases pairs.len(),
{
    if pairs.len() == 0 {
    } else {
        let rest = pairs.subrange(1, pairs.len() as int);
        assert(forall|i: int| 0 <= i < rest.len() ==> rest[i] == pairs[i + 1]);
        lemma_absent_values_bindings(rest);
        assert forall|name: Seq<char>|
            (#[trigger] lookup_pairs(pairs, name)) matches Some(v) ==> is_absent_binding(v) by {
            if pairs[0].0 == name {
                assert(is_absent_binding(pairs[0].1));
            } else {
                assert(lookup_pairs(pairs, name) == lookup_pairs(rest, name));
            }
        }
    }
}

/// When every resolvable binding is absent, an evaluation that succeeds has
/// marked nothing present, and has seen a variable exactly where the tree
/// holds one.
pub proof fn lemma_absent_bindings_node(
    n: NodeV,
    vars: Seq<(Seq<char>, VarV)>,
    styles: Seq<(Seq<char>, Seq<char>)>,
)
    requires
        all_bindings_absent(vars),
    ensures
        spec_eval_node(n, vars, styles) matches Ok(out) ==> !out.present && out.vars_seen
            == node_has_var(n),
    decreases n,
{
    match n {
        NodeV::Literal(_) => {},
        NodeV::Variable(name) => {
            match lookup_pairs(vars, name) {
                Some(v) => {
                    assert(is_absent_binding(v));
                },
                None => {},
            }
        },
        NodeV::Group(children, _) => {
            lemma_absent_bindings_nodes(children, vars, styles);
        },
    }
}

pub proof fn lemma_absent_bindings_nodes(
    nodes: Seq<NodeV>,
    vars: Seq<(Seq<char>, VarV)>,
    styles: Seq<(Seq<char>, Seq<char>)>,
)
    requires
        all_bindings_absent(vars),
    ensures
        spec_eval_nodes(nodes, vars, styles) matches Ok(out) ==> !out.present && out.vars_seen
            == nodes_have_var(nodes),
    decreases nodes,
{
    if nodes.len() == 0 {
    } else {
        lemma_absent_bindings_node(nodes[0], vars, styles);
        lemma_absent_bindings_nodes(nodes.subrange(1, nodes.len() as int), vars, styles);
    }
}

/// Whether every separator literal sits in a group beside a variable: each
/// top-level node is a variable reference or a group containing one.
pub open spec fn separators_grouped(nodes: Seq<NodeV>) -> bool {
    forall|i: int|
        0 <= i < nodes.len() ==> (nodes[i] is Variable || (nodes[i] matches NodeV::Group(ch, _)
            && nodes_have_var(ch)))
}

/// A render all of whose resolvable variables are absent produces no output
/// when it succeeds, provided every literal sits in a group beside some
/// variable: absent variables do not force emission of the separators that
/// decorate them (and an unresolvable name is an error, never partial
/// output).
pub proof fn lemma_all_absent_renders_nothing(
    nodes: Seq<NodeV>,
    vars: Seq<(Seq<char>, VarV)>,
    styles: Seq<(Seq<char>, Seq<char>)>,
)
    requires
        all_bindings_absent(vars),
        separators_grouped(nodes),
    ensures
        spec_eval_nodes(nodes, vars, styles) matches Ok(out) ==> out.segs == Seq::<SegV>::empty(),
    decreases nodes,
{
    if nodes.len() == 0 {
    } else {
        let rest = nodes.subrange(1, nodes.len() as int);
        match nodes[0] {
            NodeV::Literal(_) => {
                assert(false);
            },
            NodeV::Variable(name) => {
                match lookup_pairs(vars, name) {
                    Some(v) => {
                        assert(is_absent_binding(v));
                        match v {
                            VarV::Segments(s) => {
                                assert(s =~= Seq::<SegV>::empty());
                            },
                            VarV::Text(_) => {},
                        }
                    },
                    None => {},
                }
            },
            NodeV::Group(children, _) => {
                lemma_absent_bindings_nodes(children, vars, styles);
            },
        }
        assert(forall|i: int| 0 <= i < rest.len() ==> rest[i] == nodes[i + 1]);
        lemma_all_absent_renders_nothing(rest, vars, styles);
        match (spec_eval_node(nodes[0], vars, styles), spec_eval_nodes(rest, vars, styles)) {
            (Ok(h), Ok(t)) => {
                assert(h.segs + t.segs =~= Seq::<SegV>::empty());
            },
            _ => {},
        }
    }
}

/// Expansion of one node: a variable bound as a meta-variable is replaced,
/// at evaluation time, by the parse of its replacement format string,
/// recursively, up to `depth` rounds; anything else passes through (groups
/// expand their children in place).
pub open spec fn spec_expand_node(
    n: NodeV,
    metas: Seq<(Seq<char>, Seq<char>)>,
    depth: nat,
) -> Result<Seq<NodeV>, ErrV>
    decreases depth, n,
{
    match n {
        NodeV::Literal(_) => Ok(seq![n]),
        NodeV::Variable(name) => match lookup_pairs(metas, name) {
            None => Ok(seq![n]),
            Some(rep) => {
                if depth == 0 {
                    Err(ErrV::RecursionLimit)
                } else {
                    match spec_parse(rep, false) {
                        Err(_) => Err(ErrV::Parse(rep)),
                        Ok(pr) => spec_expand_nodes(pr.0, metas, (depth - 1) as nat),
                    }
                }
            },
        },
        NodeV::Group(children, key) => match spec_expand_nodes(children, metas, depth) {
            Err(e) => Err(e),
            Ok(ch) => Ok(seq![NodeV::Group(ch, key)]),
        },
    }
}

pub open spec fn spec_expand_nodes(
    nodes: Seq<NodeV>,
    metas: Seq<(Seq<char>, Seq<char>)>,
    depth: nat,
) -> Result<Seq<NodeV>, ErrV>
    decreases depth, nodes,
{
    if nodes.len() == 0 {
        Ok(Seq::empty())
    } else {
        match spec_expand_node(nodes[0], metas, depth) {
            Err(e) => Err(e),
            Ok(h) => match spec_expand_nodes(
                nodes.subrange(1, nodes.len() as int),
                metas,
                depth,
            ) {
                Err(e) => Err(e),
                Ok(t) => Ok(h + t),
            },
        }
    }
}

fn expand_node_exec(n: FormatNode, metas: &Vec<(String, String)>, depth: u64) -> (r: Result<
    Vec<FormatNode>,
    FormatError,
>)
    ensures
        ({
            let sp = spec_expand_node(node_view(n), str_pairs_view(metas@), depth as nat);
            match r {
                Ok(out) => sp == Ok::<Seq<NodeV>, ErrV>(nodes_view(out@)),
                Err(e) => sp matches Err(ev) && err_view(e) == ev,
            }
        }),
    decreases depth, n,
{
    match n {
        FormatNode::Literal(t) => {
            let node = FormatNode::Literal(t);
            let mut out: Vec<FormatNode> = Vec::new();
            out.push(node);
            proof {
                lemma_nodes_view_one(out@[0]);
                assert(out@ =~= seq![out@[0]]);
            }
            Ok(out)
        },
        FormatNode::Variable(name) => {
            match lookup_str(metas, &name) {
                None => {
                    let node = FormatNode::Variable(name);
                    let mut out: Vec<FormatNode> = Vec::new();
                    out.push(node);
                    proof {
                        lemma_nodes_view_one(out@[0]);
                        assert(out@ =~= seq![out@[0]]);
                    }
                    Ok(out)
                },
                Some(rep) => {
                    if depth == 0 {
                        Err(FormatError::RecursionLimit)
                    } else {
                        match parse_format(rep.as_str()) {
                            Err(_) => Err(FormatError::Parse(rep.clone())),
                            Ok(parsed) => expand_nodes_exec(parsed, metas, depth - 1),
                        }
                    }
                },
            }
        },
        FormatNode::Group(children, key) => {
            proof {
                assert(node_view(n) == NodeV::Group(nodes_view(children@), key@));
                assert(decreases_to!(n => children));
                assert(decreases_to!(children => children@));
            }
            match expand_nodes_exec(children, metas, depth) {
                Err(e) => Err(e),
                Ok(ch) => {
                    let node = FormatNode::Group(ch, key);
                    let mut out: Vec<FormatNode> = Vec::new();
                    out.push(node);
                    proof {
                        lemma_nodes_view_one(out@[0]);
                        assert(out@ =~= seq![out@[0]]);
                    }
                    Ok(out)
                },
            }
        },
    }
}

fn expand_nodes_exec(nodes: Vec<FormatNode>, metas: &Vec<(String, String)>, depth: u64) -> (r:
    Result<Vec<FormatNode>, FormatError>)
    ensures
        ({
            let sp = spec_expand_nodes(nodes_view(nodes@), str_pairs_view(metas@), depth as nat);
            match r {
                Ok(out) => sp == Ok::<Seq<NodeV>, ErrV>(nodes_view(out@)),
                Err(e) => sp matches Err(ev) && err_view(e) == ev,
            }
        }),
    decreases depth, nodes@,
{
    let ghost entry = nodes@;
    let mut nodes = nodes;
    if nodes.len() == 0 {
        let out: Vec<FormatNode> = Vec::new();
        proof {
            assert(nodes_view(out@) =~= Seq::<NodeV>::empty());
        }
        Ok(out)
    } else {
        let h = nodes.remove(0);
        proof {
            assert(h == entry[0]);
            assert(nodes@ =~= entry.subrange(1, entry.len() as int));
            assert(decreases_to!(entry => entry[0]));
            let ev = nodes_view(entry);
            assert(ev == seq![node_view(entry[0])] + nodes_view(
                entry.subrange(1, entry.len() as int),
            ));
            assert(ev[0] == node_view(entry[0]));
            assert(ev.subrange(1, ev.len() as int) =~= nodes_view(
                entry.subrange(1, entry.len() as int),
            ));
        }
        match expand_node_exec(h, metas, depth) {
            Err(e) => Err(e),
            Ok(mut hv) => {
                match expand_nodes_exec(nodes, metas, depth) {
                    Err(e) => Err(e),
                    Ok(mut tv) => {
                        let ghost hseq = hv@;
                        let ghost tseq = tv@;
                        hv.append(&mut tv);
                        proof {
                            assert(hv@ =~= hseq + tseq);
                            lemma_nodes_view_concat(hseq, tseq);
                        }
                        Ok(hv)
                    },
                }
            },
        }
    }
}

/// Expand every meta-variable reference in the tree, recursively, with at
/// most `depth` rounds of replacement; exceeding the cap is an error, as is
/// a replacement string that does not parse.
pub fn expand_metas(nodes: Vec<FormatNode>, metas: &Vec<(String, String)>, depth: u64) -> (r:
    Result<Vec<FormatNode>, FormatError>)
    ensures
        ({
            let sp = spec_expand_nodes(nodes_view(nodes@), str_pairs_view(metas@), depth as nat);
            match r {
                Ok(out) => sp == Ok::<Seq<NodeV>, ErrV>(nodes_view(out@)),
                Err(e) => sp matches Err(ev) && err_view(e) == ev,
            }
        }),
{
    expand_nodes_exec(nodes, metas, depth)
}

/// The end-to-end semantics of rendering one format string: parse it,
/// expand its meta-variables, evaluate the result.
pub open spec fn spec_render(
    fmt: Seq<char>,
    metas: Seq<(Seq<char>, Seq<char>)>,
    vars: Seq<(Seq<char>, VarV)>,
    styles: Seq<(Seq<char>, Seq<char>)>,
    depth: nat,
) -> Result<Seq<SegV>, ErrV> {
    match spec_parse(fmt, false) {
        Err(_) => Err(ErrV::Parse(fmt)),
        Ok(pr) => match spec_expand_nodes(pr.0, metas, depth) {
            Err(e) => Err(e),
            Ok(exp) => match spec_eval_nodes(exp, vars, styles) {
                Err(name) => Err(ErrV::UnknownVariable(name)),
                Ok(out) => Ok(out.segs),
            },
        },
    }
}

/// Render one format string against a resolver: parse, expand
/// meta-variables (up to `depth` rounds), then evaluate.
pub fn render_format(fmt: &str, resolver: &Resolver, depth: u64) -> (r: Result<
    Vec<Segment>,
    FormatError,
>)
    ensures
        ({
            let sp = spec_render(
                fmt@,
                str_pairs_view(resolver.metas@),
                vars_view(resolver.vars@),
                str_pairs_view(resolver.styles@),
                depth as nat,
            );
            match r {
                Ok(segs) => sp matches Ok(sv) && segs_view(segs@) == sv,
                Err(e) => sp matches Err(ev) && err_view(e) == ev,
            }
        }),
{
    match parse_format(fmt) {
        Err(e) => Err(e),
        Ok(nodes) => match expand_metas(nodes, &resolver.metas, depth) {
            Err(e) => Err(e),
            Ok(expanded) => evaluate(&expanded, resolver),
        },
    }
}

} // verus!
