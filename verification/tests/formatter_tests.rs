use vcs_prompt::formatter::parse_format;
use vcs_prompt::formatter::render_format;
use vcs_prompt::formatter::FormatError;
use vcs_prompt::formatter::Resolver;
use vcs_prompt::formatter::Segment;
use vcs_prompt::formatter::VarValue;
use vcs_prompt::git_status::count_to_string;
use vcs_prompt::git_status::format_count;
use vcs_prompt::git_status::format_text;

fn concat_text(segments: &[Segment]) -> String {
    let mut out = String::new();
    for seg in segments {
        out.push_str(&seg.text);
    }
    out
}

fn empty_resolver() -> Resolver {
    Resolver { vars: Vec::new(), metas: Vec::new(), styles: Vec::new() }
}

#[test]
fn format_count_zero_yields_no_segments() {
    assert!(format_count("+$count", "git_status.staged", 0).is_none());
}

#[test]
fn format_count_renders_count_variable() {
    let segments = format_count("+$count", "git_status.staged", 3).unwrap();
    assert_eq!(concat_text(&segments), "+3");
}

#[test]
fn unmatched_bracket_is_a_parse_error_not_partial_output() {
    match parse_format("before [x") {
        Err(FormatError::Parse(f)) => assert_eq!(f, "before [x"),
        other => panic!("expected a parse error, got {:?}", other),
    }
    // the same string through evaluation: no partial segment list either
    assert!(format_text("before [x", "test.format", &Vec::new()).is_none());
}

#[test]
fn escapes_denote_the_special_characters() {
    let segments = format_text("\\$\\[\\]\\(\\)", "test.format", &Vec::new()).unwrap();
    assert_eq!(concat_text(&segments), "$[]()");
}

#[test]
fn bare_special_characters_fail_to_parse() {
    assert!(parse_format("a ) b").is_err());
    assert!(parse_format("a ( b").is_err());
    assert!(parse_format("a ] b").is_err());
    assert!(parse_format("$ no name").is_err());
    assert!(parse_format("dangling \\").is_err());
}

#[test]
fn style_group_styles_unstyled_segments() {
    let mut resolver = empty_resolver();
    resolver.styles.push(("style".to_string(), "red".to_string()));
    let segments = render_format("[hi]($style)", &resolver, 8).unwrap();
    assert_eq!(segments.len(), 1);
    assert_eq!(segments[0].text, "hi");
    assert_eq!(segments[0].style.as_deref(), Some("red"));
}

#[test]
fn unresolvable_style_key_is_not_an_error() {
    let segments = render_format("[hi](nosuch)", &empty_resolver(), 8).unwrap();
    assert_eq!(segments.len(), 1);
    assert_eq!(segments[0].text, "hi");
    assert_eq!(segments[0].style, None);
}

#[test]
fn group_with_only_absent_variables_vanishes() {
    let mut resolver = empty_resolver();
    resolver.vars.push(("x".to_string(), VarValue::Segments(Vec::new())));
    let segments = render_format("[decor $x]($style)", &resolver, 8).unwrap();
    assert!(segments.is_empty());
}

#[test]
fn group_with_a_present_variable_keeps_its_separators() {
    let mut resolver = empty_resolver();
    resolver.vars.push((
        "x".to_string(),
        VarValue::Segments(vec![Segment { text: "X".to_string(), style: None }]),
    ));
    let segments = render_format("[<$x>](nosuch)", &resolver, 8).unwrap();
    assert_eq!(concat_text(&segments), "<X>");
}

#[test]
fn empty_text_binding_is_absent() {
    let segments =
        format_text("$v", "test.format", &vec![("v".to_string(), "".to_string())]).unwrap();
    assert!(segments.is_empty());
}

#[test]
fn unknown_variable_is_a_typed_error() {
    match render_format("$nope", &empty_resolver(), 8) {
        Err(FormatError::UnknownVariable(name)) => assert_eq!(name, "nope"),
        other => panic!("expected an unknown-variable error, got {:?}", other),
    }
}

#[test]
fn meta_variable_expands_to_its_replacement() {
    let mut resolver = empty_resolver();
    resolver.metas.push(("all".to_string(), "$a$b".to_string()));
    resolver.vars.push(("a".to_string(), VarValue::Text("1".to_string())));
    resolver.vars.push(("b".to_string(), VarValue::Text("2".to_string())));
    let segments = render_format("$all", &resolver, 8).unwrap();
    assert_eq!(concat_text(&segments), "12");
}

#[test]
fn self_referential_meta_hits_the_recursion_limit() {
    let mut resolver = empty_resolver();
    resolver.metas.push(("m".to_string(), "$m".to_string()));
    match render_format("$m", &resolver, 8) {
        Err(FormatError::RecursionLimit) => {},
        other => panic!("expected the recursion limit, got {:?}", other),
    }
}

#[test]
fn nested_styles_keep_the_inner_token() {
    let mut resolver = empty_resolver();
    resolver.styles.push(("outer".to_string(), "red".to_string()));
    resolver.styles.push(("inner".to_string(), "green".to_string()));
    let segments = render_format("[a[b](inner)](outer)", &resolver, 8).unwrap();
    assert_eq!(segments.len(), 2);
    assert_eq!(segments[0].text, "a");
    assert_eq!(segments[0].style.as_deref(), Some("red"));
    assert_eq!(segments[1].text, "b");
    assert_eq!(segments[1].style.as_deref(), Some("green"));
}

#[test]
fn counts_render_in_decimal() {
    assert_eq!(count_to_string(0), "0");
    assert_eq!(count_to_string(7), "7");
    assert_eq!(count_to_string(42), "42");
    assert_eq!(count_to_string(12305), "12305");
}
