use vcs_prompt::formatter::Segment;
use vcs_prompt::git_status::module;
use vcs_prompt::git_status::GitStatusConfig;
use vcs_prompt::status::GitStatus;

fn concat_text(segments: &[Segment]) -> String {
    let mut out = String::new();
    for seg in segments {
        out.push_str(&seg.text);
    }
    out
}

#[test]
fn all_zero_counts_render_nothing_at_all() {
    let status = GitStatus::default();
    let config = GitStatusConfig::default();
    assert!(module(&status, &config).is_none());
}

#[test]
fn a_modified_file_shows_its_symbol_in_the_status_style() {
    let status = GitStatus { modified: 1, ..Default::default() };
    let config = GitStatusConfig::default();
    let segments = module(&status, &config).unwrap();
    assert_eq!(segments.len(), 1);
    assert_eq!(segments[0].text, "!");
    assert_eq!(segments[0].style.as_deref(), Some("red bold"));
}

#[test]
fn categories_concatenate_in_the_fixed_order() {
    let status = GitStatus {
        conflicted: 1,
        deleted: 1,
        modified: 1,
        untracked: 1,
        ..Default::default()
    };
    let config = GitStatusConfig::default();
    let segments = module(&status, &config).unwrap();
    assert_eq!(concat_text(&segments), "=\u{2718}!?");
}

#[test]
fn a_count_template_shows_the_decimal_count() {
    let status = GitStatus { modified: 12, ..Default::default() };
    let mut config = GitStatusConfig::default();
    config.modified = "!$count".to_string();
    let segments = module(&status, &config).unwrap();
    assert_eq!(concat_text(&segments), "!12");
}

#[test]
fn an_unresolvable_inner_style_key_falls_back_to_the_status_style() {
    let status = GitStatus { staged: 1, ..Default::default() };
    let mut config = GitStatusConfig::default();
    config.staged = "+[$count](green)".to_string();
    config.style = "red bold".to_string();
    // the module's style resolver only knows the `style` key, so the inner
    // group evaluates unstyled rather than failing
    let segments = module(&status, &config).unwrap();
    assert_eq!(concat_text(&segments), "+1");
    assert_eq!(segments[0].text, "+");
    assert_eq!(segments[0].style.as_deref(), Some("red bold"));
    assert_eq!(segments[1].text, "1");
    assert_eq!(segments[1].style.as_deref(), Some("red bold"));
}

#[test]
fn the_stashed_symbol_is_an_escaped_dollar() {
    let status = GitStatus { stashed: 2, ..Default::default() };
    let config = GitStatusConfig::default();
    let segments = module(&status, &config).unwrap();
    assert_eq!(concat_text(&segments), "$");
}

#[test]
fn behind_renders_through_its_own_template() {
    let status = GitStatus { behind: 1, ..Default::default() };
    let mut config = GitStatusConfig::default();
    config.format = "$behind".to_string();
    config.behind = "\u{21e3}$count".to_string();
    let segments = module(&status, &config).unwrap();
    assert_eq!(concat_text(&segments), "\u{21e3}1");
}

#[test]
fn a_broken_master_format_renders_nothing() {
    let status = GitStatus { modified: 3, ..Default::default() };
    let mut config = GitStatusConfig::default();
    config.format = "[$all_status".to_string();
    assert!(module(&status, &config).is_none());
}

#[test]
fn a_broken_category_template_only_silences_its_category() {
    let status = GitStatus { modified: 1, untracked: 1, ..Default::default() };
    let mut config = GitStatusConfig::default();
    config.modified = "[oops".to_string();
    let segments = module(&status, &config).unwrap();
    assert_eq!(concat_text(&segments), "?");
}
