use rustgit::rules::{
    expand_home, expanded_patterns, line_is_blank, parse_rule, parse_rules, RepoRule, RuleKind,
};

fn lines(text: &[&str]) -> Vec<String> {
    text.iter().map(|s| s.to_string()).collect()
}

fn rule(pattern: &str, kind: RuleKind) -> RepoRule {
    RepoRule { pattern: pattern.to_string(), kind }
}

#[test]
fn exclusion_marker_is_stripped() {
    let parsed = parse_rule("!~/src/old-*").unwrap();
    assert_eq!(parsed.kind, RuleKind::Exclude);
    assert_eq!(parsed.pattern, "~/src/old-*");
}

#[test]
fn inclusion_pattern_is_the_whole_line() {
    let parsed = parse_rule("~/src/*").unwrap();
    assert_eq!(parsed.kind, RuleKind::Include);
    assert_eq!(parsed.pattern, "~/src/*");
    let padded = parse_rule("  ~/src/* ").unwrap();
    assert_eq!(padded.kind, RuleKind::Include);
    assert_eq!(padded.pattern, "  ~/src/* ");
}

#[test]
fn comments_and_blank_lines_state_no_rule() {
    assert!(parse_rule("").is_none());
    assert!(parse_rule("   ").is_none());
    assert!(parse_rule("\t \u{a0}\u{3000}").is_none());
    assert!(parse_rule("# a comment").is_none());
    assert!(parse_rule("#").is_none());
}

#[test]
fn a_comment_starts_in_the_first_column() {
    let parsed = parse_rule(" # not a comment").unwrap();
    assert_eq!(parsed.kind, RuleKind::Include);
    assert_eq!(parsed.pattern, " # not a comment");
}

#[test]
fn a_lone_marker_excludes_the_empty_pattern() {
    let parsed = parse_rule("!").unwrap();
    assert_eq!(parsed.kind, RuleKind::Exclude);
    assert_eq!(parsed.pattern, "");
}

#[test]
fn blank_lines_are_recognized() {
    assert!(line_is_blank(""));
    assert!(line_is_blank(" \t\r"));
    assert!(!line_is_blank(" x "));
    assert!(!line_is_blank("!"));
}

#[test]
fn rules_come_in_line_order() {
    let parsed = parse_rules(&lines(&[
        "# repositories",
        "~/src/*",
        "",
        "!~/src/vendor-*",
        "/opt/work/**/checkout",
        "   ",
        "!/opt/work/tmp/*",
    ]));
    assert_eq!(
        parsed,
        vec![
            rule("~/src/*", RuleKind::Include),
            rule("~/src/vendor-*", RuleKind::Exclude),
            rule("/opt/work/**/checkout", RuleKind::Include),
            rule("/opt/work/tmp/*", RuleKind::Exclude),
        ]
    );
}

#[test]
fn no_lines_no_rules() {
    assert_eq!(parse_rules(&Vec::new()), Vec::new());
}

#[test]
fn a_leading_tilde_becomes_the_home_directory() {
    assert_eq!(expand_home("~", Some("/home/u")), "/home/u");
    assert_eq!(expand_home("~/", Some("/home/u")), "/home/u/");
    assert_eq!(expand_home("~/src/*", Some("/home/u")), "/home/u/src/*");
}

#[test]
fn other_tildes_stay() {
    assert_eq!(expand_home("", Some("/home/u")), "");
    assert_eq!(expand_home("/srv/~/x", Some("/home/u")), "/srv/~/x");
    assert_eq!(expand_home("~other/src", Some("/home/u")), "~other/src");
    assert_eq!(expand_home("~~", Some("/home/u")), "~~");
    assert_eq!(expand_home("~\\src", Some("/home/u")), "~\\src");
    assert_eq!(expand_home(" ~/src", Some("/home/u")), " ~/src");
}

#[test]
fn patterns_are_picked_by_kind_and_expanded() {
    let rules = vec![
        rule("~/src/*", RuleKind::Include),
        rule("~/src/vendor-*", RuleKind::Exclude),
        rule("/opt/work/*", RuleKind::Include),
        rule("~", RuleKind::Exclude),
    ];
    assert_eq!(
        expanded_patterns(&rules, RuleKind::Include, Some("/home/u")),
        lines(&["/home/u/src/*", "/opt/work/*"])
    );
    assert_eq!(
        expanded_patterns(&rules, RuleKind::Exclude, Some("/home/u")),
        lines(&["/home/u/src/vendor-*", "/home/u"])
    );
    assert_eq!(
        expanded_patterns(&Vec::new(), RuleKind::Include, Some("/home/u")),
        Vec::<String>::new()
    );
}

#[test]
fn without_a_home_directory_patterns_stay() {
    assert_eq!(expand_home("~", None), "~");
    assert_eq!(expand_home("~/src/*", None), "~/src/*");
    assert_eq!(expand_home("/srv/*", None), "/srv/*");
    let rules = vec![rule("~/src/*", RuleKind::Include), rule("~/tmp", RuleKind::Exclude)];
    assert_eq!(expanded_patterns(&rules, RuleKind::Include, None), lines(&["~/src/*"]));
    assert_eq!(expanded_patterns(&rules, RuleKind::Exclude, None), lines(&["~/tmp"]));
}

#[test]
fn the_home_directory_is_taken_as_it_is() {
    assert_eq!(expand_home("~/x", Some("")), "/x");
    assert_eq!(expand_home("~/x", Some("/home/u/")), "/home/u//x");
    assert_eq!(expand_home("~", Some("~")), "~");
    assert_eq!(expand_home("~/*", Some("/home/ü ser")), "/home/ü ser/*");
}
