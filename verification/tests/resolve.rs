use rustgit::resolve::{check_patterns, is_excluded, resolve_repos, PatternError, RepoPlan};

fn strings(text: &[&str]) -> Vec<String> {
    text.iter().map(|s| s.to_string()).collect()
}

#[test]
fn the_resolved_list_is_sorted_and_has_no_duplicates() {
    let candidates = strings(&[
        "/home/u/src/zeta",
        "/home/u/src/alpha",
        "/home/u/src/mid",
        "/home/u/src/alpha",
        "/home/u/src/zeta",
        "/home/u/a/b",
        "/home/u/a-b",
    ]);
    let resolved = resolve_repos(&candidates, &Vec::new()).unwrap();
    assert_eq!(
        resolved,
        strings(&[
            "/home/u/a-b",
            "/home/u/a/b",
            "/home/u/src/alpha",
            "/home/u/src/mid",
            "/home/u/src/zeta",
        ])
    );
}

#[test]
fn resolution_agrees_with_sorting_the_kept_candidates() {
    let candidates = strings(&[
        "/r/k", "/r/b", "/r/x1", "/r/a", "/r/k", "/r/x2", "/r/é", "/r/B", "/r/b/c", "/r/a",
        "/r", "/r/x10",
    ]);
    let excludes = strings(&["/r/x?"]);
    let mut expected: Vec<String> =
        candidates.iter().filter(|p| *p != "/r/x1" && *p != "/r/x2").cloned().collect();
    expected.sort();
    expected.dedup();
    assert_eq!(resolve_repos(&candidates, &excludes).unwrap(), expected);
}

#[test]
fn an_excluded_path_is_absent_though_included() {
    let candidates = strings(&["/home/u/src/app", "/home/u/src/vendor-x", "/home/u/src/lib"]);
    let excludes = strings(&["/home/u/src/vendor-*"]);
    let resolved = resolve_repos(&candidates, &excludes).unwrap();
    assert_eq!(resolved, strings(&["/home/u/src/app", "/home/u/src/lib"]));
}

#[test]
fn any_exclusion_pattern_drops_a_path() {
    let candidates = strings(&["/w/one", "/w/two", "/w/three", "/w/deep/er/four"]);
    let excludes = strings(&["/w/t[wx]o", "/w/**/four", "/nothing"]);
    let resolved = resolve_repos(&candidates, &excludes).unwrap();
    assert_eq!(resolved, strings(&["/w/one", "/w/three"]));
}

#[test]
fn everything_excluded_leaves_nothing() {
    let candidates = strings(&["/w/one", "/w/two"]);
    let resolved = resolve_repos(&candidates, &strings(&["/w/*"])).unwrap();
    assert!(resolved.is_empty());
}

#[test]
fn no_candidates_resolve_to_nothing() {
    assert!(resolve_repos(&Vec::new(), &strings(&["/w/*"])).unwrap().is_empty());
    assert!(resolve_repos(&Vec::new(), &Vec::new()).unwrap().is_empty());
}

#[test]
fn resolving_twice_gives_the_same_list() {
    let candidates = strings(&["/b", "/a", "/c/d", "/a", "/c"]);
    let excludes = strings(&["/c/*"]);
    let first = resolve_repos(&candidates, &excludes).unwrap();
    let second = resolve_repos(&candidates, &excludes).unwrap();
    assert_eq!(first, second);
    assert_eq!(first, strings(&["/a", "/b", "/c"]));
}

#[test]
fn the_order_of_the_candidates_does_not_matter() {
    let excludes = strings(&["*/skip"]);
    let one = resolve_repos(&strings(&["/x", "/y", "/z/skip", "/x"]), &excludes).unwrap();
    let other = resolve_repos(&strings(&["/z/skip", "/y", "/x"]), &excludes).unwrap();
    assert_eq!(one, other);
}

#[test]
fn a_malformed_exclusion_pattern_is_an_error() {
    let excludes = strings(&["/fine/*", "/bad/[", "/also/bad/***"]);
    let error: PatternError = resolve_repos(&strings(&["/a"]), &excludes).unwrap_err();
    assert_eq!(error.rule, 1);
    let expected = glob::Pattern::new("/bad/[").unwrap_err();
    assert_eq!(error.pos, expected.pos);
    assert_eq!(error.pos, 5);
    assert_eq!(error.msg, expected.msg);
    assert_eq!(error.msg, "invalid range pattern");
    assert_eq!(error.describe(), expected.to_string());
    assert_eq!(error.describe(), "Pattern syntax error near position 5: invalid range pattern");
}

#[test]
fn too_many_stars_are_an_error() {
    let error = check_patterns(&strings(&["a/***/b"])).unwrap_err();
    assert_eq!(error.rule, 0);
    assert_eq!(error.pos, 4);
    assert_eq!(error.msg, "wildcards are either regular `*` or recursive `**`");
}

#[test]
fn a_recursive_wildcard_must_be_a_whole_component() {
    let error = check_patterns(&strings(&["ok", "a/**b"])).unwrap_err();
    assert_eq!(error.rule, 1);
    assert_eq!(error.pos, 4);
    assert_eq!(error.msg, "recursive wildcards must form a single path component");
}

#[test]
fn well_formed_patterns_pass_the_check() {
    assert!(check_patterns(&strings(&["/a/*", "/b/**/c", "x[!a-z]y", "", "?"])).is_ok());
    assert!(check_patterns(&Vec::new()).is_ok());
}

#[test]
fn exclusion_is_by_glob_match() {
    let excludes = strings(&["/home/*/tmp", "/srv/[ab]?"]);
    assert!(is_excluded("/home/u/tmp", &excludes));
    assert!(is_excluded("/srv/b1", &excludes));
    assert!(!is_excluded("/home/u/tmpx", &excludes));
    assert!(!is_excluded("/srv/c1", &excludes));
    assert!(!is_excluded("/home/u/tmp", &Vec::new()));
}

#[test]
fn exclusion_agrees_with_the_pattern_matcher() {
    let patterns = ["/a/*", "/a/**/z", "*.git", "/[!x]*/y", "/a/b", "", "?"];
    let paths = ["/a/b", "/a/b/c/z", "/a/z", "x.git", "/q/y", "/x/y", "", "/", "a", "/a/"];
    for pattern in patterns {
        let compiled = glob::Pattern::new(pattern).unwrap();
        for path in paths {
            assert_eq!(
                is_excluded(path, &strings(&[pattern])),
                compiled.matches_path(std::path::Path::new(path)),
                "{:?} on {:?}",
                pattern,
                path
            );
        }
    }
}

#[test]
fn a_configuration_becomes_a_plan() {
    let config = strings(&[
        "# where the repositories are",
        "~/src/*",
        "",
        "!~/src/vendor-*",
        "/opt/work/*",
        "!*/scratch",
    ]);
    let plan = RepoPlan::from_config(&config, Some("/home/u")).unwrap();
    assert_eq!(plan.include_patterns(), &strings(&["/home/u/src/*", "/opt/work/*"]));
    assert_eq!(plan.exclude_patterns(), &strings(&["/home/u/src/vendor-*", "*/scratch"]));
    assert!(plan.excludes_path("/home/u/src/vendor-openssl"));
    assert!(plan.excludes_path("/opt/work/scratch"));
    assert!(!plan.excludes_path("/home/u/src/app"));
    let found = strings(&[
        "/home/u/src/app",
        "/home/u/src/vendor-openssl",
        "/opt/work/tool",
        "/opt/work/scratch",
        "/home/u/src/app",
    ]);
    assert_eq!(plan.resolve(&found), strings(&["/home/u/src/app", "/opt/work/tool"]));
    assert_eq!(plan.resolve(&found), resolve_repos(&found, plan.exclude_patterns()).unwrap());
}

#[test]
fn a_plan_needs_exclusion_patterns_that_compile() {
    let config = strings(&["~/src/[", "!~/ok/*", "# !bad[", "!~/bad/**x", "!also[bad"]);
    let error = match RepoPlan::from_config(&config, Some("/h")) {
        Ok(_) => panic!("the plan was made"),
        Err(error) => error,
    };
    // The second exclusion pattern, after expansion to `/h/bad/**x`.
    assert_eq!(error.rule, 1);
    assert_eq!(error.pos, 9);
    assert_eq!(error.msg, "recursive wildcards must form a single path component");
}

#[test]
fn an_empty_configuration_plans_nothing() {
    let plan = RepoPlan::from_config(&Vec::new(), None).unwrap();
    assert!(plan.include_patterns().is_empty());
    assert!(plan.exclude_patterns().is_empty());
    assert!(plan.resolve(&Vec::new()).is_empty());
    assert_eq!(plan.resolve(&strings(&["/b", "/a"])), strings(&["/a", "/b"]));
}
