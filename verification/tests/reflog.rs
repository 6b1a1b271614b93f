use rustgit::reflog::branch_of_message;

fn named(message: &str) -> Option<String> {
    branch_of_message(message)
}

#[test]
fn a_checkout_names_its_target() {
    assert_eq!(named("checkout: moving from main to topic"), Some("topic".to_string()));
    assert_eq!(
        named("checkout: moving from topic to feature/login-form"),
        Some("feature/login-form".to_string())
    );
}

#[test]
fn a_rename_names_the_new_branch() {
    assert_eq!(
        named("Branch: renamed refs/heads/old-name to refs/heads/new-name"),
        Some("new-name".to_string())
    );
    assert_eq!(
        named("Branch: renamed refs/heads/a to refs/heads/team/b"),
        Some("team/b".to_string())
    );
}

#[test]
fn other_messages_name_no_branch() {
    assert_eq!(named(""), None);
    assert_eq!(named("commit: fix the parser"), None);
    assert_eq!(named("commit (amend): checkout: moving from a to b"), None);
    assert_eq!(named("pull: Fast-forward"), None);
    assert_eq!(named("rebase (finish): returning to refs/heads/topic"), None);
    assert_eq!(named("Checkout: moving from a to b"), None);
    assert_eq!(named("branch: renamed refs/heads/a to refs/heads/b"), None);
}

#[test]
fn a_checkout_needs_text_and_a_last_word() {
    assert_eq!(named("checkout:"), None);
    assert_eq!(named("checkout:x"), None);
    assert_eq!(named("checkout: "), None);
    assert_eq!(named("checkout: moving from a to b "), None);
    assert_eq!(named("checkout:xy"), Some("y".to_string()));
    assert_eq!(named("checkout: b"), Some("b".to_string()));
    assert_eq!(named("checkout:  b"), Some("b".to_string()));
    assert_eq!(named("checkout:moving"), Some("oving".to_string()));
}

#[test]
fn a_rename_needs_an_old_name_and_the_link() {
    assert_eq!(named("Branch: renamed  to refs/heads/b"), None);
    assert_eq!(named("Branch: renamed x to refs/heads/b"), Some("b".to_string()));
    assert_eq!(named("Branch: renamed x to refs/heads/"), None);
    assert_eq!(named("Branch: renamed x to refs/heads/b c"), None);
    assert_eq!(named("Branch: renamed x to refs/tags/b"), None);
    assert_eq!(named("Branch: renamed refs/heads/a to b"), None);
    assert_eq!(
        named("Branch: renamed a to refs/heads/b to refs/heads/c"),
        Some("c".to_string())
    );
}

#[test]
fn a_line_break_spoils_the_message() {
    assert_eq!(named("checkout: moving from a\nto b"), None);
    assert_eq!(named("checkout: moving from a to b\n"), None);
    assert_eq!(named("Branch: renamed a\nb to refs/heads/c"), None);
    assert_eq!(named("\ncheckout: moving from a to b"), None);
}

#[test]
fn any_white_space_ends_the_words_before_the_branch() {
    assert_eq!(named("checkout: moving from a to\tb"), Some("b".to_string()));
    assert_eq!(named("checkout: moving from a to\u{a0}b"), Some("b".to_string()));
    assert_eq!(named("checkout: moving from a to b\u{3000}"), None);
    assert_eq!(named("checkout: moving from a to bränch"), Some("bränch".to_string()));
}

#[test]
fn the_matcher_agrees_with_the_pattern_of_the_two_shapes() {
    let pattern =
        regex::Regex::new(r"^(?:checkout:.+?|Branch: renamed .+ to refs/heads/)(\S+)$").unwrap();
    let heads = [
        "", "checkout:", "checkout: ", "checkout:x", "checkout", "Branch: renamed ",
        "Branch: renamed", "Branch: renamed x", "commit: ", " checkout:", "checkout:\t",
        "checkout:\n", "Branch: renamed \n", "Branch: renamed  ",
    ];
    let middles = [
        "", "moving from a to ", "a", " ", "  ", "x y", "refs/heads/a", " to refs/heads/",
        "to refs/heads/", " to refs/heads", "a to refs/heads/b", "\n", "a\n", "\r", "é ü",
        " to  refs/heads/", "refs/heads/a to refs/heads/",
    ];
    let tails = [
        "", "b", "topic", "feature/x", " ", "b ", " b", "b c", "\n", "b\n", "\u{a0}", "b\u{2028}",
        "é", "-", " to refs/heads/z", "/",
    ];
    let mut matched = 0;
    for head in heads {
        for middle in middles {
            for tail in tails {
                let message = format!("{}{}{}", head, middle, tail);
                let expected = pattern.captures(&message).map(|c| c[1].to_string());
                if expected.is_some() {
                    matched += 1;
                }
                assert_eq!(branch_of_message(&message), expected, "{:?}", message);
            }
        }
    }
    assert!(matched > 100);
}
