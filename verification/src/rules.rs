//! Repository rules: the lines of a configuration, read as inclusion and
//! exclusion patterns, and the expansion of a leading `~` to the home
//! directory.

use crate::text::{char_is_space, is_blank, is_space};
use vstd::prelude::*;

verus! {

/// What a rule does with the paths its pattern matches.
#[derive(Clone, Copy, Debug, PartialEq, Eq, Structural)]
pub enum RuleKind {
    /// The matching repositories join the set.
    Include,
    /// The matching paths are dropped from the set.
    Exclude,
}

/// One rule of a configuration.
#[derive(Clone, Debug, PartialEq, Eq)]
pub struct RepoRule {
    /// The glob pattern, without the exclusion marker.
    pub pattern: String,
    pub kind: RuleKind,
}

/// The mathematical value of a [`RepoRule`].
pub struct RuleModel {
    pub pattern: Seq<char>,
    pub kind: RuleKind,
}

impl View for RepoRule {
    type V = RuleModel;

    open spec fn view(&self) -> RuleModel {
        RuleModel { pattern: self.pattern@, kind: self.kind }
    }
}

impl DeepView for RepoRule {
    type V = RuleModel;

    open spec fn deep_view(&self) -> RuleModel {
        self@
    }
}

/// A comment line starts with `#` in its first column.
pub open spec fn is_comment(line: Seq<char>) -> bool {
    line.len() > 0 && line[0] == '#'
}

/// The rule that a configuration line states, if it states one. Comment
/// lines and lines of white space state none. A leading `!` marks an
/// exclusion and is not part of the pattern; any other line is an inclusion
/// pattern as it stands.
pub open spec fn rule_of(line: Seq<char>) -> Option<RuleModel> {
    if is_comment(line) || is_blank(line) {
        None
    } else if line[0] == '!' {
        Some(RuleModel { pattern: line.skip(1), kind: RuleKind::Exclude })
    } else {
        Some(RuleModel { pattern: line, kind: RuleKind::Include })
    }
}

/// The rules that a sequence of configuration lines states, in line order.
pub open spec fn rules_of(lines: Seq<Seq<char>>) -> Seq<RuleModel>
    decreases lines.len(),
{
    if lines.len() == 0 {
        Seq::empty()
    } else {
        match rule_of(lines.last()) {
            Some(rule) => rules_of(lines.drop_last()).push(rule),
            None => rules_of(lines.drop_last()),
        }
    }
}

/// The text of a home directory, where there is one.
pub open spec fn text_of(home: Option<&str>) -> Option<Seq<char>> {
    match home {
        Some(home) => Some(home@),
        None => None,
    }
}

/// A pattern with a leading `~` replaced by the home directory. The `~` is
/// replaced only where it is the whole pattern or is followed by `/`, and
/// only where the home directory is known.
pub open spec fn home_expanded(pattern: Seq<char>, home: Option<Seq<char>>) -> Seq<char> {
    match home {
        Some(home) => if pattern.len() >= 1 && pattern[0] == '~' && (pattern.len() == 1
            || pattern[1] == '/') {
            home + pattern.skip(1)
        } else {
            pattern
        },
        None => pattern,
    }
}

/// The patterns of the rules of one kind, in rule order, each with its
/// leading `~` expanded.
pub open spec fn patterns_of(
    rules: Seq<RuleModel>,
    kind: RuleKind,
    home: Option<Seq<char>>,
) -> Seq<Seq<char>>
    decreases rules.len(),
{
    if rules.len() == 0 {
        Seq::empty()
    } else if rules.last().kind == kind {
        patterns_of(rules.drop_last(), kind, home).push(home_expanded(rules.last().pattern, home))
    } else {
        patterns_of(rules.drop_last(), kind, home)
    }
}

/// Whether every character of `line` is white space.
pub fn line_is_blank(line: &str) -> (r: bool)
    ensures
        r == is_blank(line@),
{
    let mut blank = true;
    for c in it: line.chars()
        invariant
            it.seq() == line@,
            blank == is_blank(line@.take(it.index() as int)),
    {
        proof {
            let before = line@.take(it.index() as int);
            let after = line@.take(it.index() + 1);
            assert(after =~= before.push(c));
            if is_blank(after) {
                assert forall|i: int| 0 <= i < before.len() implies is_space(
                    #[trigger] before[i],
                ) by {
                    assert(after[i] == before[i]);
                }
            }
            if is_blank(before) && is_space(c) {
                assert(is_blank(after));
            }
            if !is_space(c) {
                assert(after[it.index() as int] == c);
            }
        }
        if !char_is_space(c) {
            blank = false;
        }
    }
    assert(line@.take(line@.len() as int) =~= line@);
    blank
}

/// Reads one configuration line.
pub fn parse_rule(line: &str) -> (r: Option<RepoRule>)
    ensures
        r.deep_view() == rule_of(line@),
{
    if line_is_blank(line) {
        return None;
    }
    let first = line.get_char(0);
    if first == '#' {
        None
    } else if first == '!' {
        let rest = line.substring_char(1, line.unicode_len());
        Some(RepoRule { pattern: rest.to_owned(), kind: RuleKind::Exclude })
    } else {
        Some(RepoRule { pattern: line.to_owned(), kind: RuleKind::Include })
    }
}

/// Reads the lines of a configuration: the rules they state, in line order.
pub fn parse_rules(lines: &Vec<String>) -> (rules: Vec<RepoRule>)
    ensures
        rules.deep_view() == rules_of(lines.deep_view()),
{
    let mut rules: Vec<RepoRule> = Vec::new();
    let mut i: usize = 0;
    while i < lines.len()
        invariant
            i <= lines.len(),
            rules.deep_view() == rules_of(lines.deep_view().take(i as int)),
        decreases lines.len() - i,
    {
        let ghost before = rules.deep_view();
        let parsed = parse_rule(lines[i].as_str());
        proof {
            let upto = lines.deep_view().take(i + 1);
            assert(upto.drop_last() =~= lines.deep_view().take(i as int));
            assert(upto.last() == lines[i as int]@);
        }
        match parsed {
            Some(rule) => {
                rules.push(rule);
                assert(rules.deep_view() =~= before.push(rule@));
            },
            None => {},
        }
        i += 1;
    }
    assert(lines.deep_view().take(lines.len() as int) =~= lines.deep_view());
    rules
}

/// Trusted: calls `shellexpand::tilde_with_context`, with a context that
/// answers `home`. That function replaces a `~` at the start of its input by
/// the home directory where the `~` ends the input or is followed by `/`, and
/// hands any other input back as it is, as it does every input where the
/// context knows no home directory. Builds for Windows also accept `\` after
/// the `~`, so such inputs are left out here.
#[verifier::external_body]
fn tilde_with_home(pattern: &str, home: Option<&str>) -> (r: String)
    requires
        !(pattern@.len() >= 2 && pattern@[0] == '~' && pattern@[1] == '\\'),
    ensures
        r@ == home_expanded(pattern@, text_of(home)),
{
    shellexpand::tilde_with_context(pattern, || home).into_owned()
}

/// Expands a leading `~` of a pattern to the home directory, where the home
/// directory is known. A `~` that `\` follows stays, on every platform.
pub fn expand_home(pattern: &str, home: Option<&str>) -> (r: String)
    ensures
        r@ == home_expanded(pattern@, text_of(home)),
{
    if pattern.unicode_len() >= 2 && pattern.get_char(0) == '~' && pattern.get_char(1) == '\\' {
        pattern.to_owned()
    } else {
        tilde_with_home(pattern, home)
    }
}

/// The patterns of the rules of one kind, in rule order, each with its
/// leading `~` expanded to `home`.
pub fn expanded_patterns(rules: &Vec<RepoRule>, kind: RuleKind, home: Option<&str>) -> (patterns:
    Vec<String>)
    ensures
        patterns.deep_view() == patterns_of(rules.deep_view(), kind, text_of(home)),
{
    let mut patterns: Vec<String> = Vec::new();
    let mut i: usize = 0;
    while i < rules.len()
        invariant
            i <= rules.len(),
            patterns.deep_view() == patterns_of(
                rules.deep_view().take(i as int),
                kind,
                text_of(home),
            ),
        decreases rules.len() - i,
    {
        let ghost before = patterns.deep_view();
        proof {
            let upto = rules.deep_view().take(i + 1);
            assert(upto.drop_last() =~= rules.deep_view().take(i as int));
            assert(upto.last() == rules[i as int]@);
        }
        if rules[i].kind == kind {
            let expanded = expand_home(rules[i].pattern.as_str(), home);
            patterns.push(expanded);
            assert(patterns.deep_view() =~= before.push(expanded@));
        }
        i += 1;
    }
    assert(rules.deep_view().take(rules.len() as int) =~= rules.deep_view());
    patterns
}

} // verus!
