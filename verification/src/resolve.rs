//! The repository resolver: from the repository roots that the inclusion
//! patterns found, drop those that an exclusion pattern matches, and put the
//! rest in order, each once.

use crate::rules::{expanded_patterns, parse_rules, patterns_of, rules_of, text_of, RuleKind};
use crate::text::{
    chars_of, compare_chars, decimal, decimal_string, lemma_precedes_irreflexive,
    lemma_precedes_total, lemma_precedes_transitive, precedes, strictly_increasing, Order,
};
use vstd::prelude::*;
use vstd::string::StringExecFns;

verus! {

/// What `glob::Pattern::new` finds wrong with a pattern: nothing where the
/// pattern compiles, else the character position and the message of the
/// syntax error.
pub uninterp spec fn glob_syntax_error(pattern: Seq<char>) -> Option<(usize, Seq<char>)>;

/// Whether the compiled pattern matches the path, as
/// `glob::Pattern::matches_path` answers with its default options. It means
/// something only for a pattern that compiles.
pub uninterp spec fn glob_matches(pattern: Seq<char>, path: Seq<char>) -> bool;

/// A pattern compiles when it has no syntax error.
pub open spec fn compiles(pattern: Seq<char>) -> bool {
    glob_syntax_error(pattern).is_none()
}

/// Whether every pattern of the list compiles.
pub open spec fn all_compile(patterns: Seq<Seq<char>>) -> bool {
    forall|k: int| 0 <= k < patterns.len() ==> compiles(#[trigger] patterns[k])
}

/// Whether some exclusion pattern matches the path.
pub open spec fn excluded_by(path: Seq<char>, excludes: Seq<Seq<char>>) -> bool {
    exists|k: int| 0 <= k < excludes.len() && glob_matches(#[trigger] excludes[k], path)
}

/// Whether `paths` is the resolved list for the candidate repository roots
/// and the exclusion patterns: it holds exactly the candidates that no
/// exclusion pattern matches, in strictly increasing lexicographic order, so
/// that none occurs twice.
pub open spec fn is_resolution(
    paths: Seq<Seq<char>>,
    candidates: Seq<Seq<char>>,
    excludes: Seq<Seq<char>>,
) -> bool {
    &&& strictly_increasing(paths)
    &&& forall|p: Seq<char>| #[trigger]
        paths.contains(p) <==> candidates.contains(p) && !excluded_by(p, excludes)
}

/// A pattern of a configuration that does not compile.
#[derive(Clone, Debug, PartialEq, Eq)]
pub struct PatternError {
    /// The place of the pattern in the list that was checked.
    pub rule: usize,
    /// The character position in the pattern near which the error lies.
    pub pos: usize,
    /// What is wrong with the pattern.
    pub msg: String,
}

impl PatternError {
    /// The error in words.
    pub open spec fn description(self) -> Seq<char> {
        "Pattern syntax error near position "@ + decimal(self.pos as nat) + ": "@ + self.msg@
    }

    /// Tells the error in words: where in the pattern it lies, and what it
    /// is.
    pub fn describe(&self) -> (r: String)
        ensures
            r@ == self.description(),
    {
        let mut text = "Pattern syntax error near position ".to_owned();
        text.append(decimal_string(self.pos as u64).as_str());
        text.append(": ");
        text.append(self.msg.as_str());
        assert(text@ =~= self.description());
        text
    }
}

/// Whether `error` reports the first pattern of the list that does not
/// compile, with the position and the message of its syntax error.
pub open spec fn reports_first_error(error: PatternError, patterns: Seq<Seq<char>>) -> bool {
    &&& error.rule < patterns.len()
    &&& all_compile(patterns.take(error.rule as int))
    &&& glob_syntax_error(patterns[error.rule as int]) == Some((error.pos, error.msg@))
}

/// A strictly increasing list holds no string twice.
pub proof fn lemma_increasing_distinct(paths: Seq<Seq<char>>, i: int, j: int)
    requires
        strictly_increasing(paths),
        0 <= i < paths.len(),
        0 <= j < paths.len(),
        i != j,
    ensures
        paths[i] != paths[j],
{
    lemma_precedes_irreflexive(paths[i]);
    if i < j {
        assert(precedes(paths[i], paths[j]));
    } else {
        assert(precedes(paths[j], paths[i]));
    }
}

/// Two strictly increasing lists with the same members are the same list.
pub proof fn lemma_increasing_lists_equal(a: Seq<Seq<char>>, b: Seq<Seq<char>>)
    requires
        strictly_increasing(a),
        strictly_increasing(b),
        forall|p: Seq<char>| a.contains(p) <==> b.contains(p),
    ensures
        a == b,
    decreases a.len(),
{
    if a.len() == 0 {
        if b.len() > 0 {
            assert(b.contains(b[0]));
            assert(a.contains(b[0]));
        }
        assert(a =~= b);
    } else {
        let top = a.last();
        assert(a.contains(top));
        assert(b.contains(top));
        let at = choose|k: int| 0 <= k < b.len() && b[k] == top;
        // `top` is the last entry of b: an entry after it would be in a, after `top`.
        if at < b.len() - 1 {
            let other = b.last();
            assert(precedes(b[at], other));
            assert(b.contains(other));
            assert(a.contains(other));
            let back = choose|k: int| 0 <= k < a.len() && a[k] == other;
            lemma_precedes_total(top, other);
            if back < a.len() - 1 {
                assert(precedes(a[back], a.last()));
            }
        }
        let a0 = a.drop_last();
        let b0 = b.drop_last();
        assert forall|p: Seq<char>| a0.contains(p) <==> b0.contains(p) by {
            if a0.contains(p) {
                let k = choose|k: int| 0 <= k < a0.len() && a0[k] == p;
                assert(a[k] == p);
                assert(a.contains(p));
                lemma_increasing_distinct(a, k, a.len() - 1);
                let m = choose|m: int| 0 <= m < b.len() && b[m] == p;
                assert(b0[m] == p);
            }
            if b0.contains(p) {
                let k = choose|k: int| 0 <= k < b0.len() && b0[k] == p;
                assert(b[k] == p);
                assert(b.contains(p));
                lemma_increasing_distinct(b, k, b.len() - 1);
                let m = choose|m: int| 0 <= m < a.len() && a[m] == p;
                assert(a0[m] == p);
            }
        }
        assert(strictly_increasing(a0)) by {
            assert forall|i: int, j: int| 0 <= i < j < a0.len() implies precedes(
                #[trigger] a0[i],
                #[trigger] a0[j],
            ) by {
                assert(precedes(a[i], a[j]));
            }
        }
        assert(strictly_increasing(b0)) by {
            assert forall|i: int, j: int| 0 <= i < j < b0.len() implies precedes(
                #[trigger] b0[i],
                #[trigger] b0[j],
            ) by {
                assert(precedes(b[i], b[j]));
            }
        }
        lemma_increasing_lists_equal(a0, b0);
        assert(a =~= a0.push(top));
        assert(b =~= b0.push(top));
    }
}

/// The resolved list is a function of the candidates and the exclusion
/// patterns: resolving the same configuration again, against the same
/// candidates, gives the same list in the same order.
pub proof fn lemma_resolution_unique(
    first: Seq<Seq<char>>,
    second: Seq<Seq<char>>,
    candidates: Seq<Seq<char>>,
    excludes: Seq<Seq<char>>,
)
    requires
        is_resolution(first, candidates, excludes),
        is_resolution(second, candidates, excludes),
    ensures
        first == second,
{
    assert forall|p: Seq<char>| first.contains(p) <==> second.contains(p) by {
        assert(first.contains(p) <==> candidates.contains(p) && !excluded_by(p, excludes));
        assert(second.contains(p) <==> candidates.contains(p) && !excluded_by(p, excludes));
    }
    lemma_increasing_lists_equal(first, second);
}

/// The resolved list depends on which candidates there are, not on how
/// often or in what order they were found.
pub proof fn lemma_resolution_ignores_order(
    paths: Seq<Seq<char>>,
    candidates: Seq<Seq<char>>,
    reordered: Seq<Seq<char>>,
    excludes: Seq<Seq<char>>,
)
    requires
        is_resolution(paths, candidates, excludes),
        forall|p: Seq<char>| candidates.contains(p) <==> reordered.contains(p),
    ensures
        is_resolution(paths, reordered, excludes),
{
    assert forall|p: Seq<char>| #[trigger]
        paths.contains(p) <==> reordered.contains(p) && !excluded_by(p, excludes) by {
        assert(paths.contains(p) <==> candidates.contains(p) && !excluded_by(p, excludes));
    }
}

/// A path that an exclusion pattern matches is not in the resolved list,
/// whether or not an inclusion pattern found it.
pub proof fn lemma_excluded_path_absent(
    paths: Seq<Seq<char>>,
    candidates: Seq<Seq<char>>,
    excludes: Seq<Seq<char>>,
    path: Seq<char>,
    k: int,
)
    requires
        is_resolution(paths, candidates, excludes),
        0 <= k < excludes.len(),
        glob_matches(excludes[k], path),
    ensures
        !paths.contains(path),
{
    assert(excluded_by(path, excludes));
}

/// Trusted: calls `glob::Pattern::new` and hands back what it reports, `None`
/// where the pattern compiles, else the position and the message of the
/// error. Nothing is claimed of which patterns compile.
#[verifier::external_body]
fn syntax_error_of(pattern: &str) -> (r: Option<(usize, String)>)
    ensures
        r.deep_view() == glob_syntax_error(pattern@),
{
    match glob::Pattern::new(pattern) {
        Ok(_) => None,
        Err(e) => Some((e.pos, e.msg.to_string())),
    }
}

/// Trusted: compiles the pattern with `glob::Pattern::new` and calls
/// `glob::Pattern::matches_path` on it and the path; `None` where the pattern
/// does not compile. Nothing is claimed of which paths a pattern matches.
#[verifier::external_body]
fn pattern_matches(pattern: &str, path: &str) -> (r: Option<bool>)
    ensures
        r == if compiles(pattern@) {
            Some(glob_matches(pattern@, path@))
        } else {
            None
        },
{
    match glob::Pattern::new(pattern) {
        Ok(compiled) => Some(compiled.matches_path(std::path::Path::new(path))),
        Err(_) => None,
    }
}

/// Checks that every pattern of the list compiles, and reports the first
/// that does not.
pub fn check_patterns(patterns: &Vec<String>) -> (r: Result<(), PatternError>)
    ensures
        match r {
            Ok(_) => all_compile(patterns.deep_view()),
            Err(error) => reports_first_error(error, patterns.deep_view()),
        },
{
    let mut i: usize = 0;
    while i < patterns.len()
        invariant
            i <= patterns.len(),
            all_compile(patterns.deep_view().take(i as int)),
        decreases patterns.len() - i,
    {
        match syntax_error_of(patterns[i].as_str()) {
            Some((pos, msg)) => {
                return Err(PatternError { rule: i, pos, msg });
            },
            None => {},
        }
        assert(all_compile(patterns.deep_view().take(i + 1))) by {
            let upto = patterns.deep_view().take(i + 1);
            assert forall|k: int| 0 <= k < upto.len() implies compiles(#[trigger] upto[k]) by {
                if k < i {
                    assert(upto[k] == patterns.deep_view().take(i as int)[k]);
                }
            }
        }
        i += 1;
    }
    assert(patterns.deep_view().take(patterns.len() as int) =~= patterns.deep_view());
    Ok(())
}

/// Whether some exclusion pattern matches the path.
pub fn is_excluded(path: &str, excludes: &Vec<String>) -> (r: bool)
    requires
        all_compile(excludes.deep_view()),
    ensures
        r == excluded_by(path@, excludes.deep_view()),
{
    let mut k: usize = 0;
    while k < excludes.len()
        invariant
            k <= excludes.len(),
            all_compile(excludes.deep_view()),
            forall|j: int| 0 <= j < k ==> !glob_matches(#[trigger] excludes.deep_view()[j], path@),
        decreases excludes.len() - k,
    {
        assert(compiles(excludes.deep_view()[k as int]));
        match pattern_matches(excludes[k].as_str(), path) {
            Some(true) => {
                assert(glob_matches(excludes.deep_view()[k as int], path@));
                return true;
            },
            _ => {},
        }
        k += 1;
    }
    false
}

/// Puts `path` at its place in the ordered list, unless the list holds it
/// already.
fn insert_ordered(paths: &mut Vec<String>, path: &String)
    requires
        strictly_increasing(old(paths).deep_view()),
    ensures
        strictly_increasing(final(paths).deep_view()),
        forall|p: Seq<char>| #[trigger]
            final(paths).deep_view().contains(p) <==> old(paths).deep_view().contains(p) || p
                == path@,
{
    let key = chars_of(path.as_str());
    let ghost before = paths.deep_view();
    let mut at: usize = paths.len();
    let mut found = false;
    while at > 0 && !found
        invariant
            *paths == *old(paths),
            before == paths.deep_view(),
            strictly_increasing(before),
            key@ == path@,
            at <= paths.len(),
            forall|j: int| at <= j < before.len() ==> precedes(path@, #[trigger] before[j]),
            found ==> at > 0 && !(path@ == before[at - 1]) && precedes(before[at - 1], path@),
        decreases at + if found { 0int } else { 1int },
    {
        let entry = chars_of(paths[at - 1].as_str());
        assert(entry@ == before[at - 1]);
        proof {
            lemma_precedes_total(entry@, path@);
        }
        match compare_chars(&entry, &key) {
            Order::Same => {
                assert(before.contains(path@));
                return ;
            },
            Order::Before => {
                found = true;
            },
            Order::After => {
                at -= 1;
            },
        }
    }
    paths.insert(at, path.clone());
    proof {
        let after = paths.deep_view();
        assert(after =~= before.insert(at as int, path@));
        assert forall|i: int, j: int| 0 <= i < j < after.len() implies precedes(
            #[trigger] after[i],
            #[trigger] after[j],
        ) by {
            if j < at {
                assert(precedes(before[i], before[j]));
            } else if j == at {
                if i < at - 1 {
                    assert(precedes(before[i], before[at - 1]));
                    lemma_precedes_transitive(before[i], before[at - 1], path@);
                }
            } else if i == at {
                assert(precedes(path@, before[j - 1]));
            } else if i < at {
                assert(precedes(before[i], before[j - 1]));
            } else {
                assert(precedes(before[i - 1], before[j - 1]));
            }
        }
        assert forall|p: Seq<char>| #[trigger]
            after.contains(p) <==> before.contains(p) || p == path@ by {
            if after.contains(p) {
                let k = choose|k: int| 0 <= k < after.len() && after[k] == p;
                if k < at {
                    assert(before[k] == p);
                } else if k > at {
                    assert(before[k - 1] == p);
                }
            }
            if before.contains(p) {
                let k = choose|k: int| 0 <= k < before.len() && before[k] == p;
                if k < at {
                    assert(after[k] == p);
                } else {
                    assert(after[k + 1] == p);
                }
            }
            if p == path@ {
                assert(after[at as int] == p);
            }
        }
    }
}

/// The resolved list for exclusion patterns that compile.
fn resolve_checked(candidates: &Vec<String>, excludes: &Vec<String>) -> (paths: Vec<String>)
    requires
        all_compile(excludes.deep_view()),
    ensures
        is_resolution(paths.deep_view(), candidates.deep_view(), excludes.deep_view()),
{
    let mut paths: Vec<String> = Vec::new();
    let mut i: usize = 0;
    while i < candidates.len()
        invariant
            i <= candidates.len(),
            all_compile(excludes.deep_view()),
            is_resolution(
                paths.deep_view(),
                candidates.deep_view().take(i as int),
                excludes.deep_view(),
            ),
        decreases candidates.len() - i,
    {
        let ghost before = paths.deep_view();
        let ghost seen = candidates.deep_view().take(i as int);
        let ghost upto = candidates.deep_view().take(i + 1);
        let candidate = &candidates[i];
        let dropped = is_excluded(candidate.as_str(), excludes);
        if !dropped {
            insert_ordered(&mut paths, candidate);
        }
        proof {
            let after = paths.deep_view();
            assert(upto =~= seen.push(candidate@));
            assert forall|p: Seq<char>| #[trigger]
                after.contains(p) <==> upto.contains(p) && !excluded_by(
                    p,
                    excludes.deep_view(),
                ) by {
                assert(before.contains(p) <==> seen.contains(p) && !excluded_by(
                    p,
                    excludes.deep_view(),
                ));
                if seen.contains(p) {
                    let k = choose|k: int| 0 <= k < seen.len() && seen[k] == p;
                    assert(upto[k] == p);
                }
                if upto.contains(p) {
                    let k = choose|k: int| 0 <= k < upto.len() && upto[k] == p;
                    if k < i {
                        assert(seen[k] == p);
                    }
                }
                assert(upto[i as int] == candidate@);
            }
        }
        i += 1;
    }
    assert(candidates.deep_view().take(candidates.len() as int) =~= candidates.deep_view());
    paths
}

/// Resolves the repository list: of the candidate repository roots, those
/// that no exclusion pattern matches, in lexicographic order, each once.
/// Fails on the first exclusion pattern that does not compile, whatever the
/// candidates are.
pub fn resolve_repos(candidates: &Vec<String>, excludes: &Vec<String>) -> (r: Result<
    Vec<String>,
    PatternError,
>)
    ensures
        match r {
            Ok(paths) => {
                &&& all_compile(excludes.deep_view())
                &&& is_resolution(
                    paths.deep_view(),
                    candidates.deep_view(),
                    excludes.deep_view(),
                )
            },
            Err(error) => reports_first_error(error, excludes.deep_view()),
        },
{
    match check_patterns(excludes) {
        Err(error) => Err(error),
        Ok(_) => Ok(resolve_checked(candidates, excludes)),
    }
}

/// The patterns of a configuration: what to look for, and what to leave out.
pub struct PlanModel {
    /// The inclusion patterns, in the order of the configuration.
    pub includes: Seq<Seq<char>>,
    /// The exclusion patterns, in the order of the configuration.
    pub excludes: Seq<Seq<char>>,
}

/// The patterns that the lines of a configuration state, each with a leading
/// `~` expanded to the home directory.
pub open spec fn plan_of(lines: Seq<Seq<char>>, home: Option<Seq<char>>) -> PlanModel {
    PlanModel {
        includes: patterns_of(rules_of(lines), RuleKind::Include, home),
        excludes: patterns_of(rules_of(lines), RuleKind::Exclude, home),
    }
}

/// A configuration that has been read and checked: every exclusion pattern
/// compiles. The inclusion patterns are for the caller to expand on the file
/// system; the repository roots found that way are resolved against the
/// exclusion patterns.
pub struct RepoPlan {
    includes: Vec<String>,
    excludes: Vec<String>,
}

impl View for RepoPlan {
    type V = PlanModel;

    closed spec fn view(&self) -> PlanModel {
        PlanModel { includes: self.includes.deep_view(), excludes: self.excludes.deep_view() }
    }
}

impl RepoPlan {
    #[verifier::type_invariant]
    spec fn well_formed(self) -> bool {
        all_compile(self.excludes.deep_view())
    }

    /// Reads the lines of a configuration. The exclusion patterns are
    /// checked here, before anything is looked for: the first that does not
    /// compile is the error.
    pub fn from_config(lines: &Vec<String>, home: Option<&str>) -> (r: Result<
        RepoPlan,
        PatternError,
    >)
        ensures
            match r {
                Ok(plan) => plan@ == plan_of(lines.deep_view(), text_of(home)) && all_compile(
                    plan@.excludes,
                ),
                Err(error) => reports_first_error(
                    error,
                    plan_of(lines.deep_view(), text_of(home)).excludes,
                ),
            },
    {
        let rules = parse_rules(lines);
        let excludes = expanded_patterns(&rules, RuleKind::Exclude, home);
        match check_patterns(&excludes) {
            Err(error) => Err(error),
            Ok(_) => {
                let includes = expanded_patterns(&rules, RuleKind::Include, home);
                Ok(RepoPlan { includes, excludes })
            },
        }
    }

    /// The inclusion patterns, in the order of the configuration.
    pub fn include_patterns(&self) -> (r: &Vec<String>)
        ensures
            r.deep_view() == self@.includes,
    {
        &self.includes
    }

    /// The exclusion patterns, in the order of the configuration.
    pub fn exclude_patterns(&self) -> (r: &Vec<String>)
        ensures
            r.deep_view() == self@.excludes,
            all_compile(r.deep_view()),
    {
        proof {
            use_type_invariant(self);
        }
        &self.excludes
    }

    /// Whether some exclusion pattern of the configuration matches the path.
    pub fn excludes_path(&self, path: &str) -> (r: bool)
        ensures
            r == excluded_by(path@, self@.excludes),
    {
        proof {
            use_type_invariant(self);
        }
        is_excluded(path, &self.excludes)
    }

    /// Resolves the repository list of the configuration: of the candidate
    /// repository roots that the inclusion patterns found, those that no
    /// exclusion pattern matches, in lexicographic order, each once.
    pub fn resolve(&self, candidates: &Vec<String>) -> (paths: Vec<String>)
        ensures
            is_resolution(paths.deep_view(), candidates.deep_view(), self@.excludes),
    {
        proof {
            use_type_invariant(self);
        }
        resolve_checked(candidates, &self.excludes)
    }
}

} // verus!
