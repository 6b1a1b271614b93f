//! The recent-branch extractor: from the log of `HEAD`, newest entry first,
//! the local branches that were used, each once, the most recently used
//! first.

use crate::age::{age_label, format_magnitude, magnitude_of};
use crate::reflog::{branch_of_message, referenced_branch};
use vstd::prelude::*;

verus! {

/// One entry of a reference log.
#[derive(Clone, Debug, PartialEq, Eq)]
pub struct ReflogEntry {
    /// What the entry says happened.
    pub message: String,
    /// When it happened, in seconds since the epoch.
    pub committed_at: i64,
}

/// The mathematical value of a [`ReflogEntry`].
pub struct EntryModel {
    pub message: Seq<char>,
    pub committed_at: int,
}

impl View for ReflogEntry {
    type V = EntryModel;

    open spec fn view(&self) -> EntryModel {
        EntryModel { message: self.message@, committed_at: self.committed_at as int }
    }
}

impl DeepView for ReflogEntry {
    type V = EntryModel;

    open spec fn deep_view(&self) -> EntryModel {
        self@
    }
}

/// One branch of the recency list.
#[derive(Clone, Debug, PartialEq, Eq)]
pub struct BranchUsage {
    pub branch_name: String,
    /// When the branch was last used, in seconds since the epoch.
    pub observed_at: i64,
    /// How long ago that was.
    pub age_label: String,
}

/// The mathematical value of a [`BranchUsage`].
pub struct UsageModel {
    pub branch_name: Seq<char>,
    pub observed_at: int,
    pub age_label: Seq<char>,
}

impl View for BranchUsage {
    type V = UsageModel;

    open spec fn view(&self) -> UsageModel {
        UsageModel {
            branch_name: self.branch_name@,
            observed_at: self.observed_at as int,
            age_label: self.age_label@,
        }
    }
}

impl DeepView for BranchUsage {
    type V = UsageModel;

    open spec fn deep_view(&self) -> UsageModel {
        self@
    }
}

/// The usage that a log entry shows of the branch it names: the branch was
/// seen when the entry was written, and its age is the time from then to
/// `now`.
pub open spec fn usage_of(entry: EntryModel, branch: Seq<char>, now: int) -> UsageModel {
    UsageModel {
        branch_name: branch,
        observed_at: entry.committed_at,
        age_label: age_label(now - entry.committed_at),
    }
}

/// Whether the list has an entry for the branch.
pub open spec fn is_listed(usages: Seq<UsageModel>, branch: Seq<char>) -> bool {
    exists|k: int| 0 <= k < usages.len() && (#[trigger] usages[k]).branch_name == branch
}

/// The recency list of a log that runs from the newest entry to the oldest.
/// Each entry that names a branch which exists locally, and which no entry
/// before it names, adds that branch to the end of the list.
pub open spec fn recent_usages(
    history: Seq<EntryModel>,
    locals: Set<Seq<char>>,
    now: int,
) -> Seq<UsageModel>
    decreases history.len(),
{
    if history.len() == 0 {
        Seq::empty()
    } else {
        let earlier = recent_usages(history.drop_last(), locals, now);
        let entry = history.last();
        match referenced_branch(entry.message) {
            Some(branch) => if locals.contains(branch) && !is_listed(earlier, branch) {
                earlier.push(usage_of(entry, branch, now))
            } else {
                earlier
            },
            None => earlier,
        }
    }
}

/// The index of the first entry of the log that names the branch, which is
/// the entry of its most recent use; the length of the log where no entry
/// names it.
pub open spec fn first_reference(history: Seq<EntryModel>, branch: Seq<char>) -> int
    decreases history.len(),
{
    if history.len() == 0 {
        0
    } else {
        let before = first_reference(history.drop_last(), branch);
        if before < history.len() - 1 {
            before
        } else if referenced_branch(history.last().message) == Some(branch) {
            history.len() - 1
        } else {
            history.len() as int
        }
    }
}

/// `first_reference` is the least index of an entry that names the branch.
pub proof fn lemma_first_reference(history: Seq<EntryModel>, branch: Seq<char>)
    ensures
        0 <= first_reference(history, branch) <= history.len(),
        first_reference(history, branch) < history.len() ==> referenced_branch(
            history[first_reference(history, branch)].message,
        ) == Some(branch),
        forall|j: int|
            0 <= j < first_reference(history, branch) ==> referenced_branch(
                (#[trigger] history[j]).message,
            ) != Some(branch),
    decreases history.len(),
{
    if history.len() > 0 {
        lemma_first_reference(history.drop_last(), branch);
        let before = first_reference(history.drop_last(), branch);
        assert forall|j: int| 0 <= j < first_reference(history, branch) implies referenced_branch(
            (#[trigger] history[j]).message,
        ) != Some(branch) by {
            if j < history.len() - 1 {
                assert(history[j] == history.drop_last()[j]);
            }
        }
        if before < history.len() - 1 {
            assert(history[before] == history.drop_last()[before]);
        }
    }
}

/// An entry for a branch stays the first that names it when the log grows
/// at its old end.
proof fn lemma_first_reference_prefix(history: Seq<EntryModel>, branch: Seq<char>, n: int)
    requires
        0 <= n <= history.len(),
        first_reference(history.take(n), branch) < n,
    ensures
        first_reference(history, branch) == first_reference(history.take(n), branch),
    decreases history.len() - n,
{
    if n < history.len() {
        assert(history.take(n + 1).drop_last() =~= history.take(n));
        lemma_first_reference_prefix(history, branch, n + 1);
    } else {
        assert(history.take(n) =~= history);
    }
}

/// What the recency list holds: exactly the local branches that the log
/// names. A branch that does not exist locally is not listed, whatever the
/// log says of it.
pub proof fn lemma_listed_branches(
    history: Seq<EntryModel>,
    locals: Set<Seq<char>>,
    now: int,
    branch: Seq<char>,
)
    ensures
        is_listed(recent_usages(history, locals, now), branch) <==> locals.contains(branch)
            && first_reference(history, branch) < history.len(),
    decreases history.len(),
{
    if history.len() > 0 {
        let init = history.drop_last();
        let earlier = recent_usages(init, locals, now);
        let all = recent_usages(history, locals, now);
        lemma_listed_branches(init, locals, now, branch);
        lemma_first_reference(init, branch);
        if is_listed(earlier, branch) {
            let k = choose|k: int| 0 <= k < earlier.len() && (#[trigger] earlier[k]).branch_name
                == branch;
            assert(all[k].branch_name == branch);
        }
        if is_listed(all, branch) && !is_listed(earlier, branch) {
            let k = choose|k: int| 0 <= k < all.len() && (#[trigger] all[k]).branch_name == branch;
            if k < earlier.len() {
                assert(earlier[k].branch_name == branch);
            }
        }
        match referenced_branch(history.last().message) {
            Some(named) => {
                if locals.contains(named) && !is_listed(earlier, named) {
                    assert(all.last().branch_name == named);
                }
            },
            None => {},
        }
    }
}

/// Where each entry of the recency list comes from: the first log entry
/// that names its branch, which gives the time and the age. The list is in
/// the order of those log entries, so a branch stands before every branch
/// that was last used earlier, and no branch is listed twice.
pub proof fn lemma_usage_order(
    history: Seq<EntryModel>,
    locals: Set<Seq<char>>,
    now: int,
    i: int,
    j: int,
)
    requires
        0 <= i <= j < recent_usages(history, locals, now).len(),
    ensures
        ({
            let usages = recent_usages(history, locals, now);
            let at = first_reference(history, usages[i].branch_name);
            &&& 0 <= at < history.len()
            &&& usages[i] == usage_of(history[at], usages[i].branch_name, now)
            &&& i < j ==> at < first_reference(history, usages[j].branch_name)
            &&& i < j ==> usages[i].branch_name != usages[j].branch_name
        }),
    decreases history.len(),
{
    let usages = recent_usages(history, locals, now);
    let init = history.drop_last();
    let earlier = recent_usages(init, locals, now);
    let last = history.len() - 1;
    assert(init =~= history.take(last));
    if j < earlier.len() {
        lemma_usage_order(init, locals, now, i, j);
        lemma_usage_order(init, locals, now, j, j);
        lemma_first_reference_prefix(history, earlier[i].branch_name, last);
        lemma_first_reference_prefix(history, earlier[j].branch_name, last);
        assert(history[first_reference(init, earlier[i].branch_name)] == init[first_reference(
            init,
            earlier[i].branch_name,
        )]);
    } else {
        // The last entry of the log added the last entry of the list.
        let named = referenced_branch(history.last().message)->0;
        assert(usages == earlier.push(usage_of(history.last(), named, now)));
        lemma_listed_branches(init, locals, now, named);
        lemma_first_reference(init, named);
        assert(first_reference(history, named) == last);
        if i < j {
            lemma_usage_order(init, locals, now, i, i);
            lemma_first_reference_prefix(history, earlier[i].branch_name, last);
            assert(history[first_reference(init, earlier[i].branch_name)] == init[first_reference(
                init,
                earlier[i].branch_name,
            )]);
        }
    }
}

/// A log entry that names a branch with no local branch of that name adds
/// nothing to the list.
pub proof fn lemma_unknown_branch_not_listed(
    history: Seq<EntryModel>,
    locals: Set<Seq<char>>,
    now: int,
    branch: Seq<char>,
)
    requires
        !locals.contains(branch),
    ensures
        !is_listed(recent_usages(history, locals, now), branch),
{
    lemma_listed_branches(history, locals, now, branch);
}

/// The branches that the log names, each once, in the order of their first
/// entries. These are the branches to ask the repository about: no other
/// branch can be in the recency list.
pub open spec fn referenced_branches(history: Seq<EntryModel>) -> Seq<Seq<char>>
    decreases history.len(),
{
    if history.len() == 0 {
        Seq::empty()
    } else {
        let earlier = referenced_branches(history.drop_last());
        match referenced_branch(history.last().message) {
            Some(branch) => if earlier.contains(branch) {
                earlier
            } else {
                earlier.push(branch)
            },
            None => earlier,
        }
    }
}

/// The log references exactly the branches that some entry names.
pub proof fn lemma_referenced_branches(history: Seq<EntryModel>, branch: Seq<char>)
    ensures
        referenced_branches(history).contains(branch) <==> first_reference(history, branch)
            < history.len(),
    decreases history.len(),
{
    if history.len() > 0 {
        let init = history.drop_last();
        let earlier = referenced_branches(init);
        let all = referenced_branches(history);
        lemma_referenced_branches(init, branch);
        lemma_first_reference(init, branch);
        if earlier.contains(branch) {
            let k = choose|k: int| 0 <= k < earlier.len() && earlier[k] == branch;
            assert(all[k] == branch);
        }
        if all.contains(branch) && !earlier.contains(branch) {
            let k = choose|k: int| 0 <= k < all.len() && all[k] == branch;
            if k < earlier.len() {
                assert(earlier[k] == branch);
            }
        }
        match referenced_branch(history.last().message) {
            Some(named) => {
                if !earlier.contains(named) {
                    assert(all.last() == named);
                }
            },
            None => {},
        }
    }
}

/// Only the branches that the log names matter: two sets of local branches
/// that agree on those give the same recency list.
pub proof fn lemma_only_referenced_branches_matter(
    history: Seq<EntryModel>,
    locals: Set<Seq<char>>,
    others: Set<Seq<char>>,
    now: int,
)
    requires
        forall|branch: Seq<char>| #[trigger]
            referenced_branches(history).contains(branch) ==> (locals.contains(branch)
                <==> others.contains(branch)),
    ensures
        recent_usages(history, locals, now) == recent_usages(history, others, now),
    decreases history.len(),
{
    if history.len() > 0 {
        let init = history.drop_last();
        assert forall|branch: Seq<char>| #[trigger]
            referenced_branches(init).contains(branch) implies (locals.contains(branch)
            <==> others.contains(branch)) by {
            let earlier = referenced_branches(init);
            let k = choose|k: int| 0 <= k < earlier.len() && earlier[k] == branch;
            assert(referenced_branches(history)[k] == branch);
            assert(referenced_branches(history).contains(branch));
        }
        lemma_only_referenced_branches_matter(init, locals, others, now);
        match referenced_branch(history.last().message) {
            Some(named) => {
                let earlier = referenced_branches(init);
                if earlier.contains(named) {
                    let k = choose|k: int| 0 <= k < earlier.len() && earlier[k] == named;
                    assert(referenced_branches(history)[k] == named);
                } else {
                    assert(referenced_branches(history).last() == named);
                }
                assert(referenced_branches(history).contains(named));
            },
            None => {},
        }
    }
}

/// Whether the list of names holds `name`.
fn holds_name(names: &Vec<String>, name: &String) -> (r: bool)
    ensures
        r == names.deep_view().contains(name@),
        r == names.deep_view().to_set().contains(name@),
{
    let mut i: usize = 0;
    while i < names.len()
        invariant
            i <= names.len(),
            forall|j: int| 0 <= j < i ==> names.deep_view()[j] != name@,
        decreases names.len() - i,
    {
        if names[i] == *name {
            assert(names.deep_view()[i as int] == name@);
            assert(names.deep_view().contains(name@));
            return true;
        }
        i += 1;
    }
    assert(!names.deep_view().contains(name@));
    false
}

/// Whether the recency list has an entry for the branch.
fn lists_branch(usages: &Vec<BranchUsage>, name: &String) -> (r: bool)
    ensures
        r == is_listed(usages.deep_view(), name@),
{
    let mut i: usize = 0;
    while i < usages.len()
        invariant
            i <= usages.len(),
            forall|j: int| 0 <= j < i ==> usages.deep_view()[j].branch_name != name@,
        decreases usages.len() - i,
    {
        if usages[i].branch_name == *name {
            assert(usages.deep_view()[i as int].branch_name == name@);
            return true;
        }
        i += 1;
    }
    false
}

/// The number of seconds between two times.
pub fn seconds_between(now: i64, then: i64) -> (r: u64)
    ensures
        r == magnitude_of(now - then),
{
    if now >= then {
        (now as i128 - then as i128) as u64
    } else {
        (then as i128 - now as i128) as u64
    }
}

/// The branches that the log names, each once, in the order of their first
/// entries.
pub fn candidate_branches(history: &Vec<ReflogEntry>) -> (names: Vec<String>)
    ensures
        names.deep_view() == referenced_branches(history.deep_view()),
{
    let mut names: Vec<String> = Vec::new();
    let mut i: usize = 0;
    while i < history.len()
        invariant
            i <= history.len(),
            names.deep_view() == referenced_branches(history.deep_view().take(i as int)),
        decreases history.len() - i,
    {
        let ghost earlier = names.deep_view();
        proof {
            let upto = history.deep_view().take(i + 1);
            assert(upto.drop_last() =~= history.deep_view().take(i as int));
            assert(upto.last() == history[i as int]@);
        }
        match branch_of_message(history[i].message.as_str()) {
            Some(name) => {
                if !holds_name(&names, &name) {
                    names.push(name);
                    assert(names.deep_view() =~= earlier.push(name@));
                }
            },
            None => {},
        }
        i += 1;
    }
    assert(history.deep_view().take(history.len() as int) =~= history.deep_view());
    names
}

/// Extracts the recency list from the log of `HEAD`, given newest entry
/// first: one usage for each branch that the log names and that is among
/// `local_branches`, in the order of the branches' most recent entries. Each
/// usage carries the time of that entry and its age at the time `now`.
pub fn recent_branches(
    history: &Vec<ReflogEntry>,
    local_branches: &Vec<String>,
    now: i64,
) -> (usages: Vec<BranchUsage>)
    ensures
        usages.deep_view() == recent_usages(
            history.deep_view(),
            local_branches.deep_view().to_set(),
            now as int,
        ),
        forall|k: int|
            0 <= k < usages.len() ==> local_branches.deep_view().contains(
                (#[trigger] usages.deep_view()[k]).branch_name,
            ),
        forall|i: int, j: int|
            0 <= i < j < usages.len() ==> (#[trigger] usages.deep_view()[i]).branch_name != (
            #[trigger] usages.deep_view()[j]).branch_name,
{
    let ghost locals = local_branches.deep_view().to_set();
    let mut usages: Vec<BranchUsage> = Vec::new();
    let mut i: usize = 0;
    while i < history.len()
        invariant
            i <= history.len(),
            locals == local_branches.deep_view().to_set(),
            usages.deep_view() == recent_usages(
                history.deep_view().take(i as int),
                locals,
                now as int,
            ),
        decreases history.len() - i,
    {
        let ghost earlier = usages.deep_view();
        proof {
            let upto = history.deep_view().take(i + 1);
            assert(upto.drop_last() =~= history.deep_view().take(i as int));
            assert(upto.last() == history[i as int]@);
        }
        let entry = &history[i];
        match branch_of_message(entry.message.as_str()) {
            Some(name) => {
                if holds_name(local_branches, &name) && !lists_branch(&usages, &name) {
                    let age = format_magnitude(seconds_between(now, entry.committed_at));
                    let usage = BranchUsage {
                        branch_name: name,
                        observed_at: entry.committed_at,
                        age_label: age,
                    };
                    usages.push(usage);
                    assert(usages.deep_view() =~= earlier.push(usage@));
                }
            },
            None => {},
        }
        i += 1;
    }
    assert(history.deep_view().take(history.len() as int) =~= history.deep_view());
    proof {
        let listed = usages.deep_view();
        assert forall|k: int| 0 <= k < listed.len() implies local_branches.deep_view().contains(
            (#[trigger] listed[k]).branch_name,
        ) by {
            lemma_listed_branches(history.deep_view(), locals, now as int, listed[k].branch_name);
        }
        assert forall|i: int, j: int| 0 <= i < j < listed.len() implies (
        #[trigger] listed[i]).branch_name != (#[trigger] listed[j]).branch_name by {
            lemma_usage_order(history.deep_view(), locals, now as int, i, j);
        }
    }
    usages
}

} // verus!
