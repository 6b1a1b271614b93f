//! The unpushed-branch detector.
//!
//! A local branch is pushed when some remote branch holds everything it
//! holds: its head is the head of a remote branch, or no commit can be
//! reached from its head that cannot be reached from that remote branch's
//! head. Which commits can be reached only the version-control backend
//! knows, so the detector is a scan that asks one question at a time:
//! [`UnpushedScan::pending`] names the two commits to compare, and
//! [`UnpushedScan::answer`] takes the number of commits by which the local
//! one is ahead.

use vstd::prelude::*;

verus! {

/// The identifier of a commit: the digest of its content, in hexadecimal.
/// Two commits are the same exactly when their identifiers are equal.
#[derive(Clone, Debug, PartialEq, Eq)]
pub struct CommitId {
    pub digest: String,
}

impl View for CommitId {
    type V = Seq<char>;

    open spec fn view(&self) -> Seq<char> {
        self.digest@
    }
}

impl DeepView for CommitId {
    type V = Seq<char>;

    open spec fn deep_view(&self) -> Seq<char> {
        self@
    }
}

/// A branch and the commit it points to.
#[derive(Clone, Debug, PartialEq, Eq)]
pub struct BranchRef {
    pub name: String,
    pub head_commit: CommitId,
}

/// The mathematical value of a [`BranchRef`].
pub struct BranchModel {
    pub name: Seq<char>,
    pub head_commit: Seq<char>,
}

impl View for BranchRef {
    type V = BranchModel;

    open spec fn view(&self) -> BranchModel {
        BranchModel { name: self.name@, head_commit: self.head_commit@ }
    }
}

impl DeepView for BranchRef {
    type V = BranchModel;

    open spec fn deep_view(&self) -> BranchModel {
        self@
    }
}

/// What is known of one repository.
#[derive(Clone, Debug, PartialEq, Eq)]
pub struct RepoStatus {
    pub path: String,
    /// Whether the working tree differs from the last commit, untracked files
    /// counted.
    pub dirty: bool,
    /// The names of the unpushed local branches, in the order in which the
    /// local branches were listed.
    pub unpushed_branches: Vec<String>,
}

/// The mathematical value of a [`RepoStatus`].
pub struct StatusModel {
    pub path: Seq<char>,
    pub dirty: bool,
    pub unpushed_branches: Seq<Seq<char>>,
}

impl View for RepoStatus {
    type V = StatusModel;

    open spec fn view(&self) -> StatusModel {
        StatusModel {
            path: self.path@,
            dirty: self.dirty,
            unpushed_branches: self.unpushed_branches.deep_view(),
        }
    }
}

impl RepoStatus {
    /// Whether there is anything to report of the repository: uncommitted
    /// changes, or an unpushed branch.
    pub fn needs_report(&self) -> (r: bool)
        ensures
            r == (self@.dirty || self@.unpushed_branches.len() > 0),
    {
        self.dirty || self.unpushed_branches.len() > 0
    }
}

/// Two commits whose histories the backend is asked to compare: by how many
/// commits is the head of `local` ahead of the head of `remote`?
#[derive(Clone, Debug, PartialEq, Eq)]
pub struct AncestryQuery {
    pub local: BranchRef,
    pub remote: BranchRef,
}

/// The mathematical value of an [`AncestryQuery`].
pub struct QueryModel {
    pub local: BranchModel,
    pub remote: BranchModel,
}

impl View for AncestryQuery {
    type V = QueryModel;

    open spec fn view(&self) -> QueryModel {
        QueryModel { local: self.local@, remote: self.remote@ }
    }
}

impl DeepView for AncestryQuery {
    type V = QueryModel;

    open spec fn deep_view(&self) -> QueryModel {
        self@
    }
}

/// Whether one of the remote branches points to `head`.
pub open spec fn has_head(remotes: Seq<BranchModel>, head: Seq<char>) -> bool {
    exists|j: int| 0 <= j < remotes.len() && (#[trigger] remotes[j]).head_commit == head
}

/// Whether the history of some remote branch holds the whole history of
/// `head`: the commit is ahead of that branch's head by no commit.
/// `ahead(a, b)` is the number of commits that can be reached from `a` and
/// not from `b`.
pub open spec fn is_contained(
    head: Seq<char>,
    remotes: Seq<BranchModel>,
    ahead: spec_fn(Seq<char>, Seq<char>) -> nat,
) -> bool {
    exists|j: int| 0 <= j < remotes.len() && ahead(head, (#[trigger] remotes[j]).head_commit) == 0
}

/// Whether a local branch with this head is pushed.
pub open spec fn is_pushed(
    head: Seq<char>,
    remotes: Seq<BranchModel>,
    ahead: spec_fn(Seq<char>, Seq<char>) -> nat,
) -> bool {
    has_head(remotes, head) || is_contained(head, remotes, ahead)
}

/// The names of the local branches that are not pushed, in the order of the
/// local branches.
pub open spec fn unpushed_names(
    locals: Seq<BranchModel>,
    remotes: Seq<BranchModel>,
    ahead: spec_fn(Seq<char>, Seq<char>) -> nat,
) -> Seq<Seq<char>>
    decreases locals.len(),
{
    if locals.len() == 0 {
        Seq::empty()
    } else if is_pushed(locals.last().head_commit, remotes, ahead) {
        unpushed_names(locals.drop_last(), remotes, ahead)
    } else {
        unpushed_names(locals.drop_last(), remotes, ahead).push(locals.last().name)
    }
}

/// The remote branches without those whose head an earlier one has: one
/// branch for each remote head, in the order in which the heads first occur.
pub open spec fn distinct_heads(remotes: Seq<BranchModel>) -> Seq<BranchModel>
    decreases remotes.len(),
{
    if remotes.len() == 0 {
        Seq::empty()
    } else if has_head(distinct_heads(remotes.drop_last()), remotes.last().head_commit) {
        distinct_heads(remotes.drop_last())
    } else {
        distinct_heads(remotes.drop_last()).push(remotes.last())
    }
}

/// The state of a scan.
pub struct ScanModel {
    pub locals: Seq<BranchModel>,
    /// The remote branches to compare with, no two with the same head.
    pub remotes: Seq<BranchModel>,
    /// The local branch that is being decided; those before it are decided.
    pub local_at: int,
    /// The remote branch to compare it with next; it is ahead of those
    /// before by at least one commit.
    pub remote_at: int,
    /// The names of the unpushed branches among the decided ones.
    pub unpushed: Seq<Seq<char>>,
}

impl ScanModel {
    /// Whether every local branch is decided.
    pub open spec fn finished(self) -> bool {
        self.local_at >= self.locals.len()
    }

    /// A scan is well formed when it is finished or a question is open: the
    /// branch being decided has no remote branch at its head, and there is a
    /// remote branch left to compare it with.
    pub open spec fn wf(self) -> bool {
        &&& 0 <= self.local_at <= self.locals.len()
        &&& 0 <= self.remote_at
        &&& self.finished() ==> self.remote_at == 0
        &&& !self.finished() ==> self.remote_at < self.remotes.len() && !has_head(
            self.remotes,
            self.locals[self.local_at].head_commit,
        )
    }

    /// The open question, if the scan is not finished.
    pub open spec fn query(self) -> Option<QueryModel> {
        if self.finished() {
            None
        } else {
            Some(
                QueryModel {
                    local: self.locals[self.local_at],
                    remote: self.remotes[self.remote_at],
                },
            )
        }
    }

    /// The scan with the branch at `local_at` decided.
    pub open spec fn decided(self, pushed: bool) -> ScanModel {
        ScanModel {
            locals: self.locals,
            remotes: self.remotes,
            local_at: self.local_at + 1,
            remote_at: 0,
            unpushed: if pushed {
                self.unpushed
            } else {
                self.unpushed.push(self.locals[self.local_at].name)
            },
        }
    }

    /// Decides every branch that can be decided without a question: a branch
    /// with a remote branch at its head is pushed, a branch with no remote
    /// branch left to compare with is unpushed. Stops at the first branch
    /// that needs a question, or at the end.
    pub open spec fn settle(self) -> ScanModel
        decreases self.locals.len() - self.local_at,
    {
        if self.local_at < 0 || self.local_at >= self.locals.len() {
            ScanModel {
                locals: self.locals,
                remotes: self.remotes,
                local_at: self.local_at,
                remote_at: 0,
                unpushed: self.unpushed,
            }
        } else if has_head(self.remotes, self.locals[self.local_at].head_commit) {
            self.decided(true).settle()
        } else if self.remote_at >= self.remotes.len() {
            self.decided(false).settle()
        } else {
            self
        }
    }

    /// The scan after the answer to its open question: the local commit is
    /// ahead of the remote one by `ahead` commits. With none ahead the branch
    /// is pushed; else the next remote branch is tried. A finished scan stays
    /// as it is.
    pub open spec fn answered(self, ahead: nat) -> ScanModel {
        if self.finished() {
            self
        } else if ahead == 0 {
            self.decided(true).settle()
        } else {
            ScanModel {
                locals: self.locals,
                remotes: self.remotes,
                local_at: self.local_at,
                remote_at: self.remote_at + 1,
                unpushed: self.unpushed,
            }.settle()
        }
    }

    /// What the backend `ahead` answers to the open question.
    pub open spec fn backend_answer(self, ahead: spec_fn(Seq<char>, Seq<char>) -> nat) -> nat {
        ahead(self.locals[self.local_at].head_commit, self.remotes[self.remote_at].head_commit)
    }

    /// The scan at its end, each of its questions answered by the backend
    /// `ahead`.
    pub open spec fn run(self, ahead: spec_fn(Seq<char>, Seq<char>) -> nat) -> ScanModel
        decreases self.locals.len() - self.local_at, self.remotes.len() - self.remote_at,
        when self.wf()
        via Self::run_ends
    {
        if self.finished() {
            self
        } else {
            self.answered(self.backend_answer(ahead)).run(ahead)
        }
    }

    #[via_fn]
    proof fn run_ends(self, ahead: spec_fn(Seq<char>, Seq<char>) -> nat) {
        if !self.finished() {
            lemma_answer_shape(self, self.backend_answer(ahead));
        }
    }

    /// Whether what the scan has found so far is what the backend `ahead`
    /// implies: the unpushed names are those of the decided branches, and
    /// the branch being decided is ahead of every remote branch tried.
    pub open spec fn agrees_with(self, ahead: spec_fn(Seq<char>, Seq<char>) -> nat) -> bool {
        &&& self.unpushed == unpushed_names(self.locals.take(self.local_at), self.remotes, ahead)
        &&& !self.finished() ==> forall|j: int|
            0 <= j < self.remote_at ==> ahead(
                self.locals[self.local_at].head_commit,
                (#[trigger] self.remotes[j]).head_commit,
            ) != 0
    }
}

/// The scan of the local branches against the remote branches, before any
/// answer.
pub open spec fn scan_start(locals: Seq<BranchModel>, remotes: Seq<BranchModel>) -> ScanModel {
    ScanModel {
        locals,
        remotes: distinct_heads(remotes),
        local_at: 0,
        remote_at: 0,
        unpushed: Seq::empty(),
    }.settle()
}

/// The unpushed names are the names of the local branches that are not
/// pushed: a name is reported exactly when a branch of that name is not
/// pushed.
pub proof fn lemma_reported_names(
    locals: Seq<BranchModel>,
    remotes: Seq<BranchModel>,
    ahead: spec_fn(Seq<char>, Seq<char>) -> nat,
    name: Seq<char>,
)
    ensures
        unpushed_names(locals, remotes, ahead).contains(name) <==> exists|i: int|
            0 <= i < locals.len() && (#[trigger] locals[i]).name == name && !is_pushed(
                locals[i].head_commit,
                remotes,
                ahead,
            ),
    decreases locals.len(),
{
    let names = unpushed_names(locals, remotes, ahead);
    if locals.len() > 0 {
        let init = locals.drop_last();
        let before = unpushed_names(init, remotes, ahead);
        lemma_reported_names(init, remotes, ahead, name);
        if names.contains(name) {
            let k = choose|k: int| 0 <= k < names.len() && names[k] == name;
            if k < before.len() {
                assert(before[k] == name);
                let i = choose|i: int|
                    0 <= i < init.len() && (#[trigger] init[i]).name == name && !is_pushed(
                        init[i].head_commit,
                        remotes,
                        ahead,
                    );
                assert(locals[i] == init[i]);
            } else {
                assert(locals[locals.len() - 1].name == name);
            }
        }
        if exists|i: int|
            0 <= i < locals.len() && (#[trigger] locals[i]).name == name && !is_pushed(
                locals[i].head_commit,
                remotes,
                ahead,
            ) {
            let i = choose|i: int|
                0 <= i < locals.len() && (#[trigger] locals[i]).name == name && !is_pushed(
                    locals[i].head_commit,
                    remotes,
                    ahead,
                );
            if i < init.len() {
                assert(init[i] == locals[i]);
                let k = choose|k: int| 0 <= k < before.len() && before[k] == name;
                assert(names[k] == name);
            } else {
                assert(names[names.len() - 1] == name);
            }
        }
    }
}

/// A local branch whose head is the head of a remote branch is never
/// reported, whatever the histories are. Stated of a name: where every local
/// branch of that name has a remote branch at its head, the name is not among
/// the unpushed.
pub proof fn lemma_same_head_not_reported(
    locals: Seq<BranchModel>,
    remotes: Seq<BranchModel>,
    ahead: spec_fn(Seq<char>, Seq<char>) -> nat,
    name: Seq<char>,
)
    requires
        forall|i: int|
            0 <= i < locals.len() && (#[trigger] locals[i]).name == name ==> has_head(
                remotes,
                locals[i].head_commit,
            ),
    ensures
        !unpushed_names(locals, remotes, ahead).contains(name),
{
    lemma_reported_names(locals, remotes, ahead, name);
}

/// A local branch whose history is part of the history of some remote
/// branch is never reported, also where that remote branch has moved on
/// since: being ahead of it by no commit is enough.
pub proof fn lemma_merged_not_reported(
    locals: Seq<BranchModel>,
    remotes: Seq<BranchModel>,
    ahead: spec_fn(Seq<char>, Seq<char>) -> nat,
    name: Seq<char>,
)
    requires
        forall|i: int|
            0 <= i < locals.len() && (#[trigger] locals[i]).name == name ==> is_contained(
                locals[i].head_commit,
                remotes,
                ahead,
            ),
    ensures
        !unpushed_names(locals, remotes, ahead).contains(name),
{
    lemma_reported_names(locals, remotes, ahead, name);
}

/// A local branch that shares nothing with any remote branch is always
/// reported: it is at the head of none, and ahead of each by at least its own
/// head commit.
pub proof fn lemma_ahead_of_all_reported(
    locals: Seq<BranchModel>,
    remotes: Seq<BranchModel>,
    ahead: spec_fn(Seq<char>, Seq<char>) -> nat,
    i: int,
)
    requires
        0 <= i < locals.len(),
        forall|j: int|
            0 <= j < remotes.len() ==> {
                &&& (#[trigger] remotes[j]).head_commit != locals[i].head_commit
                &&& ahead(locals[i].head_commit, remotes[j].head_commit) > 0
            },
    ensures
        unpushed_names(locals, remotes, ahead).contains(locals[i].name),
{
    lemma_reported_names(locals, remotes, ahead, locals[i].name);
    assert(!is_pushed(locals[i].head_commit, remotes, ahead));
}

/// Dropping the remote branches whose head an earlier one has leaves the
/// same heads.
pub proof fn lemma_distinct_heads(remotes: Seq<BranchModel>, head: Seq<char>)
    ensures
        has_head(distinct_heads(remotes), head) <==> has_head(remotes, head),
        forall|i: int, j: int|
            0 <= i < j < distinct_heads(remotes).len() ==> (#[trigger] distinct_heads(
                remotes,
            )[i]).head_commit != (#[trigger] distinct_heads(remotes)[j]).head_commit,
    decreases remotes.len(),
{
    if remotes.len() > 0 {
        let init = remotes.drop_last();
        let kept = distinct_heads(init);
        let all = distinct_heads(remotes);
        lemma_distinct_heads(init, head);
        lemma_distinct_heads(init, remotes.last().head_commit);
        if has_head(kept, head) {
            let j = choose|j: int| 0 <= j < kept.len() && (#[trigger] kept[j]).head_commit == head;
            assert(all[j].head_commit == head);
        }
        if has_head(init, head) {
            let j = choose|j: int| 0 <= j < init.len() && (#[trigger] init[j]).head_commit == head;
            assert(remotes[j].head_commit == head);
        }
        if has_head(all, head) && !has_head(kept, head) {
            let j = choose|j: int| 0 <= j < all.len() && (#[trigger] all[j]).head_commit == head;
            if j < kept.len() {
                assert(kept[j].head_commit == head);
            }
            assert(remotes[remotes.len() - 1].head_commit == head);
        }
        if has_head(remotes, head) && !has_head(init, head) {
            let j = choose|j: int|
                0 <= j < remotes.len() && (#[trigger] remotes[j]).head_commit == head;
            if j < init.len() {
                assert(init[j].head_commit == head);
            }
            if !has_head(kept, remotes.last().head_commit) {
                assert(all[all.len() - 1].head_commit == head);
            }
        }
        assert forall|i: int, j: int| 0 <= i < j < all.len() implies (#[trigger] all[i]).head_commit
            != (#[trigger] all[j]).head_commit by {
            if j < kept.len() {
                assert(kept[i].head_commit != kept[j].head_commit);
            } else {
                assert(kept[i].head_commit == all[i].head_commit);
            }
        }
    }
}

/// Which branches are pushed depends on the set of remote heads alone, not
/// on the order of the remote branches nor on how many share a head.
pub proof fn lemma_pushed_by_heads(
    head: Seq<char>,
    remotes: Seq<BranchModel>,
    others: Seq<BranchModel>,
    ahead: spec_fn(Seq<char>, Seq<char>) -> nat,
)
    requires
        forall|h: Seq<char>| has_head(remotes, h) <==> has_head(others, h),
    ensures
        is_pushed(head, remotes, ahead) <==> is_pushed(head, others, ahead),
{
    if is_contained(head, remotes, ahead) {
        let j = choose|j: int|
            0 <= j < remotes.len() && ahead(head, (#[trigger] remotes[j]).head_commit) == 0;
        assert(has_head(remotes, remotes[j].head_commit));
        assert(has_head(others, remotes[j].head_commit));
        let k = choose|k: int|
            0 <= k < others.len() && (#[trigger] others[k]).head_commit == remotes[j].head_commit;
        assert(ahead(head, others[k].head_commit) == 0);
    }
    if is_contained(head, others, ahead) {
        let j = choose|j: int|
            0 <= j < others.len() && ahead(head, (#[trigger] others[j]).head_commit) == 0;
        assert(has_head(others, others[j].head_commit));
        assert(has_head(remotes, others[j].head_commit));
        let k = choose|k: int|
            0 <= k < remotes.len() && (#[trigger] remotes[k]).head_commit == others[j].head_commit;
        assert(ahead(head, remotes[k].head_commit) == 0);
    }
}

/// The unpushed names depend on the set of remote heads alone.
pub proof fn lemma_unpushed_by_heads(
    locals: Seq<BranchModel>,
    remotes: Seq<BranchModel>,
    others: Seq<BranchModel>,
    ahead: spec_fn(Seq<char>, Seq<char>) -> nat,
)
    requires
        forall|h: Seq<char>| has_head(remotes, h) <==> has_head(others, h),
    ensures
        unpushed_names(locals, remotes, ahead) == unpushed_names(locals, others, ahead),
    decreases locals.len(),
{
    if locals.len() > 0 {
        lemma_unpushed_by_heads(locals.drop_last(), remotes, others, ahead);
        lemma_pushed_by_heads(locals.last().head_commit, remotes, others, ahead);
    }
}

/// Settling leaves a scan well formed, and moves it forward or not at all.
pub proof fn lemma_settle_shape(scan: ScanModel)
    requires
        0 <= scan.local_at <= scan.locals.len(),
        0 <= scan.remote_at <= scan.remotes.len(),
    ensures
        scan.settle().wf(),
        scan.settle().locals == scan.locals,
        scan.settle().remotes == scan.remotes,
        scan.settle().local_at >= scan.local_at,
        scan.settle().local_at == scan.local_at && !scan.finished() ==> scan.settle().remote_at
            == scan.remote_at,
    decreases scan.locals.len() - scan.local_at,
{
    if scan.local_at < scan.locals.len() {
        if has_head(scan.remotes, scan.locals[scan.local_at].head_commit) {
            lemma_settle_shape(scan.decided(true));
        } else if scan.remote_at >= scan.remotes.len() {
            lemma_settle_shape(scan.decided(false));
        }
    }
}

/// Settling keeps a scan in agreement with the backend.
pub proof fn lemma_settle_agrees(scan: ScanModel, ahead: spec_fn(Seq<char>, Seq<char>) -> nat)
    requires
        0 <= scan.local_at <= scan.locals.len(),
        0 <= scan.remote_at <= scan.remotes.len(),
        scan.agrees_with(ahead),
    ensures
        scan.settle().agrees_with(ahead),
    decreases scan.locals.len() - scan.local_at,
{
    if scan.local_at < scan.locals.len() {
        let local = scan.locals[scan.local_at];
        let upto = scan.locals.take(scan.local_at + 1);
        assert(upto.drop_last() =~= scan.locals.take(scan.local_at));
        assert(upto.last() == local);
        if has_head(scan.remotes, local.head_commit) {
            lemma_settle_agrees(scan.decided(true), ahead);
        } else if scan.remote_at >= scan.remotes.len() {
            assert(!is_contained(local.head_commit, scan.remotes, ahead));
            lemma_settle_agrees(scan.decided(false), ahead);
        }
    }
}

/// A scan starts well formed and in agreement with every backend.
pub proof fn lemma_start_agrees(
    locals: Seq<BranchModel>,
    remotes: Seq<BranchModel>,
    ahead: spec_fn(Seq<char>, Seq<char>) -> nat,
)
    ensures
        scan_start(locals, remotes).wf(),
        scan_start(locals, remotes).agrees_with(ahead),
        scan_start(locals, remotes).locals == locals,
        scan_start(locals, remotes).remotes == distinct_heads(remotes),
{
    let first = ScanModel {
        locals,
        remotes: distinct_heads(remotes),
        local_at: 0,
        remote_at: 0,
        unpushed: Seq::empty(),
    };
    assert(locals.take(0) =~= Seq::<BranchModel>::empty());
    lemma_settle_shape(first);
    lemma_settle_agrees(first, ahead);
}

/// An answer leaves a scan well formed and brings it closer to its end: the
/// scan decides a later branch, or tries the next remote branch.
pub proof fn lemma_answer_shape(scan: ScanModel, count: nat)
    requires
        scan.wf(),
        !scan.finished(),
    ensures
        scan.answered(count).wf(),
        scan.answered(count).locals == scan.locals,
        scan.answered(count).remotes == scan.remotes,
        scan.answered(count).local_at > scan.local_at || (scan.answered(count).local_at
            == scan.local_at && scan.answered(count).remote_at == scan.remote_at + 1),
{
    if count == 0 {
        lemma_settle_shape(scan.decided(true));
    } else {
        let moved = ScanModel {
            locals: scan.locals,
            remotes: scan.remotes,
            local_at: scan.local_at,
            remote_at: scan.remote_at + 1,
            unpushed: scan.unpushed,
        };
        lemma_settle_shape(moved);
    }
}

/// A scan that agrees with the backend still does after the backend's
/// answer to its open question.
pub proof fn lemma_answer_agrees(scan: ScanModel, ahead: spec_fn(Seq<char>, Seq<char>) -> nat)
    requires
        scan.wf(),
        scan.agrees_with(ahead),
        !scan.finished(),
    ensures
        scan.answered(scan.backend_answer(ahead)).agrees_with(ahead),
{
    let query = scan.query()->0;
    let upto = scan.locals.take(scan.local_at + 1);
    assert(upto.drop_last() =~= scan.locals.take(scan.local_at));
    assert(upto.last() == query.local);
    if scan.backend_answer(ahead) == 0 {
        assert(is_contained(query.local.head_commit, scan.remotes, ahead));
        lemma_settle_agrees(scan.decided(true), ahead);
    } else {
        let moved = ScanModel {
            locals: scan.locals,
            remotes: scan.remotes,
            local_at: scan.local_at,
            remote_at: scan.remote_at + 1,
            unpushed: scan.unpushed,
        };
        lemma_settle_agrees(moved, ahead);
    }
}

/// A finished scan that agrees with the backend has found the unpushed
/// branches: those local branches of which no remote branch has the head or
/// holds the history. Comparing with one branch for each remote head gives
/// what comparing with every remote branch gives.
pub proof fn lemma_finished_scan(
    scan: ScanModel,
    remotes: Seq<BranchModel>,
    ahead: spec_fn(Seq<char>, Seq<char>) -> nat,
)
    requires
        scan.wf(),
        scan.finished(),
        scan.agrees_with(ahead),
        scan.remotes == distinct_heads(remotes),
    ensures
        scan.unpushed == unpushed_names(scan.locals, remotes, ahead),
{
    assert(scan.locals.take(scan.local_at) =~= scan.locals);
    assert forall|h: Seq<char>| has_head(distinct_heads(remotes), h) <==> has_head(remotes, h) by {
        lemma_distinct_heads(remotes, h);
    }
    lemma_unpushed_by_heads(scan.locals, distinct_heads(remotes), remotes, ahead);
}

/// Running a scan keeps it in agreement with the backend that answers it,
/// and ends with every branch decided.
pub proof fn lemma_run_agrees(scan: ScanModel, ahead: spec_fn(Seq<char>, Seq<char>) -> nat)
    requires
        scan.wf(),
        scan.agrees_with(ahead),
    ensures
        scan.run(ahead).wf(),
        scan.run(ahead).finished(),
        scan.run(ahead).agrees_with(ahead),
        scan.run(ahead).locals == scan.locals,
        scan.run(ahead).remotes == scan.remotes,
    decreases scan.locals.len() - scan.local_at, scan.remotes.len() - scan.remote_at,
{
    if !scan.finished() {
        let count = scan.backend_answer(ahead);
        lemma_answer_shape(scan, count);
        lemma_answer_agrees(scan, ahead);
        lemma_run_agrees(scan.answered(count), ahead);
    }
}

/// What the detector finds. A scan of the local branches against the remote
/// branches, each of its questions answered by the backend, ends with the
/// names of the local branches that are not pushed, in the order of the local
/// branches: those with no remote branch at their head and none that holds
/// their history.
pub proof fn lemma_scan_finds_unpushed(
    locals: Seq<BranchModel>,
    remotes: Seq<BranchModel>,
    ahead: spec_fn(Seq<char>, Seq<char>) -> nat,
)
    ensures
        scan_start(locals, remotes).run(ahead).finished(),
        scan_start(locals, remotes).run(ahead).unpushed == unpushed_names(locals, remotes, ahead),
{
    lemma_start_agrees(locals, remotes, ahead);
    lemma_run_agrees(scan_start(locals, remotes), ahead);
    lemma_finished_scan(scan_start(locals, remotes).run(ahead), remotes, ahead);
}

/// A scan for the unpushed branches of a repository. It is either finished,
/// or has a question open for the backend.
pub struct UnpushedScan {
    locals: Vec<BranchRef>,
    remotes: Vec<BranchRef>,
    local_at: usize,
    remote_at: usize,
    unpushed: Vec<String>,
}

impl View for UnpushedScan {
    type V = ScanModel;

    closed spec fn view(&self) -> ScanModel {
        ScanModel {
            locals: self.locals.deep_view(),
            remotes: self.remotes.deep_view(),
            local_at: self.local_at as int,
            remote_at: self.remote_at as int,
            unpushed: self.unpushed.deep_view(),
        }
    }
}

/// A copy of a branch reference.
fn copy_branch(branch: &BranchRef) -> (r: BranchRef)
    ensures
        r@ == branch@,
{
    BranchRef {
        name: branch.name.clone(),
        head_commit: CommitId { digest: branch.head_commit.digest.clone() },
    }
}

/// Whether one of the branches points to `head`.
fn find_head(remotes: &Vec<BranchRef>, head: &CommitId) -> (r: bool)
    ensures
        r == has_head(remotes.deep_view(), head@),
{
    let mut j: usize = 0;
    while j < remotes.len()
        invariant
            j <= remotes.len(),
            forall|k: int| 0 <= k < j ==> remotes.deep_view()[k].head_commit != head@,
        decreases remotes.len() - j,
    {
        if remotes[j].head_commit.digest == head.digest {
            assert(remotes.deep_view()[j as int].head_commit == head@);
            return true;
        }
        j += 1;
    }
    false
}

/// One branch for each remote head, in the order in which the heads first
/// occur.
fn keep_distinct_heads(remotes: &Vec<BranchRef>) -> (kept: Vec<BranchRef>)
    ensures
        kept.deep_view() == distinct_heads(remotes.deep_view()),
{
    let mut kept: Vec<BranchRef> = Vec::new();
    let mut i: usize = 0;
    while i < remotes.len()
        invariant
            i <= remotes.len(),
            kept.deep_view() == distinct_heads(remotes.deep_view().take(i as int)),
        decreases remotes.len() - i,
    {
        let ghost before = kept.deep_view();
        proof {
            let upto = remotes.deep_view().take(i + 1);
            assert(upto.drop_last() =~= remotes.deep_view().take(i as int));
            assert(upto.last() == remotes[i as int]@);
        }
        if !find_head(&kept, &remotes[i].head_commit) {
            let branch = copy_branch(&remotes[i]);
            kept.push(branch);
            assert(kept.deep_view() =~= before.push(branch@));
        }
        i += 1;
    }
    assert(remotes.deep_view().take(remotes.len() as int) =~= remotes.deep_view());
    kept
}

impl UnpushedScan {
    #[verifier::type_invariant]
    spec fn well_formed(self) -> bool {
        self@.wf()
    }

    /// Settles the scan that the parts make up, and puts it together.
    fn settled(
        locals: Vec<BranchRef>,
        remotes: Vec<BranchRef>,
        local_at: usize,
        remote_at: usize,
        unpushed: Vec<String>,
    ) -> (scan: UnpushedScan)
        requires
            local_at <= locals.len(),
            remote_at <= remotes.len(),
        ensures
            scan@ == (ScanModel {
                locals: locals.deep_view(),
                remotes: remotes.deep_view(),
                local_at: local_at as int,
                remote_at: remote_at as int,
                unpushed: unpushed.deep_view(),
            }).settle(),
    {
        let ghost first = ScanModel {
            locals: locals.deep_view(),
            remotes: remotes.deep_view(),
            local_at: local_at as int,
            remote_at: remote_at as int,
            unpushed: unpushed.deep_view(),
        };
        let mut at = local_at;
        let mut next = remote_at;
        let mut names = unpushed;
        while at < locals.len()
            invariant
                at <= locals.len(),
                next <= remotes.len(),
                first == (ScanModel {
                    locals: locals.deep_view(),
                    remotes: remotes.deep_view(),
                    local_at: local_at as int,
                    remote_at: remote_at as int,
                    unpushed: unpushed.deep_view(),
                }),
                first.settle() == (ScanModel {
                    locals: locals.deep_view(),
                    remotes: remotes.deep_view(),
                    local_at: at as int,
                    remote_at: next as int,
                    unpushed: names.deep_view(),
                }).settle(),
            decreases locals.len() - at,
        {
            let ghost before = names.deep_view();
            if find_head(&remotes, &locals[at].head_commit) {
                at += 1;
                next = 0;
            } else if next >= remotes.len() {
                names.push(locals[at].name.clone());
                assert(names.deep_view() =~= before.push(locals[at as int]@.name));
                at += 1;
                next = 0;
            } else {
                let ghost here = ScanModel {
                    locals: locals.deep_view(),
                    remotes: remotes.deep_view(),
                    local_at: at as int,
                    remote_at: next as int,
                    unpushed: names.deep_view(),
                };
                assert(here.settle() == here);
                return UnpushedScan {
                    locals,
                    remotes,
                    local_at: at,
                    remote_at: next,
                    unpushed: names,
                };
            }
        }
        UnpushedScan { locals, remotes, local_at: at, remote_at: 0, unpushed: names }
    }

    /// Starts the scan of the local branches of a repository against its
    /// remote branches. Of several remote branches with one head the first
    /// stands for all.
    pub fn start(locals: Vec<BranchRef>, remotes: &Vec<BranchRef>) -> (scan: UnpushedScan)
        ensures
            scan@ == scan_start(locals.deep_view(), remotes.deep_view()),
    {
        let kept = keep_distinct_heads(remotes);
        let names: Vec<String> = Vec::new();
        assert(names.deep_view() =~= Seq::<Seq<char>>::empty());
        UnpushedScan::settled(locals, kept, 0, 0, names)
    }

    /// Whether every local branch is decided.
    pub fn is_finished(&self) -> (r: bool)
        ensures
            r == self@.finished(),
    {
        proof {
            use_type_invariant(self);
        }
        self.local_at >= self.locals.len()
    }

    /// The question that the backend has to answer next, if the scan is not
    /// finished.
    pub fn pending(&self) -> (r: Option<AncestryQuery>)
        ensures
            r.deep_view() == self@.query(),
    {
        proof {
            use_type_invariant(self);
        }
        if self.local_at >= self.locals.len() {
            None
        } else {
            Some(
                AncestryQuery {
                    local: copy_branch(&self.locals[self.local_at]),
                    remote: copy_branch(&self.remotes[self.remote_at]),
                },
            )
        }
    }

    /// Takes the backend's answer to the open question: the local commit is
    /// ahead of the remote one by `ahead` commits.
    pub fn answer(self, ahead: usize) -> (scan: UnpushedScan)
        ensures
            scan@ == self@.answered(ahead as nat),
    {
        proof {
            use_type_invariant(&self);
        }
        if self.local_at >= self.locals.len() {
            self
        } else if ahead == 0 {
            let next = self.local_at + 1;
            UnpushedScan::settled(self.locals, self.remotes, next, 0, self.unpushed)
        } else {
            assert(self.remote_at < self.remotes.len()) by {
                assert(self.remotes.deep_view().len() == self.remotes.len());
            }
            let next = self.remote_at + 1;
            UnpushedScan::settled(self.locals, self.remotes, self.local_at, next, self.unpushed)
        }
    }

    /// The status of the repository at `path`, once the scan is finished;
    /// `None` while a question is open.
    pub fn into_status(self, path: String, dirty: bool) -> (r: Option<RepoStatus>)
        ensures
            match r {
                Some(status) => self@.finished() && status@ == (StatusModel {
                    path: path@,
                    dirty,
                    unpushed_branches: self@.unpushed,
                }),
                None => !self@.finished(),
            },
    {
        proof {
            use_type_invariant(&self);
        }
        if self.local_at >= self.locals.len() {
            Some(RepoStatus { path, dirty, unpushed_branches: self.unpushed })
        } else {
            None
        }
    }
}

} // verus!
