use rustgit::unpushed::{AncestryQuery, BranchRef, CommitId, RepoStatus, UnpushedScan};

fn branch(name: &str, head: &str) -> BranchRef {
    BranchRef { name: name.to_string(), head_commit: CommitId { digest: head.to_string() } }
}

fn strings(text: &[&str]) -> Vec<String> {
    text.iter().map(|s| s.to_string()).collect()
}

/// Runs a scan to its end against a backend, and hands back the unpushed
/// names with the questions that were asked.
fn run(
    locals: Vec<BranchRef>,
    remotes: Vec<BranchRef>,
    ahead: &dyn Fn(&str, &str) -> usize,
) -> (Vec<String>, Vec<(String, String)>) {
    let mut asked = Vec::new();
    let mut scan = UnpushedScan::start(locals, &remotes);
    while let Some(query) = scan.pending() {
        assert!(!scan.is_finished());
        let local = query.local.head_commit.digest.clone();
        let remote = query.remote.head_commit.digest.clone();
        let count = ahead(&local, &remote);
        asked.push((local, remote));
        scan = scan.answer(count);
        assert!(asked.len() < 10_000);
    }
    assert!(scan.is_finished());
    let status = scan.into_status("/repo".to_string(), false).unwrap();
    (status.unpushed_branches, asked)
}

#[test]
fn a_branch_at_a_remote_head_is_pushed() {
    let locals = vec![branch("main", "aaa"), branch("topic", "bbb")];
    let remotes = vec![branch("origin/main", "aaa"), branch("origin/topic", "bbb")];
    let (unpushed, asked) = run(locals, remotes, &|_, _| 5);
    assert!(unpushed.is_empty());
    assert!(asked.is_empty());
}

#[test]
fn a_merged_branch_is_pushed_though_the_remote_moved_on() {
    // origin/main has advanced past the commit that `fix` points to.
    let locals = vec![branch("fix", "c1")];
    let remotes = vec![branch("origin/other", "x9"), branch("origin/main", "c7")];
    let (unpushed, asked) = run(locals, remotes, &|local, remote| {
        if local == "c1" && remote == "c7" {
            0
        } else {
            3
        }
    });
    assert!(unpushed.is_empty());
    assert_eq!(
        asked,
        vec![("c1".to_string(), "x9".to_string()), ("c1".to_string(), "c7".to_string())]
    );
}

#[test]
fn a_branch_ahead_of_every_remote_is_unpushed() {
    let locals = vec![branch("main", "aaa"), branch("wip", "w1"), branch("draft", "d1")];
    let remotes = vec![branch("origin/main", "aaa"), branch("origin/dev", "eee")];
    let (unpushed, asked) = run(locals, remotes, &|_, _| 1);
    assert_eq!(unpushed, strings(&["wip", "draft"]));
    assert_eq!(asked.len(), 4);
}

#[test]
fn without_remotes_every_branch_is_unpushed() {
    let locals = vec![branch("main", "aaa"), branch("topic", "bbb")];
    let (unpushed, asked) = run(locals, Vec::new(), &|_, _| 0);
    assert_eq!(unpushed, strings(&["main", "topic"]));
    assert!(asked.is_empty());
}

#[test]
fn without_local_branches_nothing_is_unpushed() {
    let scan = UnpushedScan::start(Vec::new(), &vec![branch("origin/main", "aaa")]);
    assert!(scan.is_finished());
    assert!(scan.pending().is_none());
    let status = scan.into_status("/r".to_string(), true).unwrap();
    assert_eq!(
        status,
        RepoStatus { path: "/r".to_string(), dirty: true, unpushed_branches: Vec::new() }
    );
}

#[test]
fn the_search_stops_at_the_first_remote_that_holds_the_branch() {
    let locals = vec![branch("topic", "t1")];
    let remotes = vec![branch("r/a", "a1"), branch("r/b", "b1"), branch("r/c", "c1")];
    let (unpushed, asked) = run(locals, remotes, &|_, remote| if remote == "b1" { 0 } else { 2 });
    assert!(unpushed.is_empty());
    assert_eq!(asked.len(), 2);
    assert_eq!(asked[1].1, "b1");
}

#[test]
fn remote_branches_with_one_head_are_asked_once() {
    let locals = vec![branch("topic", "t1")];
    let remotes = vec![
        branch("origin/main", "m1"),
        branch("upstream/main", "m1"),
        branch("origin/dev", "d1"),
        branch("fork/main", "m1"),
    ];
    let scan = UnpushedScan::start(locals.clone(), &remotes);
    let first: AncestryQuery = scan.pending().unwrap();
    assert_eq!(first.local, branch("topic", "t1"));
    assert_eq!(first.remote, branch("origin/main", "m1"));
    let (unpushed, asked) = run(locals, remotes, &|_, _| 4);
    assert_eq!(unpushed, strings(&["topic"]));
    assert_eq!(
        asked,
        vec![("t1".to_string(), "m1".to_string()), ("t1".to_string(), "d1".to_string())]
    );
}

#[test]
fn unpushed_branches_keep_the_order_of_the_local_branches() {
    let locals = vec![
        branch("z", "1"),
        branch("a", "2"),
        branch("m", "3"),
        branch("pushed", "9"),
        branch("b", "4"),
    ];
    let remotes = vec![branch("origin/pushed", "9"), branch("origin/x", "8")];
    let (unpushed, _) = run(locals, remotes, &|local, _| if local == "3" { 0 } else { 1 });
    assert_eq!(unpushed, strings(&["z", "a", "b"]));
}

#[test]
fn the_scan_agrees_with_the_rule_on_every_small_backend() {
    // Two local branches, two remote heads: every assignment of "ahead of".
    for bits in 0..16u32 {
        let ahead = move |local: &str, remote: &str| -> usize {
            let l = if local == "l0" { 0 } else { 1 };
            let r = if remote == "r0" { 0 } else { 1 };
            ((bits >> (2 * l + r)) & 1) as usize
        };
        let locals = vec![branch("first", "l0"), branch("second", "l1")];
        let remotes = vec![branch("o/a", "r0"), branch("o/b", "r1")];
        let (unpushed, _) = run(locals, remotes, &ahead);
        let mut expected = Vec::new();
        for (name, head) in [("first", "l0"), ("second", "l1")] {
            if ahead(head, "r0") != 0 && ahead(head, "r1") != 0 {
                expected.push(name.to_string());
            }
        }
        assert_eq!(unpushed, expected, "backend {:04b}", bits);
    }
}

#[test]
fn an_open_question_gives_no_status() {
    let scan = UnpushedScan::start(vec![branch("t", "1")], &vec![branch("o/m", "2")]);
    assert!(!scan.is_finished());
    assert!(scan.into_status("/r".to_string(), false).is_none());
}

#[test]
fn an_answer_to_a_finished_scan_changes_nothing() {
    let scan = UnpushedScan::start(vec![branch("t", "1")], &Vec::new());
    assert!(scan.is_finished());
    let scan = scan.answer(0).answer(7);
    assert!(scan.is_finished());
    let status = scan.into_status("/r".to_string(), false).unwrap();
    assert_eq!(status.unpushed_branches, strings(&["t"]));
}

#[test]
fn a_status_is_reported_when_dirty_or_unpushed() {
    let clean = RepoStatus { path: "/r".to_string(), dirty: false, unpushed_branches: Vec::new() };
    let dirty = RepoStatus { path: "/r".to_string(), dirty: true, unpushed_branches: Vec::new() };
    let ahead =
        RepoStatus { path: "/r".to_string(), dirty: false, unpushed_branches: strings(&["t"]) };
    assert!(!clean.needs_report());
    assert!(dirty.needs_report());
    assert!(ahead.needs_report());
}
