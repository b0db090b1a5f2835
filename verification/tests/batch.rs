use jetti::batch::{
    sort_results, status_outcome, summary_parts, BatchOp, CommandOutcome, GitQuery, OpResult, Reply,
    Step, SyncState, Tone,
};

fn detail(r: &OpResult) -> (&'static str, String) {
    match r {
        OpResult::Success(s) => ("success", s.clone()),
        OpResult::Skipped(s) => ("skipped", s.clone()),
        OpResult::Warning(s) => ("warning", s.clone()),
        OpResult::Failed(s) => ("failed", s.clone()),
    }
}

#[test]
fn status_of_clean_repo() {
    assert_eq!(detail(&status_outcome(Some("main"), 0, 0, 0)), ("skipped", "main".to_string()));
    assert_eq!(detail(&status_outcome(None, 0, 0, 0)), ("skipped", "HEAD".to_string()));
}

#[test]
fn status_of_dirty_and_ahead_repo() {
    assert_eq!(
        detail(&status_outcome(Some("main"), 3, 2, 0)),
        ("warning", "main · 3 modified · ↑2".to_string())
    );
    assert_eq!(detail(&status_outcome(Some("dev"), 0, 0, 5)), ("success", "dev · ↓5".to_string()));
    assert_eq!(
        detail(&status_outcome(Some("x"), 1, 0, 12)),
        ("warning", "x · 1 modified · ↓12".to_string())
    );
}

/// Drive a machine with scripted replies, returning the queries and the outcome.
fn drive(start: (SyncState, Step), mut replies: Vec<Reply>) -> (Vec<GitQuery>, (&'static str, String)) {
    replies.reverse();
    let (mut state, mut step) = start;
    let mut asked = Vec::new();
    loop {
        match step {
            Step::Run(q) => {
                asked.push(q);
                let reply = replies.pop().expect("script ran out");
                let (s, t) = state.advance(reply);
                state = s;
                step = t;
            }
            Step::Finish(r) => return (asked, detail(&r)),
        }
    }
}

fn rev(s: &str) -> Reply {
    Reply::Rev(Some(s.to_string()))
}

#[test]
fn update_skips_dirty_repo() {
    let (asked, out) = drive(SyncState::start_update(), vec![Reply::Dirty(true)]);
    assert_eq!(asked, vec![GitQuery::IsDirty]);
    assert_eq!(out, ("warning", "dirty working tree, skipped".to_string()));
}

#[test]
fn update_fast_forwards() {
    let (asked, out) = drive(
        SyncState::start_update(),
        vec![
            Reply::Dirty(false),
            rev("a"),
            Reply::Ran(CommandOutcome::Succeeded),
            Reply::Ran(CommandOutcome::Succeeded),
            Reply::Ran(CommandOutcome::Succeeded),
            rev("b"),
        ],
    );
    assert_eq!(
        asked,
        vec![
            GitQuery::IsDirty,
            GitQuery::HeadRev,
            GitQuery::Fetch,
            GitQuery::CheckUpstream,
            GitQuery::MergeFastForward,
            GitQuery::HeadRev
        ]
    );
    assert_eq!(out, ("success", "fast-forwarded".to_string()));
}

#[test]
fn update_outcomes() {
    let up_to_date = drive(
        SyncState::start_update(),
        vec![
            Reply::Dirty(false),
            rev("a"),
            Reply::Ran(CommandOutcome::Succeeded),
            Reply::Ran(CommandOutcome::Succeeded),
            Reply::Ran(CommandOutcome::Succeeded),
            rev("a"),
        ],
    );
    assert_eq!(up_to_date.1, ("skipped", "up to date".to_string()));
    let no_upstream = drive(
        SyncState::start_update(),
        vec![Reply::Dirty(false), rev("a"), Reply::Ran(CommandOutcome::Succeeded), Reply::Ran(CommandOutcome::Failed)],
    );
    assert_eq!(no_upstream.1, ("skipped", "no upstream".to_string()));
    let diverged = drive(
        SyncState::start_update(),
        vec![
            Reply::Dirty(false),
            rev("a"),
            Reply::Ran(CommandOutcome::Succeeded),
            Reply::Ran(CommandOutcome::Succeeded),
            Reply::Ran(CommandOutcome::Failed),
        ],
    );
    assert_eq!(diverged.1, ("warning", "diverged, merge manually".to_string()));
    let fetch_failed = drive(
        SyncState::start_update(),
        vec![Reply::Dirty(false), Reply::Rev(None), Reply::Ran(CommandOutcome::Failed)],
    );
    assert_eq!(fetch_failed.1, ("failed", "fetch failed".to_string()));
    let no_git = drive(
        SyncState::start_update(),
        vec![Reply::Dirty(false), Reply::Rev(None), Reply::Ran(CommandOutcome::LaunchError("boom".to_string()))],
    );
    assert_eq!(no_git.1, ("failed", "git error: boom".to_string()));
    let merge_err = drive(
        SyncState::start_update(),
        vec![
            Reply::Dirty(false),
            rev("a"),
            Reply::Ran(CommandOutcome::Succeeded),
            Reply::Ran(CommandOutcome::Succeeded),
            Reply::Ran(CommandOutcome::LaunchError("x".to_string())),
        ],
    );
    assert_eq!(merge_err.1, ("failed", "merge failed: x".to_string()));
    let upstream_err = drive(
        SyncState::start_update(),
        vec![
            Reply::Dirty(false),
            rev("a"),
            Reply::Ran(CommandOutcome::Succeeded),
            Reply::Ran(CommandOutcome::LaunchError("x".to_string())),
        ],
    );
    assert_eq!(upstream_err.1, ("failed", "failed to check upstream".to_string()));
}

#[test]
fn fetch_compares_upstream_before_and_after() {
    let (asked, out) = drive(
        SyncState::start_fetch(),
        vec![rev("a"), Reply::Ran(CommandOutcome::Succeeded), rev("b")],
    );
    assert_eq!(asked, vec![GitQuery::UpstreamRev, GitQuery::Fetch, GitQuery::UpstreamRev]);
    assert_eq!(out, ("success", "fetched".to_string()));
}

#[test]
fn fetch_falls_back_to_fetch_head() {
    let (asked, out) = drive(
        SyncState::start_fetch(),
        vec![Reply::Rev(None), Reply::Rev(None), Reply::Ran(CommandOutcome::Succeeded), Reply::Rev(None), Reply::Rev(None)],
    );
    assert_eq!(
        asked,
        vec![
            GitQuery::UpstreamRev,
            GitQuery::FetchHeadRev,
            GitQuery::Fetch,
            GitQuery::UpstreamRev,
            GitQuery::FetchHeadRev
        ]
    );
    assert_eq!(out, ("skipped", "up to date".to_string()));
    let failed = drive(SyncState::start_fetch(), vec![rev("a"), Reply::Ran(CommandOutcome::Failed)]);
    assert_eq!(failed.1, ("failed", "fetch failed".to_string()));
}

fn results(v: &[(&str, OpResult)]) -> Vec<(String, OpResult)> {
    v.iter().map(|(p, r)| (p.to_string(), r.clone())).collect()
}

#[test]
fn results_sorted_by_path() {
    let sorted = sort_results(results(&[
        ("b/x/y", OpResult::Skipped("up to date".into())),
        ("a/x/y", OpResult::Success("fetched".into())),
    ]));
    assert_eq!(sorted[0].0, "a/x/y");
    assert_eq!(detail(&sorted[1].1), ("skipped", "up to date".to_string()));
}

#[test]
fn summary_per_operation() {
    let rs = results(&[
        ("a", OpResult::Success("".into())),
        ("b", OpResult::Skipped("".into())),
        ("c", OpResult::Skipped("".into())),
        ("d", OpResult::Warning("".into())),
        ("e", OpResult::Failed("".into())),
    ]);
    let texts = |op| -> Vec<(Tone, String)> {
        summary_parts(op, &rs).into_iter().map(|p| (p.tone, p.text)).collect()
    };
    assert_eq!(
        texts(BatchOp::Status),
        vec![
            (Tone::Good, "1 behind upstream".to_string()),
            (Tone::Quiet, "2 clean".to_string()),
            (Tone::Attention, "1 need attention".to_string()),
            (Tone::Bad, "1 failed".to_string()),
        ]
    );
    assert_eq!(texts(BatchOp::Fetch)[0].1, "1 fetched");
    assert_eq!(texts(BatchOp::Fetch)[1].1, "2 up to date");
    assert_eq!(texts(BatchOp::Update)[0].1, "1 updated");
    assert!(summary_parts(BatchOp::Update, &Vec::new()).is_empty());
}

#[test]
fn summary_omits_zero_counts() {
    let rs = results(&[("a", OpResult::Skipped("".into())), ("b", OpResult::Skipped("".into()))]);
    let parts = summary_parts(BatchOp::Status, &rs);
    assert_eq!(parts.len(), 1);
    assert_eq!(parts[0].text, "2 clean");
}

#[test]
fn labels_and_icons() {
    assert_eq!(BatchOp::Fetch.progress_label(), "fetching");
    assert_eq!(BatchOp::Update.progress_label(), "updating");
    assert_eq!(BatchOp::Status.progress_label(), "checking");
    assert_eq!(OpResult::Success(String::new()).icon(), "✓ ");
    assert_eq!(OpResult::Failed(String::new()).icon(), "✗ ");
    assert_eq!(OpResult::Warning("w".into()).detail(), "w");
}

#[test]
fn reply_of_the_wrong_kind_fails_the_repository() {
    let (asked, out) = drive(SyncState::start_update(), vec![rev("abc")]);
    assert_eq!(asked, vec![GitQuery::IsDirty]);
    assert_eq!(out, ("failed", "unexpected reply".to_string()));
    let (state, _) = SyncState::start_fetch();
    let (_, step) = state.advance(Reply::Dirty(false));
    match step {
        Step::Finish(r) => assert_eq!(detail(&r), ("failed", "unexpected reply".to_string())),
        Step::Run(_) => panic!("expected the repository to finish"),
    }
}
