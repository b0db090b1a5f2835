//! The decisions of the batch commands (fetch, update, status): what each
//! repository's outcome is, in which order git is consulted, and the summary
//! line. Running git and drawing progress is left to the caller.

use vstd::prelude::*;

use crate::output::{self, decimal_string};
use crate::text::{self, compare_str, owned, Order};

verus! {

/// The outcome of a batch operation on one repository.
#[derive(Debug, Clone)]
pub enum OpResult {
    /// The operation completed and something changed (e.g. new commits fetched).
    Success(String),
    /// The operation completed but nothing changed (e.g. already up to date).
    Skipped(String),
    /// The operation completed but the repository needs manual attention.
    Warning(String),
    /// The operation failed.
    Failed(String),
}

/// The contents of an [`OpResult`].
pub enum OpResultModel {
    Success(Seq<char>),
    Skipped(Seq<char>),
    Warning(Seq<char>),
    Failed(Seq<char>),
}

impl View for OpResult {
    type V = OpResultModel;

    open spec fn view(&self) -> OpResultModel {
        match self {
            OpResult::Success(s) => OpResultModel::Success(s@),
            OpResult::Skipped(s) => OpResultModel::Skipped(s@),
            OpResult::Warning(s) => OpResultModel::Warning(s@),
            OpResult::Failed(s) => OpResultModel::Failed(s@),
        }
    }
}

/// A batch operation to perform across repositories.
#[derive(Debug, Clone, Copy, PartialEq, Eq, Structural)]
pub enum BatchOp {
    /// `git fetch` in each repository.
    Fetch,
    /// `git fetch` followed by `git merge --ff-only`.
    Update,
    /// Branch, modified file count and ahead/behind counts.
    Status,
}

/// The word shown while an operation runs on a repository.
pub open spec fn progress_label_of(op: BatchOp) -> Seq<char> {
    match op {
        BatchOp::Fetch => "fetching"@,
        BatchOp::Update => "updating"@,
        BatchOp::Status => "checking"@,
    }
}

/// The mark shown before a finished repository.
pub open spec fn icon_of(r: OpResultModel) -> Seq<char> {
    match r {
        OpResultModel::Success(_) => "✓ "@,
        OpResultModel::Skipped(_) => "· "@,
        OpResultModel::Warning(_) => "! "@,
        OpResultModel::Failed(_) => "✗ "@,
    }
}

impl BatchOp {
    /// The word shown while this operation runs on a repository.
    pub fn progress_label(&self) -> (s: &'static str)
        ensures
            s@ == progress_label_of(*self),
    {
        match self {
            BatchOp::Fetch => "fetching",
            BatchOp::Update => "updating",
            BatchOp::Status => "checking",
        }
    }
}

impl OpResult {
    /// The mark shown before a repository with this outcome.
    pub fn icon(&self) -> (s: &'static str)
        ensures
            s@ == icon_of(self@),
    {
        match self {
            OpResult::Success(_) => "✓ ",
            OpResult::Skipped(_) => "· ",
            OpResult::Warning(_) => "! ",
            OpResult::Failed(_) => "✗ ",
        }
    }

    /// The detail text of this outcome.
    pub fn detail(&self) -> (s: &str)
        ensures
            s@ == detail_of(self@),
    {
        match self {
            OpResult::Success(s) => s.as_str(),
            OpResult::Skipped(s) => s.as_str(),
            OpResult::Warning(s) => s.as_str(),
            OpResult::Failed(s) => s.as_str(),
        }
    }
}

/// The detail text of an outcome.
pub open spec fn detail_of(r: OpResultModel) -> Seq<char> {
    match r {
        OpResultModel::Success(s) => s,
        OpResultModel::Skipped(s) => s,
        OpResultModel::Warning(s) => s,
        OpResultModel::Failed(s) => s,
    }
}

// ---------------------------------------------------------------------------
// Status.

/// The status summary of a repository: the branch (`HEAD` when unknown), then
/// `N modified`, `↑N` and `↓N` for the counts that are not zero, separated
/// by ` · `.
pub open spec fn status_summary(branch: Option<Seq<char>>, dirty: nat, ahead: nat, behind: nat) -> Seq<char> {
    let b = match branch {
        Some(b) => b,
        None => "HEAD"@,
    };
    let d = if dirty > 0 {
        " · "@ + output::decimal(dirty) + " modified"@
    } else {
        Seq::empty()
    };
    let a = if ahead > 0 {
        " · "@ + "↑"@ + output::decimal(ahead)
    } else {
        Seq::empty()
    };
    let h = if behind > 0 {
        " · "@ + "↓"@ + output::decimal(behind)
    } else {
        Seq::empty()
    };
    b + d + a + h
}

/// The status outcome: needs attention when files are modified or commits
/// are unpushed, behind (a success: it can be fast-forwarded) when only
/// behind the upstream, clean otherwise.
pub open spec fn status_outcome_of(branch: Option<Seq<char>>, dirty: nat, ahead: nat, behind: nat) -> OpResultModel {
    let s = status_summary(branch, dirty, ahead, behind);
    if dirty > 0 || ahead > 0 {
        OpResultModel::Warning(s)
    } else if behind > 0 {
        OpResultModel::Success(s)
    } else {
        OpResultModel::Skipped(s)
    }
}

/// What a status check reports: a repository with modified files or
/// unpushed commits needs attention, whatever it is behind; one that is only
/// behind its upstream is a success (it can be fast-forwarded); one with
/// nothing modified, ahead or behind is clean; a status check never fails.
/// The summary starts with the branch, or `HEAD` when the branch is unknown.
pub proof fn lemma_status_categories(branch: Option<Seq<char>>, dirty: nat, ahead: nat, behind: nat)
    ensures
        dirty > 0 || ahead > 0 ==> status_outcome_of(branch, dirty, ahead, behind) is Warning,
        status_outcome_of(branch, dirty, ahead, behind) is Success <==> (behind > 0 && dirty == 0 && ahead == 0),
        status_outcome_of(branch, dirty, ahead, behind) is Skipped <==> (dirty == 0 && ahead == 0 && behind == 0),
        !(status_outcome_of(branch, dirty, ahead, behind) is Failed),
        text::is_prefix(
            match branch {
                Some(b) => b,
                None => "HEAD"@,
            },
            detail_of(status_outcome_of(branch, dirty, ahead, behind)),
        ),
        dirty > 0 ==> text::is_infix(
            " · "@ + output::decimal(dirty) + " modified"@,
            detail_of(status_outcome_of(branch, dirty, ahead, behind)),
        ),
        ahead > 0 ==> text::is_infix(
            " · ↑"@ + output::decimal(ahead),
            detail_of(status_outcome_of(branch, dirty, ahead, behind)),
        ),
        behind > 0 ==> text::is_infix(
            " · ↓"@ + output::decimal(behind),
            detail_of(status_outcome_of(branch, dirty, ahead, behind)),
        ),
        dirty == 0 && ahead == 0 && behind == 0 ==> detail_of(status_outcome_of(branch, dirty, ahead, behind))
            == match branch {
            Some(b) => b,
            None => "HEAD"@,
        },
{
    let b = match branch {
        Some(b) => b,
        None => "HEAD"@,
    };
    let sm = status_summary(branch, dirty, ahead, behind);
    let d = if dirty > 0 {
        " · "@ + output::decimal(dirty) + " modified"@
    } else {
        Seq::empty()
    };
    let a = if ahead > 0 {
        " · "@ + "↑"@ + output::decimal(ahead)
    } else {
        Seq::empty()
    };
    let h = if behind > 0 {
        " · "@ + "↓"@ + output::decimal(behind)
    } else {
        Seq::empty()
    };
    assert(sm == b + (d + a + h)) by {
        assert(b + d + a + h =~= b + (d + a + h));
    }
    assert((b + (d + a + h)).take(b.len() as int) =~= b);
    reveal_strlit(" · ");
    reveal_strlit("↑");
    reveal_strlit("↓");
    reveal_strlit(" · ↑");
    reveal_strlit(" · ↓");
    if dirty > 0 {
        let i = b.len() as int;
        assert(sm.subrange(i, i + d.len()) =~= d);
    }
    if ahead > 0 {
        let i = (b.len() + d.len()) as int;
        assert(" · ↑"@ =~= " · "@ + "↑"@);
        assert(sm.subrange(i, i + a.len()) =~= a);
    }
    if behind > 0 {
        let i = (b.len() + d.len() + a.len()) as int;
        assert(" · ↓"@ =~= " · "@ + "↓"@);
        assert(sm.subrange(i, i + h.len()) =~= h);
    }
    if dirty == 0 && ahead == 0 && behind == 0 {
        assert(sm =~= b);
    }
}

/// The status of a repository on `branch` (if known) with `dirty` modified
/// files, `ahead` unpushed and `behind` unpulled commits.
pub fn status_outcome(branch: Option<&str>, dirty: usize, ahead: usize, behind: usize) -> (r: OpResult)
    ensures
        r@ == status_outcome_of(
            match branch { Some(b) => Some(b@), None => None },
            dirty as nat,
            ahead as nat,
            behind as nat,
        ),
        dirty > 0 || ahead > 0 ==> r is Warning,
        r is Success <==> (behind > 0 && dirty == 0 && ahead == 0),
        r is Skipped <==> (dirty == 0 && ahead == 0 && behind == 0),
        !(r is Failed),
        text::is_prefix(
            match branch {
                Some(b) => b@,
                None => "HEAD"@,
            },
            detail_of(r@),
        ),
        dirty > 0 ==> text::is_infix(" · "@ + output::decimal(dirty as nat) + " modified"@, detail_of(r@)),
        ahead > 0 ==> text::is_infix(" · ↑"@ + output::decimal(ahead as nat), detail_of(r@)),
        behind > 0 ==> text::is_infix(" · ↓"@ + output::decimal(behind as nat), detail_of(r@)),
        dirty == 0 && ahead == 0 && behind == 0 ==> detail_of(r@) == match branch {
            Some(b) => b@,
            None => "HEAD"@,
        },
{
    proof {
        lemma_status_categories(match branch { Some(b) => Some(b@), None => None }, dirty as nat, ahead as nat, behind as nat);
    }
    let ghost bv = match branch { Some(b) => Some(b@), None => None };
    let mut s = match branch {
        Some(b) => owned(b),
        None => owned("HEAD"),
    };
    let ghost s0 = s@;
    if dirty > 0 {
        s.append(" · ");
        s.append(decimal_string(dirty).as_str());
        s.append(" modified");
    }
    let ghost s1 = s@;
    assert(s1 =~= s0 + (if dirty > 0 { " · "@ + output::decimal(dirty as nat) + " modified"@ } else { Seq::empty() }));
    if ahead > 0 {
        s.append(" · ");
        s.append("↑");
        s.append(decimal_string(ahead).as_str());
    }
    let ghost s2 = s@;
    assert(s2 =~= s1 + (if ahead > 0 { " · "@ + "↑"@ + output::decimal(ahead as nat) } else { Seq::empty() }));
    if behind > 0 {
        s.append(" · ");
        s.append("↓");
        s.append(decimal_string(behind).as_str());
    }
    assert(s@ =~= s2 + (if behind > 0 { " · "@ + "↓"@ + output::decimal(behind as nat) } else { Seq::empty() }));
    assert(s@ == status_summary(bv, dirty as nat, ahead as nat, behind as nat));
    if dirty > 0 || ahead > 0 {
        OpResult::Warning(s)
    } else if behind > 0 {
        OpResult::Success(s)
    } else {
        OpResult::Skipped(s)
    }
}

// ---------------------------------------------------------------------------
// Fetch and update: the order in which git is consulted, and the outcome.

/// How a git command ended.
#[derive(Debug)]
pub enum CommandOutcome {
    /// It ran and exited successfully.
    Succeeded,
    /// It ran and exited with a failure status.
    Failed,
    /// It could not be launched; the message says why.
    LaunchError(String),
}

/// The contents of a [`CommandOutcome`].
pub enum CommandOutcomeModel {
    Succeeded,
    Failed,
    LaunchError(Seq<char>),
}

impl View for CommandOutcome {
    type V = CommandOutcomeModel;

    open spec fn view(&self) -> CommandOutcomeModel {
        match self {
            CommandOutcome::Succeeded => CommandOutcomeModel::Succeeded,
            CommandOutcome::Failed => CommandOutcomeModel::Failed,
            CommandOutcome::LaunchError(m) => CommandOutcomeModel::LaunchError(m@),
        }
    }
}

/// A question put to git in a repository.
#[derive(Debug, Clone, Copy, PartialEq, Eq, Structural)]
pub enum GitQuery {
    /// Does `git status --porcelain` print anything?
    IsDirty,
    /// `git rev-parse HEAD`.
    HeadRev,
    /// `git rev-parse @{u}`.
    UpstreamRev,
    /// `git rev-parse FETCH_HEAD`.
    FetchHeadRev,
    /// `git fetch`.
    Fetch,
    /// `git rev-parse --abbrev-ref --symbolic-full-name @{u}`.
    CheckUpstream,
    /// `git merge --ff-only`.
    MergeFastForward,
}

/// What git answered.
#[derive(Debug)]
pub enum Reply {
    /// The answer to [`GitQuery::IsDirty`].
    Dirty(bool),
    /// The answer to a revision query: the revision, if the query succeeded.
    Rev(Option<String>),
    /// How a command ended.
    Ran(CommandOutcome),
}

/// The contents of a [`Reply`].
pub enum ReplyModel {
    Dirty(bool),
    Rev(Option<Seq<char>>),
    Ran(CommandOutcomeModel),
}

/// The view of an optional string.
pub open spec fn opt_view(o: Option<String>) -> Option<Seq<char>> {
    match o {
        Some(s) => Some(s@),
        None => None,
    }
}

impl View for Reply {
    type V = ReplyModel;

    open spec fn view(&self) -> ReplyModel {
        match self {
            Reply::Dirty(b) => ReplyModel::Dirty(*b),
            Reply::Rev(r) => ReplyModel::Rev(opt_view(*r)),
            Reply::Ran(o) => ReplyModel::Ran(o@),
        }
    }
}

/// What to do next.
#[derive(Debug)]
pub enum Step {
    /// Ask git this and hand back the reply.
    Run(GitQuery),
    /// The repository is done, with this outcome.
    Finish(OpResult),
}

/// The contents of a [`Step`].
pub enum StepModel {
    Run(GitQuery),
    Finish(OpResultModel),
}

impl View for Step {
    type V = StepModel;

    open spec fn view(&self) -> StepModel {
        match self {
            Step::Run(q) => StepModel::Run(*q),
            Step::Finish(r) => StepModel::Finish(r@),
        }
    }
}

/// Where a fetch or update of one repository stands. `before` is the
/// revision read before fetching.
#[derive(Debug)]
pub enum SyncState {
    /// Fetch: reading the upstream revision before fetching.
    FetchBefore,
    /// Fetch: no upstream; reading `FETCH_HEAD` before fetching.
    FetchBeforeFallback,
    /// Fetch: fetching.
    Fetching { before: Option<String> },
    /// Fetch: reading the upstream revision after fetching.
    FetchAfter { before: Option<String> },
    /// Fetch: no upstream; reading `FETCH_HEAD` after fetching.
    FetchAfterFallback { before: Option<String> },
    /// Update: checking for uncommitted changes.
    UpdateStart,
    /// Update: reading `HEAD` before fetching.
    UpdateBefore,
    /// Update: fetching.
    UpdateFetching { before: Option<String> },
    /// Update: checking that an upstream is configured.
    UpdateUpstream { before: Option<String> },
    /// Update: fast-forwarding.
    UpdateMerging { before: Option<String> },
    /// Update: reading `HEAD` after fast-forwarding.
    UpdateAfter { before: Option<String> },
    /// Finished.
    Done,
}

/// The contents of a [`SyncState`].
pub enum SyncModel {
    FetchBefore,
    FetchBeforeFallback,
    Fetching { before: Option<Seq<char>> },
    FetchAfter { before: Option<Seq<char>> },
    FetchAfterFallback { before: Option<Seq<char>> },
    UpdateStart,
    UpdateBefore,
    UpdateFetching { before: Option<Seq<char>> },
    UpdateUpstream { before: Option<Seq<char>> },
    UpdateMerging { before: Option<Seq<char>> },
    UpdateAfter { before: Option<Seq<char>> },
    Done,
}

impl View for SyncState {
    type V = SyncModel;

    open spec fn view(&self) -> SyncModel {
        match self {
            SyncState::FetchBefore => SyncModel::FetchBefore,
            SyncState::FetchBeforeFallback => SyncModel::FetchBeforeFallback,
            SyncState::Fetching { before } => SyncModel::Fetching { before: opt_view(*before) },
            SyncState::FetchAfter { before } => SyncModel::FetchAfter { before: opt_view(*before) },
            SyncState::FetchAfterFallback { before } => SyncModel::FetchAfterFallback { before: opt_view(*before) },
            SyncState::UpdateStart => SyncModel::UpdateStart,
            SyncState::UpdateBefore => SyncModel::UpdateBefore,
            SyncState::UpdateFetching { before } => SyncModel::UpdateFetching { before: opt_view(*before) },
            SyncState::UpdateUpstream { before } => SyncModel::UpdateUpstream { before: opt_view(*before) },
            SyncState::UpdateMerging { before } => SyncModel::UpdateMerging { before: opt_view(*before) },
            SyncState::UpdateAfter { before } => SyncModel::UpdateAfter { before: opt_view(*before) },
            SyncState::Done => SyncModel::Done,
        }
    }
}

/// The reply that `s` waits for is of the kind of `r`.
pub open spec fn expects(s: SyncModel, r: ReplyModel) -> bool {
    match s {
        SyncModel::UpdateStart => r is Dirty,
        SyncModel::Fetching { .. } | SyncModel::UpdateFetching { .. } | SyncModel::UpdateUpstream { .. }
        | SyncModel::UpdateMerging { .. } => r is Ran,
        SyncModel::Done => false,
        _ => r is Rev,
    }
}

/// `r` is a reply of the kind that query `q` gets.
pub open spec fn answers(q: GitQuery, r: ReplyModel) -> bool {
    match q {
        GitQuery::IsDirty => r is Dirty,
        GitQuery::HeadRev | GitQuery::UpstreamRev | GitQuery::FetchHeadRev => r is Rev,
        _ => r is Ran,
    }
}

/// The state waits for exactly the kind of reply that the step's query gets.
pub open spec fn step_fits(s: SyncModel, step: StepModel) -> bool {
    step matches StepModel::Run(q) ==> forall|r: ReplyModel| #[trigger] answers(q, r) ==> expects(s, r)
}

/// How a fetch ends: the fetch's failure, or whether the revision moved.
pub open spec fn after_fetch_command(o: CommandOutcomeModel) -> Option<OpResultModel> {
    match o {
        CommandOutcomeModel::Failed => Some(OpResultModel::Failed("fetch failed"@)),
        CommandOutcomeModel::LaunchError(e) => Some(OpResultModel::Failed("git error: "@ + e)),
        CommandOutcomeModel::Succeeded => None,
    }
}

/// The outcome of comparing the revision before and after, with `moved`
/// describing a change.
pub open spec fn compare_revs(before: Option<Seq<char>>, after: Option<Seq<char>>, moved: Seq<char>) -> OpResultModel {
    if before == after {
        OpResultModel::Skipped("up to date"@)
    } else {
        OpResultModel::Success(moved)
    }
}

/// The next state and step after reply `r` in state `s`.
///
/// Fetch reads the upstream revision (falling back to `FETCH_HEAD`), fetches,
/// reads it again, and reports `fetched` when it moved. Update skips a
/// repository with uncommitted changes, reads `HEAD`, fetches, skips a
/// repository without upstream, fast-forwards (a diverged branch needs
/// attention), and reports `fast-forwarded` when `HEAD` moved.
pub open spec fn next(s: SyncModel, r: ReplyModel) -> (SyncModel, StepModel) {
    let done = |res: OpResultModel| (SyncModel::Done, StepModel::Finish(res));
    match (s, r) {
        (SyncModel::FetchBefore, ReplyModel::Rev(Some(v))) => (
            SyncModel::Fetching { before: Some(v) },
            StepModel::Run(GitQuery::Fetch),
        ),
        (SyncModel::FetchBefore, ReplyModel::Rev(None)) => (
            SyncModel::FetchBeforeFallback,
            StepModel::Run(GitQuery::FetchHeadRev),
        ),
        (SyncModel::FetchBeforeFallback, ReplyModel::Rev(v)) => (
            SyncModel::Fetching { before: v },
            StepModel::Run(GitQuery::Fetch),
        ),
        (SyncModel::Fetching { before }, ReplyModel::Ran(o)) => match after_fetch_command(o) {
            Some(res) => done(res),
            None => (SyncModel::FetchAfter { before }, StepModel::Run(GitQuery::UpstreamRev)),
        },
        (SyncModel::FetchAfter { before }, ReplyModel::Rev(Some(v))) => done(
            compare_revs(before, Some(v), "fetched"@),
        ),
        (SyncModel::FetchAfter { before }, ReplyModel::Rev(None)) => (
            SyncModel::FetchAfterFallback { before },
            StepModel::Run(GitQuery::FetchHeadRev),
        ),
        (SyncModel::FetchAfterFallback { before }, ReplyModel::Rev(v)) => done(compare_revs(before, v, "fetched"@)),
        (SyncModel::UpdateStart, ReplyModel::Dirty(true)) => done(
            OpResultModel::Warning("dirty working tree, skipped"@),
        ),
        (SyncModel::UpdateStart, ReplyModel::Dirty(false)) => (SyncModel::UpdateBefore, StepModel::Run(GitQuery::HeadRev)),
        (SyncModel::UpdateBefore, ReplyModel::Rev(v)) => (
            SyncModel::UpdateFetching { before: v },
            StepModel::Run(GitQuery::Fetch),
        ),
        (SyncModel::UpdateFetching { before }, ReplyModel::Ran(o)) => match after_fetch_command(o) {
            Some(res) => done(res),
            None => (SyncModel::UpdateUpstream { before }, StepModel::Run(GitQuery::CheckUpstream)),
        },
        (SyncModel::UpdateUpstream { before }, ReplyModel::Ran(o)) => match o {
            CommandOutcomeModel::Failed => done(OpResultModel::Skipped("no upstream"@)),
            CommandOutcomeModel::LaunchError(_) => done(OpResultModel::Failed("failed to check upstream"@)),
            CommandOutcomeModel::Succeeded => (
                SyncModel::UpdateMerging { before },
                StepModel::Run(GitQuery::MergeFastForward),
            ),
        },
        (SyncModel::UpdateMerging { before }, ReplyModel::Ran(o)) => match o {
            CommandOutcomeModel::Succeeded => (SyncModel::UpdateAfter { before }, StepModel::Run(GitQuery::HeadRev)),
            CommandOutcomeModel::Failed => done(OpResultModel::Warning("diverged, merge manually"@)),
            CommandOutcomeModel::LaunchError(e) => done(OpResultModel::Failed("merge failed: "@ + e)),
        },
        (SyncModel::UpdateAfter { before }, ReplyModel::Rev(v)) => done(compare_revs(before, v, "fast-forwarded"@)),
        _ => done(OpResultModel::Failed("unexpected reply"@)),
    }
}

fn finish(s: &str, kind: u8) -> (r: (SyncState, Step))
    requires
        kind < 4,
    ensures
        r.0@ == SyncModel::Done,
        r.1@ == StepModel::Finish(
            if kind == 0 {
                OpResultModel::Success(s@)
            } else if kind == 1 {
                OpResultModel::Skipped(s@)
            } else if kind == 2 {
                OpResultModel::Warning(s@)
            } else {
                OpResultModel::Failed(s@)
            },
        ),
{
    let t = owned(s);
    let res = if kind == 0 {
        OpResult::Success(t)
    } else if kind == 1 {
        OpResult::Skipped(t)
    } else if kind == 2 {
        OpResult::Warning(t)
    } else {
        OpResult::Failed(t)
    };
    (SyncState::Done, Step::Finish(res))
}

fn failed_with(prefix: &str, e: &String) -> (r: (SyncState, Step))
    ensures
        r.0@ == SyncModel::Done,
        r.1@ == StepModel::Finish(OpResultModel::Failed(prefix@ + e@)),
{
    let mut t = owned(prefix);
    t.append(e.as_str());
    (SyncState::Done, Step::Finish(OpResult::Failed(t)))
}

fn same_rev(a: &Option<String>, b: &Option<String>) -> (r: bool)
    ensures
        r == (opt_view(*a) == opt_view(*b)),
{
    match (a, b) {
        (Some(x), Some(y)) => text::str_eq(x.as_str(), y.as_str()),
        (None, None) => true,
        _ => false,
    }
}

fn compare_step(before: &Option<String>, after: &Option<String>, moved: &str) -> (r: (SyncState, Step))
    ensures
        r.0@ == SyncModel::Done,
        r.1@ == StepModel::Finish(compare_revs(opt_view(*before), opt_view(*after), moved@)),
{
    if same_rev(before, after) {
        finish("up to date", 1)
    } else {
        finish(moved, 0)
    }
}

impl SyncState {
    /// The first state and step of a fetch: read the upstream revision.
    pub fn start_fetch() -> (r: (SyncState, Step))
        ensures
            r.0@ == SyncModel::FetchBefore,
            r.1@ == StepModel::Run(GitQuery::UpstreamRev),
            step_fits(r.0@, r.1@),
    {
        (SyncState::FetchBefore, Step::Run(GitQuery::UpstreamRev))
    }

    /// The first state and step of an update: check for uncommitted changes.
    pub fn start_update() -> (r: (SyncState, Step))
        ensures
            r.0@ == SyncModel::UpdateStart,
            r.1@ == StepModel::Run(GitQuery::IsDirty),
            step_fits(r.0@, r.1@),
    {
        (SyncState::UpdateStart, Step::Run(GitQuery::IsDirty))
    }

    /// The next state and step after `reply` (see [`next`]). A reply of a
    /// kind the state does not wait for (see [`expects`]), or any reply once
    /// done, finishes the repository as failed with `unexpected reply`.
    pub fn advance(self, reply: Reply) -> (r: (SyncState, Step))
        ensures
            (r.0@, r.1@) == next(self@, reply@),
            step_fits(r.0@, r.1@),
            !expects(self@, reply@) ==> r.0@ == SyncModel::Done && r.1@ == StepModel::Finish(
                OpResultModel::Failed("unexpected reply"@),
            ),
            ({
            match (self@, reply@) {
                (SyncModel::FetchAfter { before }, ReplyModel::Rev(Some(v))) => r.1@ == StepModel::Finish(
                    if before == Some(v) {
                        OpResultModel::Skipped("up to date"@)
                    } else {
                        OpResultModel::Success("fetched"@)
                    },
                ),
                (SyncModel::FetchAfterFallback { before }, ReplyModel::Rev(v)) => r.1@ == StepModel::Finish(
                    if before == v {
                        OpResultModel::Skipped("up to date"@)
                    } else {
                        OpResultModel::Success("fetched"@)
                    },
                ),
                (SyncModel::UpdateAfter { before }, ReplyModel::Rev(v)) => r.1@ == StepModel::Finish(
                    if before == v {
                        OpResultModel::Skipped("up to date"@)
                    } else {
                        OpResultModel::Success("fast-forwarded"@)
                    },
                ),
                _ => true,
            }
        }),
    {
        proof {
            lemma_next_compares_revisions(self@, reply@);
        }
        match (self, reply) {
            (SyncState::FetchBefore, Reply::Rev(Some(v))) => (
                SyncState::Fetching { before: Some(v) },
                Step::Run(GitQuery::Fetch),
            ),
            (SyncState::FetchBefore, Reply::Rev(None)) => (SyncState::FetchBeforeFallback, Step::Run(GitQuery::FetchHeadRev)),
            (SyncState::FetchBeforeFallback, Reply::Rev(v)) => (
                SyncState::Fetching { before: v },
                Step::Run(GitQuery::Fetch),
            ),
            (SyncState::Fetching { before }, Reply::Ran(o)) => match o {
                CommandOutcome::Failed => finish("fetch failed", 3),
                CommandOutcome::LaunchError(e) => failed_with("git error: ", &e),
                CommandOutcome::Succeeded => (SyncState::FetchAfter { before }, Step::Run(GitQuery::UpstreamRev)),
            },
            (SyncState::FetchAfter { before }, Reply::Rev(Some(v))) => compare_step(&before, &Some(v), "fetched"),
            (SyncState::FetchAfter { before }, Reply::Rev(None)) => (
                SyncState::FetchAfterFallback { before },
                Step::Run(GitQuery::FetchHeadRev),
            ),
            (SyncState::FetchAfterFallback { before }, Reply::Rev(v)) => compare_step(&before, &v, "fetched"),
            (SyncState::UpdateStart, Reply::Dirty(true)) => finish("dirty working tree, skipped", 2),
            (SyncState::UpdateStart, Reply::Dirty(false)) => (SyncState::UpdateBefore, Step::Run(GitQuery::HeadRev)),
            (SyncState::UpdateBefore, Reply::Rev(v)) => (
                SyncState::UpdateFetching { before: v },
                Step::Run(GitQuery::Fetch),
            ),
            (SyncState::UpdateFetching { before }, Reply::Ran(o)) => match o {
                CommandOutcome::Failed => finish("fetch failed", 3),
                CommandOutcome::LaunchError(e) => failed_with("git error: ", &e),
                CommandOutcome::Succeeded => (
                    SyncState::UpdateUpstream { before },
                    Step::Run(GitQuery::CheckUpstream),
                ),
            },
            (SyncState::UpdateUpstream { before }, Reply::Ran(o)) => match o {
                CommandOutcome::Failed => finish("no upstream", 1),
                CommandOutcome::LaunchError(_) => finish("failed to check upstream", 3),
                CommandOutcome::Succeeded => (
                    SyncState::UpdateMerging { before },
                    Step::Run(GitQuery::MergeFastForward),
                ),
            },
            (SyncState::UpdateMerging { before }, Reply::Ran(o)) => match o {
                CommandOutcome::Succeeded => (SyncState::UpdateAfter { before }, Step::Run(GitQuery::HeadRev)),
                CommandOutcome::Failed => finish("diverged, merge manually", 2),
                CommandOutcome::LaunchError(e) => failed_with("merge failed: ", &e),
            },
            (SyncState::UpdateAfter { before }, Reply::Rev(v)) => compare_step(&before, &v, "fast-forwarded"),
            _ => finish("unexpected reply", 3),
        }
    }
}

/// The last step of a fetch or update compares the revision before with the
/// one after: equal means `up to date`, different means the repository moved.
pub proof fn lemma_next_compares_revisions(s: SyncModel, r: ReplyModel)
    ensures
        ({
            match (s, r) {
                (SyncModel::FetchAfter { before }, ReplyModel::Rev(Some(v))) => next(s, r).1 == StepModel::Finish(
                    if before == Some(v) {
                        OpResultModel::Skipped("up to date"@)
                    } else {
                        OpResultModel::Success("fetched"@)
                    },
                ),
                (SyncModel::FetchAfterFallback { before }, ReplyModel::Rev(v)) => next(s, r).1 == StepModel::Finish(
                    if before == v {
                        OpResultModel::Skipped("up to date"@)
                    } else {
                        OpResultModel::Success("fetched"@)
                    },
                ),
                (SyncModel::UpdateAfter { before }, ReplyModel::Rev(v)) => next(s, r).1 == StepModel::Finish(
                    if before == v {
                        OpResultModel::Skipped("up to date"@)
                    } else {
                        OpResultModel::Success("fast-forwarded"@)
                    },
                ),
                _ => true,
            }
        }),
{
}

/// The state and step of a fetch after `replies`.
pub open spec fn run_fetch(replies: Seq<ReplyModel>) -> (SyncModel, StepModel)
    decreases replies.len(),
{
    if replies.len() == 0 {
        (SyncModel::FetchBefore, StepModel::Run(GitQuery::UpstreamRev))
    } else {
        next(run_fetch(replies.drop_last()).0, replies.last())
    }
}

/// A fetch reports `fetched` exactly when the revision it compares changed:
/// with an upstream, the upstream revision read before and after `git fetch`;
/// without one, `FETCH_HEAD` before and after. When the two are equal it
/// reports `up to date`.
pub proof fn lemma_fetch_reports_change(
    a: Seq<char>,
    b: Seq<char>,
    x: Option<Seq<char>>,
    y: Option<Seq<char>>,
)
    ensures
        run_fetch(
            seq![
                ReplyModel::Rev(Some(a)),
                ReplyModel::Ran(CommandOutcomeModel::Succeeded),
                ReplyModel::Rev(Some(b)),
            ],
        ) == (SyncModel::Done, StepModel::Finish(
            if a == b {
                OpResultModel::Skipped("up to date"@)
            } else {
                OpResultModel::Success("fetched"@)
            },
        )),
        run_fetch(
            seq![
                ReplyModel::Rev(None),
                ReplyModel::Rev(x),
                ReplyModel::Ran(CommandOutcomeModel::Succeeded),
                ReplyModel::Rev(None),
                ReplyModel::Rev(y),
            ],
        ) == (SyncModel::Done, StepModel::Finish(
            if x == y {
                OpResultModel::Skipped("up to date"@)
            } else {
                OpResultModel::Success("fetched"@)
            },
        )),
        run_fetch(seq![ReplyModel::Rev(Some(a))]).1 == StepModel::Run(GitQuery::Fetch),
        run_fetch(seq![ReplyModel::Rev(Some(a)), ReplyModel::Ran(CommandOutcomeModel::Failed)]).1
            == StepModel::Finish(OpResultModel::Failed("fetch failed"@)),
{
    reveal_with_fuel(run_fetch, 6);
    let s1 = seq![ReplyModel::Rev(Some(a))];
    let s2 = s1.push(ReplyModel::Ran(CommandOutcomeModel::Succeeded));
    let s3 = s2.push(ReplyModel::Rev(Some(b)));
    assert(s1.drop_last() =~= Seq::<ReplyModel>::empty());
    assert(s2.drop_last() =~= s1);
    assert(s3.drop_last() =~= s2);
    assert(s3 =~= seq![
        ReplyModel::Rev(Some(a)),
        ReplyModel::Ran(CommandOutcomeModel::Succeeded),
        ReplyModel::Rev(Some(b)),
    ]);
    let f2 = s1.push(ReplyModel::Ran(CommandOutcomeModel::Failed));
    assert(f2.drop_last() =~= s1);
    assert(f2 =~= seq![ReplyModel::Rev(Some(a)), ReplyModel::Ran(CommandOutcomeModel::Failed)]);
    let t1 = seq![ReplyModel::Rev(None)];
    let t2 = t1.push(ReplyModel::Rev(x));
    let t3 = t2.push(ReplyModel::Ran(CommandOutcomeModel::Succeeded));
    let t4 = t3.push(ReplyModel::Rev(None));
    let t5 = t4.push(ReplyModel::Rev(y));
    assert(t1.drop_last() =~= Seq::<ReplyModel>::empty());
    assert(t2.drop_last() =~= t1);
    assert(t3.drop_last() =~= t2);
    assert(t4.drop_last() =~= t3);
    assert(t5.drop_last() =~= t4);
    assert(t5 =~= seq![
        ReplyModel::Rev(None),
        ReplyModel::Rev(x),
        ReplyModel::Ran(CommandOutcomeModel::Succeeded),
        ReplyModel::Rev(None),
        ReplyModel::Rev(y),
    ]);
}

/// An update reports `fast-forwarded` exactly when `HEAD` after the merge
/// differs from `HEAD` read before fetching, and `up to date` otherwise.
pub proof fn lemma_update_reports_change(x: Option<Seq<char>>, y: Option<Seq<char>>)
    ensures
        run_update(
            seq![
                ReplyModel::Dirty(false),
                ReplyModel::Rev(x),
                ReplyModel::Ran(CommandOutcomeModel::Succeeded),
                ReplyModel::Ran(CommandOutcomeModel::Succeeded),
                ReplyModel::Ran(CommandOutcomeModel::Succeeded),
                ReplyModel::Rev(y),
            ],
        ) == (SyncModel::Done, StepModel::Finish(
            if x == y {
                OpResultModel::Skipped("up to date"@)
            } else {
                OpResultModel::Success("fast-forwarded"@)
            },
        )),
{
    reveal_with_fuel(run_update, 7);
    let t1 = seq![ReplyModel::Dirty(false)];
    let t2 = t1.push(ReplyModel::Rev(x));
    let t3 = t2.push(ReplyModel::Ran(CommandOutcomeModel::Succeeded));
    let t4 = t3.push(ReplyModel::Ran(CommandOutcomeModel::Succeeded));
    let t5 = t4.push(ReplyModel::Ran(CommandOutcomeModel::Succeeded));
    let t6 = t5.push(ReplyModel::Rev(y));
    assert(t1.drop_last() =~= Seq::<ReplyModel>::empty());
    assert(t2.drop_last() =~= t1);
    assert(t3.drop_last() =~= t2);
    assert(t4.drop_last() =~= t3);
    assert(t5.drop_last() =~= t4);
    assert(t6.drop_last() =~= t5);
    assert(t6 =~= seq![
        ReplyModel::Dirty(false),
        ReplyModel::Rev(x),
        ReplyModel::Ran(CommandOutcomeModel::Succeeded),
        ReplyModel::Ran(CommandOutcomeModel::Succeeded),
        ReplyModel::Ran(CommandOutcomeModel::Succeeded),
        ReplyModel::Rev(y),
    ]);
}

/// The state and step of an update after `replies`.
pub open spec fn run_update(replies: Seq<ReplyModel>) -> (SyncModel, StepModel)
    decreases replies.len(),
{
    if replies.len() == 0 {
        (SyncModel::UpdateStart, StepModel::Run(GitQuery::IsDirty))
    } else {
        next(run_update(replies.drop_last()).0, replies.last())
    }
}

/// How far an update has got: the number of replies it has taken.
pub open spec fn update_stage(s: SyncModel) -> int {
    match s {
        SyncModel::UpdateStart => 0,
        SyncModel::UpdateBefore => 1,
        SyncModel::UpdateFetching { .. } => 2,
        SyncModel::UpdateUpstream { .. } => 3,
        SyncModel::UpdateMerging { .. } => 4,
        SyncModel::UpdateAfter { .. } => 5,
        _ => -1,
    }
}

proof fn lemma_update_progress(replies: Seq<ReplyModel>)
    ensures
        ({
            let s = run_update(replies).0;
            s !is Done ==> {
                &&& update_stage(s) == replies.len()
                &&& replies.len() >= 1 ==> replies[0] == ReplyModel::Dirty(false)
                &&& replies.len() >= 3 ==> replies[2] == ReplyModel::Ran(CommandOutcomeModel::Succeeded)
                &&& replies.len() >= 4 ==> replies[3] == ReplyModel::Ran(CommandOutcomeModel::Succeeded)
            }
        }),
        run_update(replies).1 == StepModel::Run(GitQuery::Fetch) ==> run_update(replies).0 is UpdateFetching,
        run_update(replies).1 == StepModel::Run(GitQuery::MergeFastForward) ==> run_update(replies).0 is UpdateMerging,
    decreases replies.len(),
{
    if replies.len() > 0 {
        let front = replies.drop_last();
        lemma_update_progress(front);
        assert forall|k: int| 0 <= k < front.len() implies front[k] == replies[k] by {}
    }
}

/// An update never fetches a repository with uncommitted changes, and
/// fast-forwards only a clean repository, after a successful fetch and with
/// an upstream configured: the merge is asked for exactly as the fourth
/// reply comes in, and only after `Dirty(false)`, a successful fetch and a
/// successful upstream check.
pub proof fn lemma_update_merges_only_clean_fetched(replies: Seq<ReplyModel>)
    ensures
        run_update(replies).1 == StepModel::Run(GitQuery::Fetch) ==> replies.len() == 2 && replies[0]
            == ReplyModel::Dirty(false),
        run_update(replies).1 == StepModel::Run(GitQuery::MergeFastForward) ==> {
            &&& replies.len() == 4
            &&& replies[0] == ReplyModel::Dirty(false)
            &&& replies[2] == ReplyModel::Ran(CommandOutcomeModel::Succeeded)
            &&& replies[3] == ReplyModel::Ran(CommandOutcomeModel::Succeeded)
        },
{
    lemma_update_progress(replies);
}

// ---------------------------------------------------------------------------
// Collecting the results.

/// The views of `(path, outcome)` pairs.
pub open spec fn result_views(v: Seq<(String, OpResult)>) -> Seq<(Seq<char>, OpResultModel)> {
    v.map_values(|p: (String, OpResult)| (p.0@, p.1@))
}

/// The pairs are in order of path.
pub open spec fn sorted_by_path(v: Seq<(Seq<char>, OpResultModel)>) -> bool {
    forall|i: int, j: int| 0 <= i < j < v.len() ==> text::str_le((#[trigger] v[i]).0, (#[trigger] v[j]).0)
}

/// The results in order of repository path (as they were collected from
/// workers that finish in any order).
pub fn sort_results(results: Vec<(String, OpResult)>) -> (r: Vec<(String, OpResult)>)
    ensures
        sorted_by_path(result_views(r@)),
        result_views(r@).to_multiset() == result_views(results@).to_multiset(),
{
    broadcast use vstd::seq_lib::group_to_multiset_ensures;

    let ghost all = result_views(results@);
    let mut rest = results;
    let mut r: Vec<(String, OpResult)> = Vec::new();
    let ghost consumed: Seq<(Seq<char>, OpResultModel)> = Seq::empty();
    assert(all =~= result_views(rest@) + consumed);
    while rest.len() > 0
        invariant
            all == result_views(rest@) + consumed,
            sorted_by_path(result_views(r@)),
            result_views(r@).to_multiset() == consumed.to_multiset(),
        decreases rest.len(),
    {
        let x = rest.pop().unwrap();
        let ghost xv = (x.0@, x.1@);
        let ghost old_r = result_views(r@);
        proof {
            vstd::seq_lib::lemma_seq_union_to_multiset_commutative(seq![xv], consumed);
            assert(seq![xv] + consumed =~= consumed.insert(0, xv));
            vstd::seq_lib::to_multiset_insert(consumed, 0, xv);
            consumed = seq![xv] + consumed;
        }
        let mut k: usize = r.len();
        while k > 0 && compare_str(r[k - 1].0.as_str(), x.0.as_str()) == Order::Greater
            invariant
                k <= r.len(),
                old_r == result_views(r@),
                xv == (x.0@, x.1@),
                forall|j: int| k <= j < old_r.len() ==> text::str_lt(xv.0, (#[trigger] old_r[j]).0),
            decreases k,
        {
            k = k - 1;
        }
        proof {
            if k > 0 {
                assert(old_r[k - 1].0 == r@[k - 1].0@);
                text::lemma_str_lt_total(old_r[k - 1].0, xv.0);
            }
            assert forall|i: int, j: int| 0 <= i < j < old_r.len() + 1 implies text::str_le(
                (#[trigger] old_r.insert(k as int, xv)[i]).0,
                (#[trigger] old_r.insert(k as int, xv)[j]).0,
            ) by {
                if i < k && j == k {
                    if i < k - 1 {
                        assert(text::str_le(old_r[i].0, old_r[k - 1].0));
                        text::lemma_str_le_transitive(old_r[i].0, old_r[k - 1].0, xv.0);
                    }
                } else if i == k {
                    assert(text::str_lt(xv.0, old_r[j - 1].0));
                } else if i < k && j > k {
                    assert(text::str_le(old_r[i].0, old_r[j - 1].0));
                } else if i > k {
                    assert(text::str_le(old_r[i - 1].0, old_r[j - 1].0));
                } else {
                    assert(text::str_le(old_r[i].0, old_r[j].0));
                }
            }
        }
        r.insert(k, x);
        assert(result_views(r@) =~= old_r.insert(k as int, xv));
        proof {
            vstd::seq_lib::to_multiset_insert(old_r, k as int, xv);
        }
        assert(all =~= result_views(rest@) + consumed);
    }
    assert(consumed =~= all);
    r
}

/// The colour class of a part of the summary line.
#[derive(Debug, Clone, Copy, PartialEq, Eq, Structural)]
pub enum Tone {
    /// Something changed (green).
    Good,
    /// Nothing changed (dimmed).
    Quiet,
    /// Needs manual attention (yellow).
    Attention,
    /// Failed (red).
    Bad,
}

/// One part of the summary line, such as `3 fetched`.
#[derive(Debug)]
pub struct SummaryPart {
    pub tone: Tone,
    pub text: String,
}

/// The position of an outcome's kind: success, skipped, warning, failed.
pub open spec fn kind_index(r: OpResultModel) -> int {
    match r {
        OpResultModel::Success(_) => 0,
        OpResultModel::Skipped(_) => 1,
        OpResultModel::Warning(_) => 2,
        OpResultModel::Failed(_) => 3,
    }
}

/// The number of outcomes of kind `k` among `rs`.
pub open spec fn count_kind(rs: Seq<(Seq<char>, OpResultModel)>, k: int) -> nat
    decreases rs.len(),
{
    if rs.len() == 0 {
        0
    } else {
        count_kind(rs.drop_last(), k) + if kind_index(rs.last().1) == k {
            1nat
        } else {
            0nat
        }
    }
}

/// Every result is counted under exactly one kind: the counts of the four
/// kinds add up to the number of results, and a kind's count is the number
/// of results of that variant.
pub proof fn lemma_counts_add_up(rs: Seq<(Seq<char>, OpResultModel)>)
    ensures
        count_kind(rs, 0) + count_kind(rs, 1) + count_kind(rs, 2) + count_kind(rs, 3) == rs.len(),
        count_kind(rs, 0) == rs.filter(|p: (Seq<char>, OpResultModel)| p.1 is Success).len(),
        count_kind(rs, 1) == rs.filter(|p: (Seq<char>, OpResultModel)| p.1 is Skipped).len(),
        count_kind(rs, 2) == rs.filter(|p: (Seq<char>, OpResultModel)| p.1 is Warning).len(),
        count_kind(rs, 3) == rs.filter(|p: (Seq<char>, OpResultModel)| p.1 is Failed).len(),
    decreases rs.len(),
{
    broadcast use vstd::seq::Seq::lemma_filter_push;

    if rs.len() == 0 {
        reveal(Seq::filter);
    } else {
        lemma_counts_add_up(rs.drop_last());
        assert(rs.drop_last().push(rs.last()) =~= rs);
    }
}

/// What each kind of outcome is called in the summary of `op`.
pub open spec fn kind_label(op: BatchOp, k: int) -> Seq<char> {
    if k == 0 {
        match op {
            BatchOp::Status => " behind upstream"@,
            BatchOp::Fetch => " fetched"@,
            BatchOp::Update => " updated"@,
        }
    } else if k == 1 {
        match op {
            BatchOp::Status => " clean"@,
            _ => " up to date"@,
        }
    } else if k == 2 {
        " need attention"@
    } else {
        " failed"@
    }
}

/// The tone of each kind of outcome.
pub open spec fn kind_tone(k: int) -> Tone {
    if k == 0 {
        Tone::Good
    } else if k == 1 {
        Tone::Quiet
    } else if k == 2 {
        Tone::Attention
    } else {
        Tone::Bad
    }
}

/// The summary parts for kinds `0..k`: for each kind with a non-zero count,
/// the count and what it is called, in the order success, skipped, warning,
/// failed.
pub open spec fn summary_of(op: BatchOp, rs: Seq<(Seq<char>, OpResultModel)>, k: int) -> Seq<(Tone, Seq<char>)>
    decreases k,
{
    if k <= 0 {
        Seq::empty()
    } else {
        let front = summary_of(op, rs, k - 1);
        let n = count_kind(rs, k - 1);
        if n > 0 {
            front.push((kind_tone(k - 1), output::decimal(n) + kind_label(op, k - 1)))
        } else {
            front
        }
    }
}

fn label(op: BatchOp, k: u8) -> (s: &'static str)
    requires
        k < 4,
    ensures
        s@ == kind_label(op, k as int),
{
    match (op, k) {
        (BatchOp::Status, 0) => " behind upstream",
        (BatchOp::Status, 1) => " clean",
        (BatchOp::Fetch, 0) => " fetched",
        (BatchOp::Update, 0) => " updated",
        (_, 1) => " up to date",
        (_, 2) => " need attention",
        _ => " failed",
    }
}

fn tone(k: u8) -> (t: Tone)
    ensures
        t == kind_tone(k as int),
{
    if k == 0 {
        Tone::Good
    } else if k == 1 {
        Tone::Quiet
    } else if k == 2 {
        Tone::Attention
    } else {
        Tone::Bad
    }
}

/// The parts of the summary line of `op` over `results`: for each kind of
/// outcome that occurred, how many and what that means for this operation.
pub fn summary_parts(op: BatchOp, results: &Vec<(String, OpResult)>) -> (r: Vec<SummaryPart>)
    ensures
        r@.map_values(|p: SummaryPart| (p.tone, p.text@)) == summary_of(op, result_views(results@), 4),
{
    let ghost rv = result_views(results@);
    let mut counts: [usize; 4] = [0, 0, 0, 0];
    let mut i: usize = 0;
    while i < results.len()
        invariant
            i <= results.len(),
            rv == result_views(results@),
            forall|k: int| 0 <= k < 4 ==> counts@[k] == count_kind(rv.take(i as int), k),
            forall|k: int| 0 <= k < 4 ==> counts@[k] <= i,
        decreases results.len() - i,
    {
        assert(rv.take(i + 1).drop_last() =~= rv.take(i as int));
        assert(rv.take(i + 1).last() == rv[i as int]);
        let idx: usize = match &results[i].1 {
            OpResult::Success(_) => 0,
            OpResult::Skipped(_) => 1,
            OpResult::Warning(_) => 2,
            OpResult::Failed(_) => 3,
        };
        counts[idx] = counts[idx] + 1;
        i = i + 1;
    }
    assert(rv.take(results.len() as int) =~= rv);
    let mut r: Vec<SummaryPart> = Vec::new();
    let mut k: u8 = 0;
    while k < 4
        invariant
            k <= 4,
            forall|j: int| 0 <= j < 4 ==> counts@[j] == count_kind(rv, j),
            r@.map_values(|p: SummaryPart| (p.tone, p.text@)) == summary_of(op, rv, k as int),
        decreases 4 - k,
    {
        let n = counts[k as usize];
        let ghost before = r@.map_values(|p: SummaryPart| (p.tone, p.text@));
        if n > 0 {
            let mut text = decimal_string(n);
            text.append(label(op, k));
            r.push(SummaryPart { tone: tone(k), text });
        }
        assert(r@.map_values(|p: SummaryPart| (p.tone, p.text@)) =~= summary_of(op, rv, k + 1));
        k = k + 1;
    }
    r
}

} // verus!
