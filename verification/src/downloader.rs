//! Download jobs, the plan that orders them, and the steps of a download.
//!
//! A download never writes to its destination. It writes to a temporary file
//! beside it and renames that file once the whole body is stored, so the
//! destination either does not exist or is complete. A destination that
//! exists is therefore never fetched again, which is what lets an interrupted
//! run be resumed by running the same plan once more.

use crate::error::MirrorError;
use crate::paths::{
    destination, is_temp_name, joined, lemma_temp_differs_from_destination,
    lemma_temp_is_marked, lemma_temp_is_of_one_destination, temp_of, temp_path,
};
use crate::schedule::{Progress, Scheduler};
use vstd::prelude::*;

verus! {

/// One resource to fetch.
#[derive(Debug, PartialEq, Eq)]
pub struct DownloadJob {
    /// Where the resource goes, relative to the output directory.
    pub rel_path: String,
    /// Where the archived capture is fetched from.
    pub url: String,
}

/// The mathematical content of a [`DownloadJob`].
pub struct JobView {
    pub rel_path: Seq<char>,
    pub url: Seq<char>,
}

impl View for DownloadJob {
    type V = JobView;

    open spec fn view(&self) -> JobView {
        JobView { rel_path: self.rel_path@, url: self.url@ }
    }
}

impl DeepView for DownloadJob {
    type V = JobView;

    open spec fn deep_view(&self) -> JobView {
        self@
    }
}

impl Clone for DownloadJob {
    fn clone(&self) -> (r: DownloadJob)
        ensures
            r@ == self@,
    {
        DownloadJob { rel_path: self.rel_path.clone(), url: self.url.clone() }
    }
}

impl DownloadJob {
    /// The file this job produces, under the output directory `out_dir`.
    pub fn destination(&self, out_dir: &str) -> (path: String)
        ensures
            path@ == joined(out_dir@, self@.rel_path),
    {
        destination(out_dir, self.rel_path.as_str())
    }

    /// The file this job writes to while the download lasts.
    pub fn temp_destination(&self, out_dir: &str) -> (path: String)
        ensures
            path@ == temp_of(joined(out_dir@, self@.rel_path)),
    {
        let dest = destination(out_dir, self.rel_path.as_str());
        temp_path(dest.as_str())
    }
}

/// The file that a job writes to is not its destination, and no job with
/// another destination writes to it: jobs that run at once do not touch each
/// other's files, and a download that is cut short leaves its destination
/// as it was. Nor is that file the destination of another job, unless that
/// job's own destination is named like a temporary file.
pub proof fn lemma_jobs_keep_apart(out_dir: Seq<char>, a: JobView, b: JobView)
    ensures
        temp_of(joined(out_dir, a.rel_path)) != joined(out_dir, a.rel_path),
        joined(out_dir, a.rel_path) != joined(out_dir, b.rel_path) ==> temp_of(
            joined(out_dir, a.rel_path),
        ) != temp_of(joined(out_dir, b.rel_path)),
        !is_temp_name(joined(out_dir, b.rel_path)) ==> temp_of(joined(out_dir, a.rel_path))
            != joined(out_dir, b.rel_path),
{
    lemma_temp_differs_from_destination(joined(out_dir, a.rel_path));
    lemma_temp_is_marked(joined(out_dir, a.rel_path));
    if joined(out_dir, a.rel_path) != joined(out_dir, b.rel_path) {
        lemma_temp_is_of_one_destination(joined(out_dir, a.rel_path), joined(out_dir, b.rel_path));
    }
}

/// Where a download stands. The first five steps are work for the caller;
/// the last three are ends.
#[derive(Debug, Clone, Copy, PartialEq, Eq, Structural)]
pub enum JobStep {
    /// Find out whether the destination exists.
    Probe,
    /// Request the capture.
    Fetch,
    /// Create the directories above the destination.
    Prepare,
    /// Store the whole body in the temporary file.
    Store,
    /// Rename the temporary file to the destination.
    Promote,
    /// The destination was there already: nothing was fetched.
    Skipped,
    /// The destination has been written.
    Downloaded,
    /// The download failed.
    Failed(MirrorError),
}

impl JobStep {
    /// Whether the download has ended.
    pub open spec fn is_final(self) -> bool {
        self is Skipped || self is Downloaded || self is Failed
    }

    /// Whether the step talks to the network.
    pub open spec fn uses_network(self) -> bool {
        self is Fetch || self is Store
    }

    /// Whether the step creates or changes the destination. The store step
    /// does not: it writes the temporary file, which is another file than
    /// the destination (see [`lemma_jobs_keep_apart`]).
    pub open spec fn writes_destination(self) -> bool {
        self is Promote
    }

    /// The step that follows `self` once the caller reports `outcome`.
    /// `Ok(present)` reports that the step was done; `present` is read at
    /// the probe only, where it tells whether the destination exists.
    pub open spec fn spec_next(self, outcome: Result<bool, MirrorError>) -> JobStep {
        if self.is_final() {
            self
        } else {
            match outcome {
                Err(e) => JobStep::Failed(e),
                Ok(present) => match self {
                    JobStep::Probe => if present {
                        JobStep::Skipped
                    } else {
                        JobStep::Fetch
                    },
                    JobStep::Fetch => JobStep::Prepare,
                    JobStep::Prepare => JobStep::Store,
                    JobStep::Store => JobStep::Promote,
                    _ => JobStep::Downloaded,
                },
            }
        }
    }

    /// Where a download stands after the outcomes `outcomes`, reported in
    /// turn, when it stood at `self` before.
    pub open spec fn after(self, outcomes: Seq<Result<bool, MirrorError>>) -> JobStep
        decreases outcomes.len(),
    {
        if outcomes.len() == 0 {
            self
        } else {
            self.after(outcomes.drop_last()).spec_next(outcomes.last())
        }
    }

    /// The step every download begins with.
    pub fn first() -> (step: JobStep)
        ensures
            step == JobStep::Probe,
    {
        JobStep::Probe
    }

    /// The step that follows once the caller reports `outcome`.
    #[verifier::when_used_as_spec(spec_next)]
    pub fn next(self, outcome: Result<bool, MirrorError>) -> (step: JobStep)
        ensures
            step == self.spec_next(outcome),
    {
        match self {
            JobStep::Skipped => self,
            JobStep::Downloaded => self,
            JobStep::Failed(_) => self,
            _ => match outcome {
                Err(e) => JobStep::Failed(e),
                Ok(present) => match self {
                    JobStep::Probe => if present {
                        JobStep::Skipped
                    } else {
                        JobStep::Fetch
                    },
                    JobStep::Fetch => JobStep::Prepare,
                    JobStep::Prepare => JobStep::Store,
                    JobStep::Store => JobStep::Promote,
                    _ => JobStep::Downloaded,
                },
            },
        }
    }

    /// Whether the job counts as completed: skipped jobs do.
    pub fn is_success(self) -> (b: bool)
        ensures
            b == (self is Skipped || self is Downloaded),
    {
        match self {
            JobStep::Skipped => true,
            JobStep::Downloaded => true,
            _ => false,
        }
    }
}

/// A download that has ended stays as it ended.
pub proof fn lemma_ends_are_final(step: JobStep, outcomes: Seq<Result<bool, MirrorError>>)
    requires
        step.is_final(),
    ensures
        step.after(outcomes) == step,
    decreases outcomes.len(),
{
    if outcomes.len() > 0 {
        lemma_ends_are_final(step, outcomes.drop_last());
    }
}

/// A destination that exists is not fetched again: whatever is reported
/// later, the download is skipped, counts as a success, and at no time
/// stands at a step that uses the network or writes the destination.
pub proof fn lemma_present_file_is_skipped(outcomes: Seq<Result<bool, MirrorError>>, k: int)
    requires
        0 < k <= outcomes.len(),
        outcomes[0] == Ok::<bool, MirrorError>(true),
    ensures
        JobStep::Probe.after(outcomes.take(k)) == JobStep::Skipped,
        !JobStep::Probe.after(outcomes.take(k)).uses_network(),
        !JobStep::Probe.after(outcomes.take(k)).writes_destination(),
    decreases k,
{
    let t = outcomes.take(k);
    assert(t.drop_last() =~= outcomes.take(k - 1));
    if k == 1 {
        assert(JobStep::Probe.after(outcomes.take(0)) == JobStep::Probe);
        assert(t.last() == outcomes[0]);
    } else {
        lemma_present_file_is_skipped(outcomes, k - 1);
    }
}

/// The destination is written by the rename alone, and the rename follows
/// only on a body stored in full: a step that writes the destination is
/// reached from the store step, on success, and from nowhere else.
pub proof fn lemma_promote_follows_store(step: JobStep, outcome: Result<bool, MirrorError>)
    requires
        step.spec_next(outcome).writes_destination(),
    ensures
        step == JobStep::Store,
        outcome is Ok,
{
}

/// A download that stands at the rename, or has ended as downloaded, has
/// done every step before in order and without failure: the destination was
/// absent, the request succeeded, the directories were made and the body was
/// stored. A download that was cut short earlier has not touched the
/// destination.
pub proof fn lemma_destination_written_last(outcomes: Seq<Result<bool, MirrorError>>)
    requires
        JobStep::Probe.after(outcomes) is Promote || JobStep::Probe.after(outcomes) is Downloaded,
    ensures
        outcomes.len() >= 4,
        outcomes[0] == Ok::<bool, MirrorError>(false),
        outcomes[1] is Ok,
        outcomes[2] is Ok,
        outcomes[3] is Ok,
        JobStep::Probe.after(outcomes.take(4)) == JobStep::Promote,
        forall|k: int|
            0 <= k < 4 ==> !(#[trigger] JobStep::Probe.after(outcomes.take(k))).writes_destination(),
{
    let p = JobStep::Probe;
    lemma_trace_shape(outcomes, outcomes.len() as int);
    assert(outcomes.take(outcomes.len() as int) =~= outcomes);
    assert forall|k: int| 0 <= k < 4 implies !(#[trigger] p.after(
        outcomes.take(k),
    )).writes_destination() by {
        lemma_trace_shape(outcomes, k);
    }
    lemma_trace_shape(outcomes, 4);
}

/// The step reached after `k` reports is the `k`-th of the chain as long as
/// no report was a failure or a present destination.
proof fn lemma_trace_shape(outcomes: Seq<Result<bool, MirrorError>>, k: int)
    requires
        0 <= k <= outcomes.len(),
    ensures
        ({
            let s = JobStep::Probe.after(outcomes.take(k));
            &&& k == 0 ==> s == JobStep::Probe
            &&& s == JobStep::Fetch ==> k == 1 && outcomes[0] == Ok::<bool, MirrorError>(false)
            &&& s == JobStep::Prepare ==> k == 2 && outcomes[0] == Ok::<bool, MirrorError>(false)
                && outcomes[1] is Ok
            &&& s == JobStep::Store ==> k == 3 && outcomes[0] == Ok::<bool, MirrorError>(false)
                && outcomes[1] is Ok && outcomes[2] is Ok
            &&& s == JobStep::Promote ==> k == 4 && outcomes[0] == Ok::<bool, MirrorError>(false)
                && outcomes[1] is Ok && outcomes[2] is Ok && outcomes[3] is Ok
            &&& s == JobStep::Downloaded ==> k >= 5 && outcomes[0] == Ok::<bool, MirrorError>(false)
                && outcomes[1] is Ok && outcomes[2] is Ok && outcomes[3] is Ok
                && JobStep::Probe.after(outcomes.take(4)) == JobStep::Promote
            &&& s == JobStep::Probe ==> k == 0
        }),
    decreases k,
{
    let t = outcomes.take(k);
    if k > 0 {
        assert(t.drop_last() =~= outcomes.take(k - 1));
        assert(t.last() == outcomes[k - 1]);
        lemma_trace_shape(outcomes, k - 1);
        if k > 4 {
            lemma_trace_shape(outcomes, 4);
        }
    }
}

/// An ordered list of jobs. A plan is a value: it is built once, may be
/// stored and read back, and is never altered.
#[derive(Debug, PartialEq, Eq)]
pub struct DownloadPlan {
    list: Vec<DownloadJob>,
}

impl View for DownloadPlan {
    type V = Seq<JobView>;

    closed spec fn view(&self) -> Seq<JobView> {
        self.list.deep_view()
    }
}

impl DownloadPlan {
    /// A plan of the given jobs, in the given order.
    pub fn new(jobs: Vec<DownloadJob>) -> (plan: DownloadPlan)
        ensures
            plan@ == jobs.deep_view(),
    {
        DownloadPlan { list: jobs }
    }

    /// The number of jobs.
    pub fn len(&self) -> (n: usize)
        ensures
            n == self@.len(),
    {
        self.list.len()
    }

    /// The jobs, in plan order.
    pub fn jobs(&self) -> (jobs: &Vec<DownloadJob>)
        ensures
            jobs.deep_view() == self@,
    {
        &self.list
    }

    /// Starts a run of the plan in which at most `concurrency` jobs are in
    /// flight at once. The scheduler numbers the jobs as the plan does.
    pub fn execute(&self, concurrency: usize) -> (run: Scheduler)
        ensures
            run@ == Progress::fresh(self@.len(), concurrency as nat),
            run@.wf(),
    {
        Scheduler::new(self.list.len(), concurrency)
    }

    /// The job at position `i`, if the plan is that long.
    pub fn job(&self, i: usize) -> (job: Option<&DownloadJob>)
        ensures
            match job {
                Some(j) => i < self@.len() && j@ == self@[i as int],
                None => i >= self@.len(),
            },
    {
        if i < self.list.len() {
            Some(&self.list[i])
        } else {
            None
        }
    }
}

} // verus!
