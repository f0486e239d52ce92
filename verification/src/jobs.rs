//! The one export job that may run at a time: its start, its worker process, its cancellation and
//! its end.

use crate::text::same;
use vstd::prelude::*;

verus! {

/// The job that is running.
pub struct ActiveJob {
    /// The job's name.
    pub id: String,
    /// The worker process that runs for the job, while there is one.
    pub pid: Option<u32>,
    /// Whether the job is to stop.
    pub cancel_requested: bool,
}

/// What is known of a running job.
pub ghost struct JobView {
    pub id: Seq<char>,
    pub pid: Option<u32>,
    pub cancel_requested: bool,
}

/// The place for the one job that may run at a time.
pub struct ActiveJobState {
    /// The job that is running, if one is.
    pub active: Option<ActiveJob>,
}

impl View for ActiveJobState {
    type V = Option<JobView>;

    open spec fn view(&self) -> Option<JobView> {
        match self.active {
            Some(job) => Some(
                JobView { id: job.id@, pid: job.pid, cancel_requested: job.cancel_requested },
            ),
            None => None,
        }
    }
}

/// The state after a start: the new job, unless one was running.
pub open spec fn started(state: Option<JobView>, id: Seq<char>) -> Option<JobView> {
    match state {
        Some(_) => state,
        None => Some(JobView { id, pid: None, cancel_requested: false }),
    }
}

/// The state after the worker process of job `id` is noted. Another job's is not touched.
pub open spec fn with_pid(state: Option<JobView>, id: Seq<char>, pid: Option<u32>) -> Option<
    JobView,
> {
    match state {
        Some(job) => if job.id == id {
            Some(JobView { pid, ..job })
        } else {
            state
        },
        None => None,
    }
}

/// The state after a request to cancel.
pub open spec fn canceling(state: Option<JobView>) -> Option<JobView> {
    match state {
        Some(job) => Some(JobView { cancel_requested: true, ..job }),
        None => None,
    }
}

/// Whether job `id` has to stop: it was canceled, or it is not the running job.
pub open spec fn canceled(state: Option<JobView>, id: Seq<char>) -> bool {
    match state {
        Some(job) => if job.id == id {
            job.cancel_requested
        } else {
            true
        },
        None => true,
    }
}

/// The state after job `id` has ended.
pub open spec fn finished(state: Option<JobView>, id: Seq<char>) -> Option<JobView> {
    match state {
        Some(job) => if job.id == id {
            None
        } else {
            state
        },
        None => None,
    }
}

/// Whether the end of job `id` is the end of a canceled job.
pub open spec fn ended_by_cancel(state: Option<JobView>, id: Seq<char>) -> bool {
    match state {
        Some(job) => job.id == id && job.cancel_requested,
        None => false,
    }
}

/// Whether a character is a hexadecimal digit in small letters.
pub open spec fn is_hex(c: char) -> bool {
    '0' <= c <= '9' || 'a' <= c <= 'f'
}

/// Whether a text is a random identifier in the usual notation: 36 characters, of which those at
/// 8, 13, 18 and 23 are hyphens and the others hexadecimal digits, with version 4 at 14 and the
/// variant at 19.
pub open spec fn is_random_id(s: Seq<char>) -> bool {
    &&& s.len() == 36
    &&& forall|i: int|
        0 <= i < 36 ==> if i == 8 || i == 13 || i == 18 || i == 23 {
            #[trigger] s[i] == '-'
        } else {
            is_hex(s[i])
        }
    &&& s[14] == '4'
    &&& s[19] == '8' || s[19] == '9' || s[19] == 'a' || s[19] == 'b'
}

/// `uuid::Uuid::new_v4` and the notation that its `Display` gives: a fresh random identifier of
/// version 4, hyphenated and in small letters. Which one it is, is left to chance. Where the system
/// has no random bytes to give, the call panics.
#[verifier::external_body]
fn random_id() -> (id: String)
    ensures
        is_random_id(id@),
{
    uuid::Uuid::new_v4().to_string()
}

impl ActiveJobState {
    /// No job runs at first.
    pub fn new() -> (state: ActiveJobState)
        ensures
            state@ is None,
    {
        ActiveJobState { active: None }
    }

    /// Whether a job is running.
    pub fn is_busy(&self) -> (r: bool)
        ensures
            r == (self@ is Some),
    {
        self.active.is_some()
    }

    /// Makes `id` the running job. Fails where one is running already.
    pub fn start(&mut self, id: String) -> (r: Result<(), String>)
        ensures
            final(self)@ == started(old(self)@, id@),
            r is Ok <==> old(self)@ is None,
            r matches Err(e) ==> e@ == "Another export is already running."@,
    {
        if self.active.is_some() {
            return Err("Another export is already running.".to_string());
        }
        self.active = Some(ActiveJob { id, pid: None, cancel_requested: false });
        Ok(())
    }

    /// Starts a job under a fresh random identifier, and returns it.
    pub fn start_fresh(&mut self) -> (r: Result<String, String>)
        ensures
            r is Ok <==> old(self)@ is None,
            r matches Ok(id) ==> is_random_id(id@) && final(self)@ == started(old(self)@, id@),
            r matches Err(e) ==> e@ == "Another export is already running."@ && final(self)@
                == old(self)@,
    {
        let id = random_id();
        match self.start(id.clone()) {
            Ok(()) => Ok(id),
            Err(e) => Err(e),
        }
    }

    /// Notes the worker process of job `id`.
    pub fn set_pid(&mut self, id: &str, pid: u32)
        ensures
            final(self)@ == with_pid(old(self)@, id@, Some(pid)),
    {
        if let Some(job) = &mut self.active {
            if same(job.id.as_str(), id) {
                job.pid = Some(pid);
            }
        }
    }

    /// Notes that job `id` has no worker process.
    pub fn clear_pid(&mut self, id: &str)
        ensures
            final(self)@ == with_pid(old(self)@, id@, None),
    {
        if let Some(job) = &mut self.active {
            if same(job.id.as_str(), id) {
                job.pid = None;
            }
        }
    }

    /// Asks the running job to stop, and returns its worker process, if it has one.
    pub fn request_cancel(&mut self) -> (r: Result<Option<u32>, String>)
        ensures
            final(self)@ == canceling(old(self)@),
            match r {
                Ok(pid) => old(self)@ is Some && pid == old(self)@->0.pid,
                Err(e) => old(self)@ is None && e@ == "No active export to cancel."@,
            },
    {
        match &mut self.active {
            Some(job) => {
                job.cancel_requested = true;
                Ok(job.pid)
            },
            None => Err("No active export to cancel.".to_string()),
        }
    }

    /// Whether job `id` has to stop.
    pub fn is_canceled(&self, id: &str) -> (r: bool)
        ensures
            r == canceled(self@, id@),
    {
        match &self.active {
            Some(job) => if same(job.id.as_str(), id) {
                job.cancel_requested
            } else {
                true
            },
            None => true,
        }
    }

    /// Ends job `id`, and returns whether it was canceled.
    pub fn finish(&mut self, id: &str) -> (r: bool)
        ensures
            final(self)@ == finished(old(self)@, id@),
            r == ended_by_cancel(old(self)@, id@),
    {
        let canceled = match &self.active {
            Some(job) => {
                if !same(job.id.as_str(), id) {
                    return false;
                }
                job.cancel_requested
            },
            None => {
                return false;
            },
        };
        self.active = None;
        canceled
    }

    /// The name of the running job.
    pub fn active_job_id(&self) -> (r: Option<String>)
        ensures
            match r {
                Some(id) => self@ is Some && id@ == self@->0.id,
                None => self@ is None,
            },
    {
        match &self.active {
            Some(job) => Some(job.id.clone()),
            None => None,
        }
    }
}

impl Default for ActiveJobState {
    fn default() -> (state: ActiveJobState)
        ensures
            state@ is None,
    {
        ActiveJobState::new()
    }
}

// ---------------------------------------------------------------------------------------------
// What holds over several operations
// ---------------------------------------------------------------------------------------------

/// An operation on the running job other than its end.
pub ghost enum JobStep {
    Start { id: Seq<char> },
    NotePid { id: Seq<char>, pid: Option<u32> },
    Cancel,
}

/// The state after one operation.
pub open spec fn stepped(state: Option<JobView>, step: JobStep) -> Option<JobView> {
    match step {
        JobStep::Start { id } => started(state, id),
        JobStep::NotePid { id, pid } => with_pid(state, id, pid),
        JobStep::Cancel => canceling(state),
    }
}

/// The state after a row of operations.
pub open spec fn run(state: Option<JobView>, steps: Seq<JobStep>) -> Option<JobView>
    decreases steps.len(),
{
    if steps.len() == 0 {
        state
    } else {
        stepped(run(state, steps.drop_last()), steps.last())
    }
}

/// Whatever is started, noted or canceled while a job runs, it stays the running job until it
/// ends.
pub proof fn law_running_job_stays(state: Option<JobView>, steps: Seq<JobStep>)
    requires
        state is Some,
    ensures
        run(state, steps) is Some,
        run(state, steps)->0.id == state->0.id,
    decreases steps.len(),
{
    if steps.len() > 0 {
        law_running_job_stays(state, steps.drop_last());
    }
}

/// Once a job is asked to stop, it has to stop whatever happens afterwards, and its end is
/// reported as that of a canceled job.
pub proof fn law_cancel_lasts(state: Option<JobView>, steps: Seq<JobStep>)
    requires
        state is Some,
    ensures
        ({
            let later = run(canceling(state), steps);
            canceled(later, state->0.id) && ended_by_cancel(later, state->0.id)
        }),
    decreases steps.len(),
{
    if steps.len() > 0 {
        law_cancel_lasts(state, steps.drop_last());
        law_running_job_stays(canceling(state), steps.drop_last());
    }
}

/// A job that nobody asks to stop is not reported as canceled.
pub proof fn law_no_cancel_without_request(id: Seq<char>, steps: Seq<JobStep>)
    requires
        forall|i: int| 0 <= i < steps.len() ==> !((#[trigger] steps[i]) is Cancel),
    ensures
        ({
            let later = run(started(None, id), steps);
            !canceled(later, id) && !ended_by_cancel(later, id)
        }),
    decreases steps.len(),
{
    if steps.len() > 0 {
        assert forall|i: int| 0 <= i < steps.drop_last().len() implies !((
        #[trigger] steps.drop_last()[i]) is Cancel) by {
            assert(steps.drop_last()[i] == steps[i]);
        }
        law_no_cancel_without_request(id, steps.drop_last());
        law_running_job_stays(started(None, id), steps.drop_last());
        assert(!(steps[steps.len() - 1] is Cancel));
    }
}

/// The worker process that a running job is left with is the one that was noted for it last, whatever is
/// started, noted for other jobs or canceled afterwards.
pub proof fn law_last_noted_process_counts(
    state: Option<JobView>,
    pid: Option<u32>,
    steps: Seq<JobStep>,
)
    requires
        state is Some,
        forall|i: int|
            0 <= i < steps.len() ==> ((#[trigger] steps[i]) matches JobStep::NotePid { id, .. } ==> id
                != state->0.id),
    ensures
        ({
            let later = run(with_pid(state, state->0.id, pid), steps);
            later is Some && later->0.pid == pid && later->0.id == state->0.id
        }),
    decreases steps.len(),
{
    if steps.len() > 0 {
        let before = steps.drop_last();
        assert forall|i: int| 0 <= i < before.len() implies ((
        #[trigger] before[i]) matches JobStep::NotePid { id, .. } ==> id != state->0.id) by {
            assert(before[i] == steps[i]);
        }
        law_last_noted_process_counts(state, pid, before);
        assert(steps[steps.len() - 1] == steps.last());
    }
}

/// A job that starts has no worker process, is not asked to stop, and has the name that it was given.
pub proof fn law_fresh_job_is_blank(id: Seq<char>)
    ensures
        started(None, id) matches Some(job) && job.id == id && job.pid is None
            && !job.cancel_requested && !canceled(started(None, id), id),
{
}

/// After the end of the running job another can start, and the ended one counts as stopped.
pub proof fn law_end_makes_room(state: Option<JobView>, next: Seq<char>)
    requires
        state is Some,
    ensures
        finished(state, state->0.id) is None,
        canceled(finished(state, state->0.id), state->0.id),
        started(finished(state, state->0.id), next) == Some(
            JobView { id: next, pid: None, cancel_requested: false },
        ),
{
}

/// The end or the worker process of a job that is not the running one changes nothing.
pub proof fn law_other_jobs_are_ignored(state: Option<JobView>, id: Seq<char>, pid: Option<u32>)
    requires
        state is Some ==> state->0.id != id,
    ensures
        finished(state, id) == state,
        with_pid(state, id, pid) == state,
        !ended_by_cancel(state, id),
        canceled(state, id),
{
}

} // verus!
