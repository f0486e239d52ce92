//! The course of a batch: one video after the other, what is reported on the way, and how it ends.

use crate::double::Real;
use crate::text::{
    all_digits, cat2, cat3, cat5, decimal, digits_value, lemma_decimal_digits, lemma_decimal_value,
    number,
};
use vstd::prelude::*;

verus! {

/// What is reported while a batch runs.
pub enum WorkerEvent {
    /// Something that was said about a video.
    Log { path: String, message: String },
    /// A video is begun.
    VideoStart { path: String, message: String },
    /// How far a video is, in percent.
    VideoProgress { path: String, percent: Real },
    /// A video is done.
    VideoDone { path: String, output: String, speed: Real, message: String },
    /// A video could not be exported.
    VideoError { path: String, message: String },
    /// The batch was canceled.
    Canceled { message: String },
    /// The batch is done.
    Done { message: String },
}

impl WorkerEvent {
    /// The name of what is reported.
    pub open spec fn kind_name(self) -> Seq<char> {
        match self {
            WorkerEvent::Log { .. } => "log"@,
            WorkerEvent::VideoStart { .. } => "video_start"@,
            WorkerEvent::VideoProgress { .. } => "video_progress"@,
            WorkerEvent::VideoDone { .. } => "video_done"@,
            WorkerEvent::VideoError { .. } => "video_error"@,
            WorkerEvent::Canceled { .. } => "canceled"@,
            WorkerEvent::Done { .. } => "done"@,
        }
    }

    /// The name of what is reported.
    pub fn kind(&self) -> (r: &'static str)
        ensures
            r@ == self.kind_name(),
    {
        match self {
            WorkerEvent::Log { .. } => "log",
            WorkerEvent::VideoStart { .. } => "video_start",
            WorkerEvent::VideoProgress { .. } => "video_progress",
            WorkerEvent::VideoDone { .. } => "video_done",
            WorkerEvent::VideoError { .. } => "video_error",
            WorkerEvent::Canceled { .. } => "canceled",
            WorkerEvent::Done { .. } => "done",
        }
    }
}

/// What is said as a video of a batch is begun.
pub open spec fn start_message(index: nat, total: nat) -> Seq<char> {
    "Exporting "@ + decimal(index + 1) + " of "@ + decimal(total)
}

/// What is said at the end of a batch that is not canceled.
pub open spec fn end_message(saved: nat, failed: nat) -> Seq<char> {
    "Finished. Saved "@ + decimal(saved) + ", failed "@ + decimal(failed) + "."@
}

/// The numbers in what is said are the number of the video, counted from one, and that of the videos; at
/// the end, those of the videos that were exported and that failed.
pub proof fn law_messages_hold_counts(a: nat, b: nat)
    ensures
        exists|x: Seq<char>, y: Seq<char>|
            #![trigger all_digits(x), all_digits(y)]
            all_digits(x) && all_digits(y) && digits_value(x) == a + 1 && digits_value(y) == b
                && start_message(a, b) == "Exporting "@ + x + " of "@ + y,
        exists|x: Seq<char>, y: Seq<char>|
            #![trigger all_digits(x), all_digits(y)]
            all_digits(x) && all_digits(y) && digits_value(x) == a && digits_value(y) == b
                && end_message(a, b) == "Finished. Saved "@ + x + ", failed "@ + y + "."@,
{
    lemma_decimal_digits(a);
    lemma_decimal_digits(a + 1);
    lemma_decimal_digits(b);
    lemma_decimal_value(a);
    lemma_decimal_value(a + 1);
    lemma_decimal_value(b);
    assert(all_digits(decimal(a)) && all_digits(decimal(a + 1)) && all_digits(decimal(b)));
}

/// A batch that runs.
#[derive(Clone, Copy, Debug, PartialEq, Eq, Structural)]
pub struct BatchRun {
    /// How many videos there are.
    pub total: usize,
    /// How many videos were begun.
    pub begun: usize,
    /// How many videos were exported.
    pub saved: usize,
    /// How many videos could not be exported.
    pub failed: usize,
    /// Whether no further video is begun.
    pub stopped: bool,
}

impl BatchRun {
    /// No more videos are done than were begun, and no more begun than there are.
    pub open spec fn wf(self) -> bool {
        self.saved + self.failed <= self.begun <= self.total
    }

    /// A batch at its beginning.
    pub fn new(total: usize) -> (r: BatchRun)
        ensures
            r == (BatchRun { total, begun: 0, saved: 0, failed: 0, stopped: false }),
            r.wf(),
    {
        BatchRun { total, begun: 0, saved: 0, failed: 0, stopped: false }
    }

    /// The index of the next video to begin with, if there is one; none is begun once the batch is
    /// canceled.
    pub open spec fn next_index(self, canceled: bool) -> Option<usize> {
        if self.stopped || canceled || self.begun >= self.total {
            None
        } else {
            Some(self.begun)
        }
    }

    /// The batch once it is known whether it is canceled, before the next video.
    pub open spec fn advanced(self, canceled: bool) -> BatchRun {
        match self.next_index(canceled) {
            Some(_) => BatchRun { begun: (self.begun + 1) as usize, ..self },
            None => BatchRun { stopped: true, ..self },
        }
    }

    /// Begins with the next video, if there is one.
    pub fn advance(&mut self, canceled: bool) -> (r: Option<usize>)
        ensures
            r == old(self).next_index(canceled),
            *final(self) == old(self).advanced(canceled),
    {
        if self.stopped || canceled || self.begun >= self.total {
            self.stopped = true;
            None
        } else {
            let index = self.begun;
            self.begun = self.begun + 1;
            Some(index)
        }
    }

    /// What is reported as a video is begun.
    pub fn start_event(&self, path: String, index: usize) -> (r: WorkerEvent)
        requires
            index < self.total,
        ensures
            r matches WorkerEvent::VideoStart { path: p, message } && p == path && message@
                == start_message(index as nat, self.total as nat),
    {
        let mut message = cat3("Exporting ", number((index + 1) as u64).as_str(), " of ");
        message.append(number(self.total as u64).as_str());
        WorkerEvent::VideoStart { path, message }
    }

    /// The batch after a video was exported.
    pub open spec fn after_saved(self) -> BatchRun {
        BatchRun { saved: (self.saved + 1) as usize, ..self }
    }

    /// The batch after a video could not be exported. Where the batch is canceled, that is why, and
    /// no further video is begun.
    pub open spec fn after_failed(self, canceled: bool) -> BatchRun {
        if canceled {
            BatchRun { stopped: true, ..self }
        } else {
            BatchRun { failed: (self.failed + 1) as usize, ..self }
        }
    }

    /// Counts a video that was exported to `output`, and says what is reported.
    pub fn saved_video(&mut self, path: String, output: &str, speed: Real) -> (r: WorkerEvent)
        requires
            old(self).saved + old(self).failed < old(self).begun,
        ensures
            *final(self) == old(self).after_saved(),
            r matches WorkerEvent::VideoDone { path: p, output: o, speed: s, message } && p == path
                && o@ == output@ && s == speed && message@ == "Saved "@ + output@,
    {
        self.saved = self.saved + 1;
        WorkerEvent::VideoDone {
            path,
            output: output.to_string(),
            speed,
            message: cat2("Saved ", output),
        }
    }

    /// Counts a video that could not be exported, and says what is reported: nothing, where the
    /// batch is canceled.
    pub fn failed_video(&mut self, path: String, error: String, canceled: bool) -> (r: Option<
        WorkerEvent,
    >)
        requires
            old(self).saved + old(self).failed < old(self).begun,
        ensures
            *final(self) == old(self).after_failed(canceled),
            match r {
                Some(event) => !canceled && (event matches WorkerEvent::VideoError {
                    path: p,
                    message,
                } && p == path && message == error),
                None => canceled,
            },
    {
        if canceled {
            self.stopped = true;
            None
        } else {
            self.failed = self.failed + 1;
            Some(WorkerEvent::VideoError { path, message: error })
        }
    }

    /// What is reported at the end.
    pub fn end_event(&self, was_canceled: bool) -> (r: WorkerEvent)
        ensures
            if was_canceled {
                r matches WorkerEvent::Canceled { message } && message@ == "Export canceled."@
            } else {
                r matches WorkerEvent::Done { message } && message@ == end_message(
                    self.saved as nat,
                    self.failed as nat,
                )
            },
    {
        if was_canceled {
            WorkerEvent::Canceled { message: "Export canceled.".to_string() }
        } else {
            WorkerEvent::Done {
                message: cat5(
                    "Finished. Saved ",
                    number(self.saved as u64).as_str(),
                    ", failed ",
                    number(self.failed as u64).as_str(),
                    ".",
                ),
            }
        }
    }
}

/// How a video ended.
pub ghost enum VideoEnd {
    Saved,
    Failed { canceled: bool },
}

/// The batch after a row of videos that were begun and ended, with no cancellation seen before the
/// beginning of one.
pub open spec fn batch_after(run: BatchRun, ends: Seq<VideoEnd>) -> BatchRun
    decreases ends.len(),
{
    if ends.len() == 0 {
        run
    } else {
        let before = batch_after(run, ends.drop_last());
        match before.next_index(false) {
            Some(_) => {
                let begun = before.advanced(false);
                match ends.last() {
                    VideoEnd::Saved => begun.after_saved(),
                    VideoEnd::Failed { canceled } => begun.after_failed(canceled),
                }
            },
            None => before,
        }
    }
}

/// However the videos end, the counts stay within the number of videos begun, and that within the
/// number of videos; and as long as nothing is canceled, every video begun is counted once.
pub proof fn law_every_video_is_counted(total: usize, ends: Seq<VideoEnd>)
    ensures
        ({
            let first = BatchRun { total, begun: 0, saved: 0, failed: 0, stopped: false };
            let run = batch_after(first, ends);
            &&& run.wf()
            &&& run.total == total
            &&& !run.stopped ==> run.saved + run.failed == run.begun
            &&& !run.stopped && ends.len() <= total ==> run.begun == ends.len()
            &&& run.stopped ==> run.saved + run.failed < run.begun
        }),
    decreases ends.len(),
{
    if ends.len() > 0 {
        law_every_video_is_counted(total, ends.drop_last());
    }
}

/// How many videos were exported.
pub open spec fn count_saved(ends: Seq<VideoEnd>) -> nat
    decreases ends.len(),
{
    if ends.len() == 0 {
        0
    } else {
        count_saved(ends.drop_last()) + (if ends.last() is Saved {
            1nat
        } else {
            0nat
        })
    }
}

/// Up to the number of videos, and as long as nothing is canceled: the videos are begun in their order,
/// each after the end of the one before; the count of exported videos is the number of those that were
/// exported, and the count of failures that of the others.
pub proof fn law_counts_are_those_of_the_ends(total: usize, ends: Seq<VideoEnd>)
    requires
        ends.len() <= total,
        forall|i: int|
            0 <= i < ends.len() ==> ((#[trigger] ends[i]) is Saved || ends[i]
                == (VideoEnd::Failed { canceled: false })),
    ensures
        ({
            let first = BatchRun { total, begun: 0, saved: 0, failed: 0, stopped: false };
            let run = batch_after(first, ends);
            &&& !run.stopped
            &&& run.total == total
            &&& run.begun == ends.len()
            &&& run.saved == count_saved(ends)
            &&& run.failed == ends.len() - count_saved(ends)
            &&& run.next_index(false) == (if ends.len() < total {
                Some(ends.len() as usize)
            } else {
                None
            })
            &&& run.next_index(true) is None
        }),
    decreases ends.len(),
{
    if ends.len() > 0 {
        let before = ends.drop_last();
        assert forall|i: int| 0 <= i < before.len() implies ((#[trigger] before[i]) is Saved
            || before[i] == (VideoEnd::Failed { canceled: false })) by {
            assert(before[i] == ends[i]);
        }
        law_counts_are_those_of_the_ends(total, before);
        let last = ends[ends.len() - 1];
        assert(last is Saved || last == (VideoEnd::Failed { canceled: false }));
        assert(last == ends.last());
        lemma_count_saved(before);
    }
}

proof fn lemma_count_saved(ends: Seq<VideoEnd>)
    ensures
        count_saved(ends) <= ends.len(),
    decreases ends.len(),
{
    if ends.len() > 0 {
        lemma_count_saved(ends.drop_last());
    }
}

/// A video that fails because the batch is canceled is not counted, and is the last.
pub proof fn law_canceled_video_is_the_last(run: BatchRun, canceled: bool)
    requires
        run.wf(),
        run.begun < usize::MAX,
    ensures
        ({
            let after = run.after_failed(true);
            &&& after.saved == run.saved
            &&& after.failed == run.failed
            &&& after.next_index(canceled) is None
        }),
{
}

/// Once the batch has stopped, no further video is begun.
pub proof fn law_stop_is_final(run: BatchRun, canceled: bool)
    requires
        run.stopped,
    ensures
        run.next_index(canceled) is None,
        run.advanced(canceled) == run,
{
}

} // verus!
