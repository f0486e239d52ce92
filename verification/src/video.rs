//! The export of one video: what is found out and decided, in which order, and where it fails.

use crate::arithmetic::{apart, difference};
use crate::double::{unit, Real};
use crate::options::{
    check_source_duration, clip_duration, clip_start, export_speed, held_within, is_no_time,
    law_clip_follows_request, law_clip_lies_in_source, law_target_length_is_met,
    lemma_limited_is_finite, normalized_clip_range, speed_of, JobInput, SpeedOptions,
};
use vstd::arithmetic::power2::pow2;
use vstd::prelude::*;

verus! {

/// The part of a video that is exported, and how fast.
#[derive(Clone, Copy, Debug, PartialEq, Eq, Structural)]
pub struct VideoClip {
    /// The length of the video, in seconds.
    pub source: Real,
    /// Where the part begins, in seconds.
    pub start: Real,
    /// How long the part is, in seconds.
    pub duration: Real,
    /// How many times as fast the export is.
    pub speed: Real,
}

/// The part of a video that a request comes to, given the length of the video, or why there is none.
pub open spec fn clip_of(input: JobInput, options: SpeedOptions, source: Real) -> Result<
    VideoClip,
    Seq<char>,
> {
    let duration = clip_duration(input, source, options);
    if is_no_time(source) {
        Err("Video duration missing."@)
    } else if is_no_time(duration) {
        Err("Clip range must be longer than 0 seconds."@)
    } else {
        match speed_of(options, duration) {
            None => Err("Target length >= source."@),
            Some(speed) => Ok(
                VideoClip { source, start: clip_start(input, source), duration, speed },
            ),
        }
    }
}

/// The part of a video that a request comes to, given the length of the video, which has to be a
/// number.
pub fn plan_clip(input: &JobInput, options: &SpeedOptions, source: Real) -> (r: Result<
    VideoClip,
    String,
>)
    requires
        source.is_number(),
    ensures
        match r {
            Ok(clip) => clip_of(*input, *options, source) == Ok::<VideoClip, Seq<char>>(clip),
            Err(e) => clip_of(*input, *options, source) == Err::<VideoClip, Seq<char>>(e@),
        },
{
    match check_source_duration(source) {
        Err(e) => Err(e),
        Ok(()) => match normalized_clip_range(input, source, options) {
            Err(e) => Err(e),
            Ok((start, duration)) => match export_speed(options, duration) {
                Err(e) => Err(e),
                Ok(speed) => Ok(VideoClip { source, start, duration, speed }),
            },
        },
    }
}

/// The part that is planned is the one that was asked for, of the video that was probed, at the speed that
/// was asked for: it begins and ends where the request says, as far as that lies in the video, and is not
/// longer than the limit to its length; where a length is aimed at, the speed times that length is the
/// length of the part, and otherwise it is the multiplier. Nothing is planned of a video of no length or a
/// part of no length, or where the length aimed at is not below that of the part.
pub proof fn law_plan_meets_request(input: JobInput, options: SpeedOptions, source: Real)
    requires
        source.is_finite(),
        source.value() >= 0,
        input.start_seconds matches Some(s) ==> s.is_number(),
        input.end_seconds matches Some(s) ==> s.is_number(),
        options.clip_seconds.is_number(),
        options.target_seconds.is_finite(),
        options.target_seconds.value() > 0,
        source.value() <= pow2(1000) * options.target_seconds.value(),
    ensures
        match clip_of(input, options, source) {
            Ok(clip) => {
                let start = match input.start_seconds {
                    Some(s) => held_within(s.value(), source.value()),
                    None => 0,
                };
                let end = match input.end_seconds {
                    Some(s) => held_within(s.value(), source.value()),
                    None => source.value(),
                };
                let target = options.target_seconds.value();
                let reached = clip.speed.value() * target;
                let wanted = clip.duration.value() * unit();
                &&& clip.source == source
                &&& clip.start.value() == start
                &&& 0 < clip.duration.value()
                &&& 0x20_0000_0000_0000 * (clip.duration.value() - (end - start)) <= apart(
                    end - start,
                    0,
                )
                &&& options.use_clip_length ==> clip.duration.value() <= options.clip_seconds.value()
                &&& !(options.use_clip_length && clip.duration.value()
                    == options.clip_seconds.value()) ==> 0x20_0000_0000_0000 * ((end - start)
                    - clip.duration.value()) <= apart(end - start, 0)
                &&& !options.use_target_length ==> clip.speed == options.multiplier
                &&& options.use_target_length ==> target < clip.duration.value() && 0x20_0000_0000_0000
                    * reached <= 0x20_0000_0000_0001 * wanted && 0x1f_ffff_ffff_ffff * wanted
                    <= 0x20_0000_0000_0000 * reached
            },
            Err(_) => source.value() == 0 || clip_duration(input, source, options).value() <= 0 || (
            options.use_target_length && clip_duration(input, source, options).value()
                <= options.target_seconds.value()),
        },
{
    law_clip_follows_request(input, source, options);
    law_clip_lies_in_source(input, source, options);
    let duration = clip_duration(input, source, options);
    if duration.value() > 0 {
        lemma_limited_is_finite(duration, source);
        law_target_length_is_met(options, duration);
    }
}

/// What is to be done next for a video.
pub enum VideoStep {
    /// Find out how long the video is.
    ProbeDuration,
    /// Find out whether the video has sound.
    ProbeAudio { clip: VideoClip },
    /// Find a name for the export.
    FindName { clip: VideoClip, has_audio: bool },
    /// Make the export under that name.
    Export { clip: VideoClip, has_audio: bool },
    /// Nothing: the export is there.
    Saved { speed: Real },
    /// Nothing: the export could not be made.
    Failed { message: String },
}

/// What came of a step.
pub enum VideoEvent {
    /// The length of the video.
    Duration(Result<Real, String>),
    /// Whether the video has sound.
    Audio(bool),
    /// Whether there is a name for the export.
    Named(Result<(), String>),
    /// Whether the export was made.
    Exported(Result<(), String>),
}

/// Whether a step gives up with this message.
pub open spec fn fails_with(step: VideoStep, message: Seq<char>) -> bool {
    step matches VideoStep::Failed { message: m } && m@ == message
}

/// What follows a step once its event is there. An event that a step does not wait for changes
/// nothing.
pub open spec fn is_next_step(
    input: JobInput,
    options: SpeedOptions,
    step: VideoStep,
    event: VideoEvent,
    next: VideoStep,
) -> bool {
    match (step, event) {
        (VideoStep::ProbeDuration, VideoEvent::Duration(Err(e))) => fails_with(next, e@),
        (VideoStep::ProbeDuration, VideoEvent::Duration(Ok(source))) => match clip_of(
            input,
            options,
            source,
        ) {
            Ok(clip) => next == VideoStep::ProbeAudio { clip },
            Err(why) => fails_with(next, why),
        },
        (VideoStep::ProbeAudio { clip }, VideoEvent::Audio(has_audio)) => next
            == VideoStep::FindName { clip, has_audio },
        (VideoStep::FindName { clip, has_audio }, VideoEvent::Named(Ok(()))) => next
            == VideoStep::Export { clip, has_audio },
        (VideoStep::FindName { .. }, VideoEvent::Named(Err(e))) => fails_with(next, e@),
        (VideoStep::Export { clip, .. }, VideoEvent::Exported(Ok(()))) => next
            == VideoStep::Saved { speed: clip.speed },
        (VideoStep::Export { .. }, VideoEvent::Exported(Err(e))) => fails_with(next, e@),
        _ => next == step,
    }
}

/// A video of which a part can be planned is exported where nothing goes wrong: that part, with what was
/// found out of its sound, and the speed that is told in the end is the planned one.
pub proof fn law_planned_part_is_exported(
    input: JobInput,
    options: SpeedOptions,
    source: Real,
    has_audio: bool,
    steps: Seq<VideoStep>,
)
    requires
        clip_of(input, options, source) is Ok,
        steps.len() == 5,
        steps[0] == VideoStep::ProbeDuration,
        is_next_step(input, options, steps[0], VideoEvent::Duration(Ok(source)), steps[1]),
        is_next_step(input, options, steps[1], VideoEvent::Audio(has_audio), steps[2]),
        is_next_step(input, options, steps[2], VideoEvent::Named(Ok(())), steps[3]),
        is_next_step(input, options, steps[3], VideoEvent::Exported(Ok(())), steps[4]),
    ensures
        clip_of(input, options, source) matches Ok(clip) && steps[3] == (VideoStep::Export {
            clip,
            has_audio,
        }) && steps[4] == (VideoStep::Saved { speed: clip.speed }),
{
}

/// What goes wrong ends the work on a video, and its message is the one that is told.
pub proof fn law_failure_is_told(
    input: JobInput,
    options: SpeedOptions,
    clip: VideoClip,
    has_audio: bool,
    message: String,
    next: VideoStep,
)
    ensures
        is_next_step(
            input,
            options,
            VideoStep::ProbeDuration,
            VideoEvent::Duration(Err(message)),
            next,
        ) ==> fails_with(next, message@),
        is_next_step(
            input,
            options,
            VideoStep::FindName { clip, has_audio },
            VideoEvent::Named(Err(message)),
            next,
        ) ==> fails_with(next, message@),
        is_next_step(
            input,
            options,
            VideoStep::Export { clip, has_audio },
            VideoEvent::Exported(Err(message)),
            next,
        ) ==> fails_with(next, message@),
{
}

/// What follows a step once its event is there. The length of a video has to be a number.
pub fn next_video_step(
    input: &JobInput,
    options: &SpeedOptions,
    step: VideoStep,
    event: VideoEvent,
) -> (next: VideoStep)
    requires
        event matches VideoEvent::Duration(Ok(source)) ==> source.is_number(),
    ensures
        is_next_step(*input, *options, step, event, next),
{
    match (step, event) {
        (VideoStep::ProbeDuration, VideoEvent::Duration(found)) => match found {
            Err(message) => VideoStep::Failed { message },
            Ok(source) => match plan_clip(input, options, source) {
                Ok(clip) => VideoStep::ProbeAudio { clip },
                Err(message) => VideoStep::Failed { message },
            },
        },
        (VideoStep::ProbeAudio { clip }, VideoEvent::Audio(has_audio)) => VideoStep::FindName {
            clip,
            has_audio,
        },
        (VideoStep::FindName { clip, has_audio }, VideoEvent::Named(named)) => match named {
            Ok(()) => VideoStep::Export { clip, has_audio },
            Err(message) => VideoStep::Failed { message },
        },
        (VideoStep::Export { clip, .. }, VideoEvent::Exported(made)) => match made {
            Ok(()) => VideoStep::Saved { speed: clip.speed },
            Err(message) => VideoStep::Failed { message },
        },
        (step, _) => step,
    }
}

/// The steps that a video goes through, from the first one on.
pub open spec fn is_course(
    input: JobInput,
    options: SpeedOptions,
    steps: Seq<VideoStep>,
    events: Seq<VideoEvent>,
) -> bool {
    &&& steps.len() == events.len() + 1
    &&& steps[0] == VideoStep::ProbeDuration
    &&& forall|i: int|
        0 <= i < events.len() ==> is_next_step(
            input,
            options,
            #[trigger] steps[i],
            events[i],
            steps[i + 1],
        )
}

/// Whether the part at a step is the one that the request comes to for the length of the video.
pub open spec fn step_ok(input: JobInput, options: SpeedOptions, step: VideoStep) -> bool {
    match step {
        VideoStep::ProbeAudio { clip } => clip_of(input, options, clip.source) == Ok::<
            VideoClip,
            Seq<char>,
        >(clip),
        VideoStep::FindName { clip, .. } => clip_of(input, options, clip.source) == Ok::<
            VideoClip,
            Seq<char>,
        >(clip),
        VideoStep::Export { clip, .. } => clip_of(input, options, clip.source) == Ok::<
            VideoClip,
            Seq<char>,
        >(clip),
        _ => true,
    }
}

proof fn lemma_course_ok(
    input: JobInput,
    options: SpeedOptions,
    steps: Seq<VideoStep>,
    events: Seq<VideoEvent>,
    i: int,
)
    requires
        is_course(input, options, steps, events),
        0 <= i < steps.len(),
    ensures
        step_ok(input, options, steps[i]),
    decreases i,
{
    if i > 0 {
        lemma_course_ok(input, options, steps, events, i - 1);
        assert(is_next_step(input, options, steps[i - 1], events[i - 1], steps[i]));
    }
}

/// Whatever is found out on the way, a video is exported only as the part that the request comes to.
/// If the request and the length of the video are finite numbers, that part lies within the video
/// and is not longer than what is left of it from where the part begins.
pub proof fn law_only_planned_parts_are_exported(
    input: JobInput,
    options: SpeedOptions,
    steps: Seq<VideoStep>,
    events: Seq<VideoEvent>,
    i: int,
)
    requires
        is_course(input, options, steps, events),
        0 <= i < steps.len(),
        input.start_seconds matches Some(s) ==> s.is_number(),
        input.end_seconds matches Some(s) ==> s.is_number(),
    ensures
        steps[i] matches VideoStep::Export { clip, .. } ==> {
            &&& clip_of(input, options, clip.source) == Ok::<VideoClip, Seq<char>>(clip)
            &&& clip.source.is_finite() ==> 0 <= clip.start.value() <= clip.source.value() && 0
                < clip.duration.value() <= clip.source.value() && clip.duration.value()
                <= difference(clip.source, clip.start).value()
        },
{
    lemma_course_ok(input, options, steps, events, i);
    if let VideoStep::Export { clip, .. } = steps[i] {
        if clip.source.is_finite() {
            law_clip_lies_in_source(input, clip.source, options);
        }
    }
}

/// A video that was exported or given up stays so.
pub proof fn law_end_of_a_video_is_final(
    input: JobInput,
    options: SpeedOptions,
    step: VideoStep,
    event: VideoEvent,
    next: VideoStep,
)
    requires
        step is Saved || step is Failed,
        is_next_step(input, options, step, event, next),
    ensures
        next == step,
{
}

} // verus!
