//! What a batch export is asked to do, which requests are refused, and what part of a video, at
//! what speed and at what size, a request comes to.

use crate::arithmetic::{
    apart, difference, floor_u32, law_difference_is_nearest, lemma_difference_error,
    lemma_floor_at_most, lemma_large, lemma_quotient_error, lemma_rounded_at_least,
    lemma_rounded_at_most, lemma_rounding_keeps_order, lemma_unit_is_large, lemma_whole_exact, negated, quotient, whole,
};
use crate::double::{
    lemma_constants, lemma_magnitudes_ordered, lemma_zero, magnitude_value, unit, Real,
    FIVE_HALVES, INFINITY, NINETEEN_HALVES, ONE, SIXTY, TEN, TENTH, THREE, THREE_HALVES, TWO,
};
use crate::jobs::ActiveJobState;
use crate::rounding::rounded;
use crate::text::{same, same_ignoring_case, same_text_ignoring_case};
use vstd::arithmetic::power2::pow2;
use vstd::prelude::*;

verus! {

/// The lowest frame rate of an animation, in frames a second.
pub const MIN_GIF_FPS: u32 = 5;

/// The highest frame rate of an animation, in frames a second.
pub const MAX_GIF_FPS: u32 = 30;

/// The frame rate of an animation, in frames a second, unless a size calls for a lower one.
pub const GIF_FPS: u32 = 15;

/// A video, and the part of it to export.
pub struct JobInput {
    /// Where the video is.
    pub path: String,
    /// Where the part begins, in seconds; the beginning of the video, if not given.
    pub start_seconds: Option<Real>,
    /// Where the part ends, in seconds; the end of the video, if not given.
    pub end_seconds: Option<Real>,
}

/// How a batch of videos is to be exported.
pub struct SpeedOptions {
    /// How many times as fast the export is, unless a length is aimed at.
    pub multiplier: Real,
    /// Whether a length is aimed at in place of a speed.
    pub use_target_length: bool,
    /// The length aimed at, in seconds.
    pub target_seconds: Real,
    /// Whether at most `clip_seconds` of each video are used.
    pub use_clip_length: bool,
    /// How much of each video is used, in seconds.
    pub clip_seconds: Real,
    /// Whether a file size is aimed at.
    pub use_target_size: bool,
    /// The file size aimed at, in millions of bytes.
    pub target_size_mb: Real,
    /// The frame rate given for animations. It has to be one that an animation can have; an
    /// animation is made at [`GIF_FPS`] whatever is given.
    pub gif_fps: u32,
    /// Whether the export is silent.
    pub strip_audio: bool,
    /// Whether an export may replace a file.
    pub replace_existing: bool,
    /// The name of the output format.
    pub output_format: String,
    /// The length of the shorter side of the picture, before it is reduced.
    pub output_resolution: u32,
    /// By what the picture is reduced.
    pub dimension_reduction: Real,
    /// The folder for the exports; that of the video, if blank.
    pub output_dir: String,
    /// The folder of the programs that do the work, if given.
    pub ffmpeg_dir: String,
}

/// Twice as fast, silent, as a small video beside the source, under a name of its own.
pub open spec fn is_default(o: SpeedOptions) -> bool {
    &&& o.multiplier == (Real { bits: TWO })
    &&& !o.use_target_length
    &&& o.target_seconds == (Real { bits: TEN })
    &&& !o.use_clip_length
    &&& o.clip_seconds == (Real { bits: SIXTY })
    &&& !o.use_target_size
    &&& o.target_size_mb == (Real { bits: NINETEEN_HALVES })
    &&& o.gif_fps == 15
    &&& o.strip_audio
    &&& !o.replace_existing
    &&& o.output_format@ == "mp4-h264"@
    &&& o.output_resolution == 720
    &&& o.dimension_reduction == (Real { bits: ONE })
    &&& o.output_dir@.len() == 0
    &&& o.ffmpeg_dir@.len() == 0
}

/// The options of a request that gives none.
pub fn default_speed_options() -> (o: SpeedOptions)
    ensures
        is_default(o),
{
    SpeedOptions {
        multiplier: Real { bits: TWO },
        use_target_length: false,
        target_seconds: Real { bits: TEN },
        use_clip_length: false,
        clip_seconds: Real { bits: SIXTY },
        use_target_size: false,
        target_size_mb: Real { bits: NINETEEN_HALVES },
        gif_fps: 15,
        strip_audio: true,
        replace_existing: false,
        output_format: "mp4-h264".to_string(),
        output_resolution: 720,
        dimension_reduction: Real { bits: ONE },
        output_dir: String::new(),
        ffmpeg_dir: String::new(),
    }
}

// ---------------------------------------------------------------------------------------------
// Requests that are refused
// ---------------------------------------------------------------------------------------------

/// Whether a number of seconds is zero or less.
pub open spec fn is_no_time(seconds: Real) -> bool {
    seconds.is_number() && seconds.value() <= 0
}

/// Whether a speed is from one to ten times that of the source.
pub open spec fn is_multiplier(m: Real) -> bool {
    m.is_number() && unit() <= m.value() <= 10 * unit()
}

/// Whether there is an output format of this name.
pub open spec fn is_format(name: Seq<char>) -> bool {
    name == "mp4-h264"@ || name == "webm-vp9"@ || name == "github-gif"@
}

/// Whether a picture can be asked for with a shorter side of this length.
pub open spec fn is_resolution(r: u32) -> bool {
    r == 480 || r == 720 || r == 1080 || r == 1440
}

/// Twice the factor by which a picture is reduced, where it is 1, 1.5, 2, 2.5 or 3.
pub open spec fn reduction_halves(r: Real) -> Option<nat> {
    let twice = 2 * r.value();
    if !r.is_number() {
        None
    } else if twice == 2 * unit() {
        Some(2)
    } else if twice == 3 * unit() {
        Some(3)
    } else if twice == 4 * unit() {
        Some(4)
    } else if twice == 5 * unit() {
        Some(5)
    } else if twice == 6 * unit() {
        Some(6)
    } else {
        None
    }
}

/// Whether a file size of this many millions of bytes can be aimed at: 0.1 to 9.5.
pub open spec fn is_target_size(mb: Real) -> bool {
    mb.is_number() && (Real { bits: TENTH }).value() <= mb.value() && 2 * mb.value() <= 19 * unit()
}

/// Why a request is refused: the first of the rules that it breaks.
pub open spec fn refusal(inputs: nat, busy: bool, o: SpeedOptions) -> Option<Seq<char>> {
    if inputs == 0 {
        Some("No input videos were provided."@)
    } else if busy {
        Some("Another export is already running."@)
    } else if o.use_target_length && is_no_time(o.target_seconds) {
        Some("Target length must be greater than 0 seconds."@)
    } else if o.use_clip_length && is_no_time(o.clip_seconds) {
        Some("Clip length must be greater than 0 seconds."@)
    } else if !o.use_target_length && !is_multiplier(o.multiplier) {
        Some("Multiplier must be between 1x and 10x."@)
    } else if !is_format(o.output_format@) {
        Some("Unsupported output format."@)
    } else if !is_resolution(o.output_resolution) {
        Some("Output resolution must be 480p, 720p, 1080p, or 1440p."@)
    } else if reduction_halves(o.dimension_reduction) is None {
        Some("Dimension reduction must be 1x, 1.5x, 2x, 2.5x, or 3x."@)
    } else if o.use_target_size && !is_target_size(o.target_size_mb) {
        Some("Target size must be 0.1-9.5 MB."@)
    } else if !(MIN_GIF_FPS <= o.gif_fps <= MAX_GIF_FPS) {
        Some("GIF FPS must be 5-30."@)
    } else {
        None
    }
}

fn no_time(seconds: Real) -> (r: bool)
    ensures
        r == is_no_time(seconds),
{
    proof {
        lemma_zero();
    }
    seconds.le(Real { bits: 0 })
}

fn equal(a: Real, b: Real) -> (r: bool)
    ensures
        r == (a.is_number() && b.is_number() && a.value() == b.value()),
{
    a.le(b) && b.le(a)
}

/// Twice the factor by which a picture is reduced, where there is such a factor.
pub fn dimension_halves(r: Real) -> (h: Option<u32>)
    ensures
        match h {
            Some(n) => reduction_halves(r) == Some(n as nat),
            None => reduction_halves(r) is None,
        },
{
    proof {
        lemma_constants();
    }
    if equal(r, Real { bits: ONE }) {
        Some(2)
    } else if equal(r, Real { bits: THREE_HALVES }) {
        Some(3)
    } else if equal(r, Real { bits: TWO }) {
        Some(4)
    } else if equal(r, Real { bits: FIVE_HALVES }) {
        Some(5)
    } else if equal(r, Real { bits: THREE }) {
        Some(6)
    } else {
        None
    }
}

/// Accepts a request or says why it is refused.
pub fn check_speed_job(
    inputs: &Vec<JobInput>,
    jobs: &ActiveJobState,
    options: &SpeedOptions,
) -> (r: Result<(), String>)
    ensures
        match r {
            Ok(()) => refusal(inputs@.len(), jobs@ is Some, *options) is None,
            Err(e) => refusal(inputs@.len(), jobs@ is Some, *options) == Some(e@),
        },
{
    proof {
        lemma_constants();
    }
    let format = options.output_format.as_str();
    let resolution = options.output_resolution;
    if inputs.len() == 0 {
        Err("No input videos were provided.".to_string())
    } else if jobs.is_busy() {
        Err("Another export is already running.".to_string())
    } else if options.use_target_length && no_time(options.target_seconds) {
        Err("Target length must be greater than 0 seconds.".to_string())
    } else if options.use_clip_length && no_time(options.clip_seconds) {
        Err("Clip length must be greater than 0 seconds.".to_string())
    } else if !options.use_target_length && !((Real { bits: ONE }).le(options.multiplier)
        && options.multiplier.le(Real { bits: TEN })) {
        Err("Multiplier must be between 1x and 10x.".to_string())
    } else if !same(format, "mp4-h264") && !same(format, "webm-vp9") && !same(
        format,
        "github-gif",
    ) {
        Err("Unsupported output format.".to_string())
    } else if resolution != 480 && resolution != 720 && resolution != 1080 && resolution != 1440 {
        Err("Output resolution must be 480p, 720p, 1080p, or 1440p.".to_string())
    } else if dimension_halves(options.dimension_reduction).is_none() {
        Err("Dimension reduction must be 1x, 1.5x, 2x, 2.5x, or 3x.".to_string())
    } else if options.use_target_size && !((Real { bits: TENTH }).le(options.target_size_mb)
        && options.target_size_mb.le(Real { bits: NINETEEN_HALVES })) {
        Err("Target size must be 0.1-9.5 MB.".to_string())
    } else if options.gif_fps < MIN_GIF_FPS || options.gif_fps > MAX_GIF_FPS {
        Err("GIF FPS must be 5-30.".to_string())
    } else {
        Ok(())
    }
}

// ---------------------------------------------------------------------------------------------
// The part of a video that is used
// ---------------------------------------------------------------------------------------------

/// Where the part of a video begins, given the length of the video.
pub open spec fn clip_start(input: JobInput, source: Real) -> Real {
    match input.start_seconds {
        Some(s) => s.limited(source),
        None => (Real { bits: 0 }).limited(source),
    }
}

/// Where the part of a video ends, given the length of the video.
pub open spec fn clip_end(input: JobInput, source: Real) -> Real {
    match input.end_seconds {
        Some(s) => s.limited(source),
        None => source.limited(source),
    }
}

/// Refuses a video whose length is zero or less.
pub fn check_source_duration(duration: Real) -> (r: Result<(), String>)
    ensures
        r is Err <==> is_no_time(duration),
        r matches Err(e) ==> e@ == "Video duration missing."@,
{
    if no_time(duration) {
        Err("Video duration missing.".to_string())
    } else {
        Ok(())
    }
}

fn clip_bounds(input: &JobInput, source_duration: Real) -> (r: (Real, Real))
    requires
        source_duration.is_number(),
        source_duration.value() >= 0,
    ensures
        r.0 == clip_start(*input, source_duration),
        r.1 == clip_end(*input, source_duration),
{
    proof {
        lemma_zero();
    }
    let start = match input.start_seconds {
        Some(s) => s.limit(source_duration),
        None => (Real { bits: 0 }).limit(source_duration),
    };
    let end = match input.end_seconds {
        Some(s) => s.limit(source_duration),
        None => source_duration.limit(source_duration),
    };
    (start, end)
}

/// How much of a video is used, given the length of the video: what lies between the two ends of
/// the part, but not more than was asked for.
pub open spec fn clip_duration(input: JobInput, source: Real, options: SpeedOptions) -> Real {
    let length = difference(clip_end(input, source), clip_start(input, source));
    if options.use_clip_length {
        length.smaller(options.clip_seconds)
    } else {
        length
    }
}

/// Where the part of a video begins and how long it is, given the length of the video. Fails where
/// nothing is left.
pub fn normalized_clip_range(input: &JobInput, source_duration: Real, options: &SpeedOptions) -> (r:
    Result<(Real, Real), String>)
    requires
        source_duration.is_number(),
        source_duration.value() >= 0,
    ensures
        match r {
            Ok((start, duration)) => {
                &&& start == clip_start(*input, source_duration)
                &&& duration == clip_duration(*input, source_duration, *options)
                &&& !is_no_time(duration)
            },
            Err(e) => {
                &&& is_no_time(clip_duration(*input, source_duration, *options))
                &&& e@ == "Clip range must be longer than 0 seconds."@
            },
        },
{
    let (start, end) = clip_bounds(input, source_duration);
    let length = end.minus(start);
    let duration = if options.use_clip_length {
        length.min(options.clip_seconds)
    } else {
        length
    };
    if no_time(duration) {
        Err("Clip range must be longer than 0 seconds.".to_string())
    } else {
        Ok((start, duration))
    }
}

/// The part of a video lies within the video: it is not longer than the video, and not longer than
/// what is left of the video from where it begins.
pub proof fn law_clip_lies_in_source(input: JobInput, source: Real, options: SpeedOptions)
    requires
        source.is_finite(),
        source.value() >= 0,
        input.start_seconds matches Some(s) ==> s.is_number(),
        input.end_seconds matches Some(s) ==> s.is_number(),
    ensures
        0 <= clip_start(input, source).value() <= source.value(),
        0 <= clip_end(input, source).value() <= source.value(),
        clip_duration(input, source, options).is_number(),
        clip_duration(input, source, options).value() <= source.value(),
        clip_duration(input, source, options).value() <= difference(
            source,
            clip_start(input, source),
        ).value(),
{
    lemma_zero();
    let start = clip_start(input, source);
    let end = clip_end(input, source);
    lemma_limited_is_finite(start, source);
    lemma_limited_is_finite(end, source);
    lemma_difference_at_most(end, start, source);
    lemma_difference_at_most(source, start, source);
    lemma_differences_ordered(end, source, start);
}

proof fn lemma_differences_ordered(a: Real, c: Real, b: Real)
    requires
        a.is_finite(),
        b.is_finite(),
        c.is_finite(),
        0 <= a.value() <= c.value(),
        0 <= b.value() <= c.value(),
    ensures
        difference(a, b).value() <= difference(c, b).value(),
{
    lemma_zero();
    let v = a.value() - b.value();
    let w = c.value() - b.value();
    assert(negated(b).value() == -b.value());
    if v > 0 {
        lemma_rounded_at_most(v as nat, 1, c.magnitude());
        lemma_rounding_keeps_order(v as nat, w as nat, 1);
        let x = rounded(v as nat, 1) as nat;
        let y = rounded(w as nat, 1) as nat;
        if x < y {
            lemma_magnitudes_ordered(x, y);
        }
    } else if v < 0 {
        let bits = rounded((-v) as nat, 1);
        if bits > 0 {
            lemma_magnitudes_ordered(0, bits as nat);
        }
    }
}

/// A number that is not negative and not above a finite one is finite.
pub proof fn lemma_limited_is_finite(a: Real, high: Real)
    requires
        a.is_number(),
        high.is_finite(),
        0 <= a.value() <= high.value(),
    ensures
        a.is_finite(),
{
    let x = a.magnitude();
    let y = high.magnitude();
    lemma_zero();
    if y > 0 {
        lemma_magnitudes_ordered(0, y);
    }
    if x > y {
        lemma_magnitudes_ordered(y, x);
    }
}

proof fn lemma_difference_at_most(a: Real, b: Real, high: Real)
    requires
        a.is_finite(),
        b.is_finite(),
        high.is_finite(),
        0 <= a.value() <= high.value(),
        0 <= b.value(),
    ensures
        difference(a, b).is_number(),
        difference(a, b).value() <= high.value(),
{
    lemma_zero();
    let v = a.value() - b.value();
    let h = high.magnitude();
    if h > 0 {
        lemma_magnitudes_ordered(0, h);
    }
    assert(negated(b).value() == -b.value());
    if v > 0 {
        lemma_rounded_at_most(v as nat, 1, h);
        let bits = rounded(v as nat, 1);
        if bits < h {
            lemma_magnitudes_ordered(bits as nat, h);
        }
    } else if v < 0 {
        let bits = rounded((-v) as nat, 1);
        if bits > 0 {
            lemma_magnitudes_ordered(0, bits as nat);
        }
    }
}

// ---------------------------------------------------------------------------------------------
// Speed
// ---------------------------------------------------------------------------------------------

/// The speed of an export of a part of this length, if there is one: the multiplier; or, where a
/// length is aimed at, what leads to it. A length can be aimed at only where it is below that of the
/// part.
pub open spec fn speed_of(options: SpeedOptions, clip_duration: Real) -> Option<Real> {
    if !options.use_target_length {
        Some(options.multiplier)
    } else if clip_duration.at_most(options.target_seconds) {
        None
    } else {
        Some(quotient(clip_duration, options.target_seconds))
    }
}

/// The speed of an export of a part of this length.
pub fn export_speed(options: &SpeedOptions, clip_duration: Real) -> (r: Result<Real, String>)
    ensures
        match r {
            Ok(speed) => speed_of(*options, clip_duration) == Some(speed),
            Err(e) => speed_of(*options, clip_duration) is None && e@
                == "Target length >= source."@,
        },
{
    if options.use_target_length {
        if clip_duration.le(options.target_seconds) {
            Err("Target length >= source.".to_string())
        } else {
            Ok(clip_duration.over(options.target_seconds))
        }
    } else {
        Ok(options.multiplier)
    }
}

// ---------------------------------------------------------------------------------------------
// Size of the picture
// ---------------------------------------------------------------------------------------------

/// A side of a picture divided by the reduction, rounded down to an even number, but not below two.
pub open spec fn reduced(side: u32, reduction: Real) -> u32 {
    let f = floor_u32(quotient(whole(side as nat), reduction));
    let kept = if f < 2 {
        2
    } else {
        f
    };
    (kept - kept % 2) as u32
}

/// The length of the shorter side of the picture once it is reduced.
pub fn reduced_output_resolution(output_resolution: u32, reduction: Real) -> (r: u32)
    ensures
        r == reduced(output_resolution, reduction),
{
    let f = Real::from_whole(output_resolution as u64).over(reduction).floor();
    let side: u32 = if f < 2 {
        2
    } else {
        f
    };
    side - side % 2
}

/// A reduced side is even and at least two; and, if it is made from a side of at least two by a
/// reduction of at least one, not longer than that.
pub proof fn law_reduced_side(side: u32, reduction: Real)
    ensures
        reduced(side, reduction) % 2 == 0,
        reduced(side, reduction) >= 2,
        side >= 2 && reduction.is_number() && reduction.value() >= unit() ==> reduced(
            side,
            reduction,
        ) <= side,
{
    if side >= 2 && reduction.is_number() && reduction.value() >= unit() {
        lemma_quotient_at_most(side, reduction);
    }
}

proof fn lemma_quotient_at_most(side: u32, reduction: Real)
    requires
        reduction.is_number(),
        reduction.value() >= unit(),
    ensures
        floor_u32(quotient(whole(side as nat), reduction)) <= side,
        reduction.is_finite() ==> quotient(whole(side as nat), reduction).value() <= side * unit(),
{
    lemma_constants();
    lemma_whole_exact(side as nat);
    lemma_zero();
    let a = whole(side as nat);
    let x = a.magnitude();
    let v = magnitude_value(x);
    let u = unit() as nat;
    let d = magnitude_value(reduction.magnitude());
    if reduction.is_finite() {
        assert(v * u <= v * d) by (nonlinear_arith)
            requires
                u <= d,
        ;
        lemma_rounded_at_most(v * u, d, x);
        let bits = rounded(v * u, d);
        if bits < x {
            lemma_magnitudes_ordered(bits as nat, x);
        }
        lemma_floor_at_most(quotient(a, reduction), side as nat);
    }
}

proof fn lemma_quotient_at_least(side: u32, reduction: Real, least: u32)
    requires
        reduction.is_finite(),
        0 < reduction.value(),
        least * reduction.value() <= side * unit(),
    ensures
        floor_u32(quotient(whole(side as nat), reduction)) >= least,
{
    lemma_constants();
    lemma_whole_exact(side as nat);
    lemma_whole_exact(least as nat);
    lemma_zero();
    let a = whole(side as nat);
    let low = whole(least as nat);
    let v = magnitude_value(a.magnitude());
    let w = magnitude_value(low.magnitude());
    let u = unit() as nat;
    let d = magnitude_value(reduction.magnitude());
    assert(v * u >= w * d) by (nonlinear_arith)
        requires
            v == side * u,
            w == least * u,
            least * d <= side * u,
    ;
    lemma_rounded_at_least(v * u, d, low.magnitude());
    let r = quotient(a, reduction);
    let bits = rounded(v * u, d);
    if bits > low.magnitude() {
        lemma_magnitudes_ordered(low.magnitude(), bits as nat);
    }
    let x = r.value();
    assert(x / u as int >= least) by (nonlinear_arith)
        requires
            x >= least * u,
            u > 0,
    ;
}

// ---------------------------------------------------------------------------------------------
// Output formats
// ---------------------------------------------------------------------------------------------

/// The ending of the names of exported files.
pub open spec fn extension_of(format: Seq<char>) -> Seq<char> {
    if format == "webm-vp9"@ {
        "webm"@
    } else if format == "github-gif"@ {
        "gif"@
    } else {
        "mp4"@
    }
}

/// The ending of the names of exported files.
pub fn output_extension(options: &SpeedOptions) -> (r: &'static str)
    ensures
        r@ == extension_of(options.output_format@),
{
    let format = options.output_format.as_str();
    if same(format, "webm-vp9") {
        "webm"
    } else if same(format, "github-gif") {
        "gif"
    } else {
        "mp4"
    }
}

/// What is exported: an animation, or a video in one of two encodings.
#[derive(Clone, Copy, Debug, PartialEq, Eq, Structural)]
pub enum OutputKind {
    Gif,
    Webm,
    Mp4,
}

/// What is exported under a format name, in which the case of letters does not matter.
pub open spec fn kind_of(format: Seq<char>) -> OutputKind {
    if same_ignoring_case(format, "github-gif"@) {
        OutputKind::Gif
    } else if same_ignoring_case(format, "webm-vp9"@) {
        OutputKind::Webm
    } else {
        OutputKind::Mp4
    }
}

/// What is exported under a format name.
pub fn output_kind(format: &str) -> (r: OutputKind)
    ensures
        r == kind_of(format@),
{
    if same_text_ignoring_case(format, "github-gif") {
        OutputKind::Gif
    } else if same_text_ignoring_case(format, "webm-vp9") {
        OutputKind::Webm
    } else {
        OutputKind::Mp4
    }
}

/// The ending that a kind of export has in its name.
pub open spec fn kind_extension(kind: OutputKind) -> Seq<char> {
    match kind {
        OutputKind::Gif => "gif"@,
        OutputKind::Webm => "webm"@,
        OutputKind::Mp4 => "mp4"@,
    }
}

/// Among the formats that are accepted, the ending of the name agrees with what is exported.
pub proof fn law_extension_fits_kind(format: Seq<char>)
    requires
        is_format(format),
    ensures
        extension_of(format) == kind_extension(kind_of(format)),
{
    reveal_strlit("mp4-h264");
    reveal_strlit("webm-vp9");
    reveal_strlit("github-gif");
    let gif = "github-gif"@;
    let webm = "webm-vp9"@;
    let mp4 = "mp4-h264"@;
    assert(gif.len() == 10 && webm.len() == 8 && mp4.len() == 8);
    assert(crate::text::lowered(webm).len() == 8 && crate::text::lowered(gif).len() == 10);
    assert(crate::text::lowered(mp4)[0] == 'm');
    assert(crate::text::lowered(webm)[0] == 'w');
    assert(crate::text::lowered(mp4).len() == 8);
}

/// The default options are accepted, for at least one video and while no job runs.
pub proof fn law_defaults_are_accepted(o: SpeedOptions, inputs: nat)
    requires
        inputs > 0,
        is_default(o),
    ensures
        refusal(inputs, false, o) is None,
{
    lemma_constants();
}

/// While a length is aimed at, the multiplier is neither checked nor used.
pub proof fn law_target_length_replaces_multiplier(
    inputs: nat,
    busy: bool,
    o: SpeedOptions,
    multiplier: Real,
    clip_duration: Real,
)
    requires
        o.use_target_length,
    ensures
        refusal(inputs, busy, SpeedOptions { multiplier, ..o }) == refusal(inputs, busy, o),
        speed_of(SpeedOptions { multiplier, ..o }, clip_duration) == speed_of(o, clip_duration),
{
}

/// The number from zero to `high` that is nearest to a number.
pub open spec fn held_within(n: int, high: int) -> int {
    if n < 0 {
        0
    } else if n > high {
        high
    } else {
        n
    }
}

/// The part of a video is the one that was asked for. It begins at the start that was given and ends at
/// the end that was given, as far as they lie in the video; at the beginning and at the end of the
/// video, where none was given. Its length is what lies between, to one part in two to the power of 53,
/// unless that is more than the limit to the length; then it is the limit.
pub proof fn law_clip_follows_request(input: JobInput, source: Real, options: SpeedOptions)
    requires
        source.is_finite(),
        source.value() >= 0,
        input.start_seconds matches Some(s) ==> s.is_number(),
        input.end_seconds matches Some(s) ==> s.is_number(),
    ensures
        clip_start(input, source).value() == (match input.start_seconds {
            Some(s) => held_within(s.value(), source.value()),
            None => 0,
        }),
        clip_end(input, source).value() == (match input.end_seconds {
            Some(s) => held_within(s.value(), source.value()),
            None => source.value(),
        }),
        ({
            let between = clip_end(input, source).value() - clip_start(input, source).value();
            let length = clip_duration(input, source, options);
            let limit = options.clip_seconds;
            let limited = options.use_clip_length && limit.is_number();
            &&& length.is_number()
            &&& limited ==> length.value() <= limit.value()
            &&& 0x20_0000_0000_0000 * (length.value() - between) <= apart(between, 0)
            &&& !(limited && length.value() == limit.value()) ==> 0x20_0000_0000_0000 * (between
                - length.value()) <= apart(between, 0)
        }),
{
    lemma_zero();
    lemma_large();
    let start = clip_start(input, source);
    let end = clip_end(input, source);
    law_clip_lies_in_source(input, source, options);
    lemma_limited_is_finite(start, source);
    lemma_limited_is_finite(end, source);
    lemma_difference_error(end, start, source);
}

/// Where no part is asked for and no limit is set, the whole video is used.
pub proof fn law_whole_video_by_default(input: JobInput, source: Real, options: SpeedOptions)
    requires
        source.is_finite(),
        source.value() >= 0,
        input.start_seconds is None,
        input.end_seconds is None,
        !options.use_clip_length,
    ensures
        clip_start(input, source).value() == 0,
        clip_duration(input, source, options).value() == source.value(),
{
    lemma_zero();
    let start = clip_start(input, source);
    law_difference_is_nearest(source, start, source);
    law_clip_lies_in_source(input, source, options);
    lemma_limited_is_finite(start, source);
    lemma_difference_error(source, start, source);
}

/// A request is accepted exactly where there is a video, no job runs, and: the length aimed at and the
/// limit to the length, where they are used, are not zero or less; the multiplier, where it is used, is
/// from one to ten; the format is one of three; the shorter side is 480, 720, 1080 or 1440; it is reduced
/// by 1, 1.5, 2, 2.5 or 3; the size aimed at, where one is, is from 0.1 to 9.5; and the frame rate is from
/// five to thirty.
pub proof fn law_accepted_exactly_in_range(inputs: nat, busy: bool, o: SpeedOptions)
    ensures
        refusal(inputs, busy, o) is None <==> {
            &&& inputs > 0
            &&& !busy
            &&& o.use_target_length && o.target_seconds.is_number() ==> o.target_seconds.value() > 0
            &&& o.use_clip_length && o.clip_seconds.is_number() ==> o.clip_seconds.value() > 0
            &&& o.use_target_length || (o.multiplier.is_number() && unit() <= o.multiplier.value()
                && o.multiplier.value() <= 10 * unit())
            &&& o.output_format@ == "mp4-h264"@ || o.output_format@ == "webm-vp9"@
                || o.output_format@ == "github-gif"@
            &&& o.output_resolution == 480 || o.output_resolution == 720 || o.output_resolution
                == 1080 || o.output_resolution == 1440
            &&& o.dimension_reduction.is_number()
            &&& o.dimension_reduction.value() == unit() || 2 * o.dimension_reduction.value() == 3
                * unit() || o.dimension_reduction.value() == 2 * unit() || 2
                * o.dimension_reduction.value() == 5 * unit() || o.dimension_reduction.value() == 3
                * unit()
            &&& !o.use_target_size || (o.target_size_mb.is_number() && (Real {
                bits: 0x3fb9_9999_9999_999a,
            }).value() <= o.target_size_mb.value() && 2 * o.target_size_mb.value() <= 19 * unit())
            &&& 5 <= o.gif_fps <= 30
        },
{
}

/// A reduced side times the reduction is the side, but for what rounding down to an even number takes
/// away, and to one part in two to the power of 53. A side is not reduced to less than two.
pub proof fn law_reduction_divides(side: u32, reduction: Real)
    requires
        reduction.is_finite(),
        reduction.value() >= unit(),
        reduction.value() <= 1_000_000 * unit(),
    ensures
        ({
            let r = reduced(side, reduction);
            &&& 0x1f_ffff_ffff_ffff * (side * unit()) <= 0x20_0000_0000_0000 * ((r + 2)
                * reduction.value())
            &&& r > 2 ==> 0x20_0000_0000_0000 * (r * reduction.value()) <= 0x20_0000_0000_0001 * (
            side * unit())
        }),
{
    lemma_large();
    lemma_zero();
    lemma_constants();
    lemma_whole_exact(side as nat);
    let a = whole(side as nat);
    let u = unit();
    let v = a.value();
    let w = reduction.value();
    lemma_unit_is_large();
    let l = pow2(1000) as int;
    assert(v <= l * w) by (nonlinear_arith)
        requires
            v == side * u,
            side <= l,
            w >= u,
            u > 0,
    ;
    if side > 0 {
        assert(v * u >= 0x10_0000_0000_0000 * w) by (nonlinear_arith)
            requires
                v == side * u,
                side >= 1,
                w <= 1_000_000 * u,
                u >= 0x1_0000_0000_0000_0000_0000_0000_0000_0000_0000_0000,
        ;
    } else {
        assert(v == 0) by (nonlinear_arith)
            requires
                v == side * u,
                side == 0,
        ;
    }
    lemma_quotient_error(a, reduction);
    let q = quotient(a, reduction).value();
    let f = q / u;
    assert(f * u <= q < f * u + u) by (nonlinear_arith)
        requires
            f == q / u,
            u > 0,
    ;
    let r = reduced(side, reduction) as int;
    let s = side as int;
    lemma_quotient_at_most(side, reduction);
    assert(f <= s) by (nonlinear_arith)
        requires
            f * u <= q,
            q <= s * u,
            u > 0,
    ;
    assert(r <= f || r == 2);
    assert(0x1f_ffff_ffff_ffff * (s * u) <= 0x20_0000_0000_0000 * ((r + 2) * w))
        by (nonlinear_arith)
        requires
            0x1f_ffff_ffff_ffff * (v * u) <= 0x20_0000_0000_0000 * (q * w),
            v == s * u,
            q < f * u + u,
            f + 1 <= r + 2,
            w > 0,
            u > 0,
    ;
    if r > 2 {
        assert(0x20_0000_0000_0000 * (r * w) <= 0x20_0000_0000_0001 * (s * u)) by (nonlinear_arith)
            requires
                0x20_0000_0000_0000 * (q * w) <= 0x20_0000_0000_0001 * (v * u),
                v == s * u,
                f * u <= q,
                r <= f,
                w > 0,
                u > 0,
        ;
    }
}

/// Where a length is aimed at that is below that of the part, the speed times the length aimed at is the
/// length of the part, to one part in two to the power of 53. Where no length is aimed at, the speed is
/// the multiplier. A length is refused exactly where it is not below that of the part.
pub proof fn law_target_length_is_met(options: SpeedOptions, clip_duration: Real)
    requires
        clip_duration.is_finite(),
        options.target_seconds.is_finite(),
        0 < options.target_seconds.value(),
        clip_duration.value() <= pow2(1000) * options.target_seconds.value(),
    ensures
        !options.use_target_length ==> speed_of(options, clip_duration) == Some(options.multiplier),
        options.use_target_length ==> (speed_of(options, clip_duration) is None
            <==> clip_duration.value() <= options.target_seconds.value()),
        options.use_target_length ==> (speed_of(options, clip_duration) matches Some(speed) ==> {
            let reached = speed.value() * options.target_seconds.value();
            let wanted = clip_duration.value() * unit();
            &&& speed.is_finite()
            &&& 0x20_0000_0000_0000 * reached <= 0x20_0000_0000_0001 * wanted
            &&& 0x1f_ffff_ffff_ffff * wanted <= 0x20_0000_0000_0000 * reached
        }),
{
    lemma_large();
    lemma_constants();
    lemma_zero();
    let target = options.target_seconds;
    let c = clip_duration.value();
    let t = target.value();
    let u = unit();
    if options.use_target_length && c > t {
        lemma_unit_is_large();
        assert(c * u >= 0x10_0000_0000_0000 * t) by (nonlinear_arith)
            requires
                c >= t,
                t > 0,
                u >= 0x10_0000_0000_0000,
        ;
        lemma_quotient_error(clip_duration, target);
    }
}

/// Where a length is aimed at that is below that of the part, an export at the speed lasts as long as
/// that, to one part in a thousand millions. The length has to be above the smallest that a double with
/// all of its digits can hold.
pub proof fn law_export_lasts_as_long_as_aimed(options: SpeedOptions, clip_duration: Real)
    requires
        options.use_target_length,
        clip_duration.is_finite(),
        options.target_seconds.is_finite(),
        0x40_0000_0000_0000 <= options.target_seconds.value() < clip_duration.value(),
        clip_duration.value() <= pow2(1000) * options.target_seconds.value(),
        options.target_seconds.value() <= 0x1000_0000_0000_0000 * unit(),
    ensures
        speed_of(options, clip_duration) matches Some(speed) && {
            let lasts = quotient(clip_duration, speed);
            &&& lasts.is_finite()
            &&& 1_000_000_000 * apart(lasts.value(), options.target_seconds.value())
                <= options.target_seconds.value()
        },
{
    law_target_length_is_met(options, clip_duration);
    law_target_length_never_slows(options, clip_duration);
    lemma_large();
    lemma_zero();
    let speed = speed_of(options, clip_duration)->0;
    let c = clip_duration.value();
    let t = options.target_seconds.value();
    let s = speed.value();
    let u = unit();
    lemma_unit_is_large();
    let l = pow2(1000) as int;
    assert(c <= 0x2000_0000_0000_0000 * s) by (nonlinear_arith)
        requires
            0x1f_ffff_ffff_ffff * (c * u) <= 0x20_0000_0000_0000 * (s * t),
            0 < t <= 0x1000_0000_0000_0000 * u,
            s >= u,
            u > 0,
            c > 0,
    ;
    assert(0x2000_0000_0000_0000 * s <= l * s) by (nonlinear_arith)
        requires
            l >= 0x2000_0000_0000_0000,
            s > 0,
    ;
    assert(c * u > 0) by (nonlinear_arith)
        requires
            c > 0,
            u > 0,
    ;
    assert(c * u >= 0x10_0000_0000_0000 * s) by (nonlinear_arith)
        requires
            0x20_0000_0000_0000 * (s * t) <= 0x20_0000_0000_0001 * (c * u),
            t >= 0x40_0000_0000_0000,
            s > 0,
            c * u > 0,
    ;
    lemma_quotient_error(clip_duration, speed);
    let q = quotient(clip_duration, speed).value();
    assert(0x1f_ffff_ffff_ffff * q <= 0x20_0000_0000_0001 * t) by (nonlinear_arith)
        requires
            0x20_0000_0000_0000 * (q * s) <= 0x20_0000_0000_0001 * (c * u),
            0x1f_ffff_ffff_ffff * (c * u) <= 0x20_0000_0000_0000 * (s * t),
            s > 0,
    ;
    assert(0x20_0000_0000_0001 * q >= 0x1f_ffff_ffff_ffff * t) by (nonlinear_arith)
        requires
            0x1f_ffff_ffff_ffff * (c * u) <= 0x20_0000_0000_0000 * (q * s),
            0x20_0000_0000_0000 * (s * t) <= 0x20_0000_0000_0001 * (c * u),
            s > 0,
    ;
}

/// Where a length is aimed at, an export is never slower than its source. The length of the part and
/// the length aimed at have to be numbers, and the latter not negative.
pub proof fn law_target_length_never_slows(options: SpeedOptions, clip_duration: Real)
    requires
        options.use_target_length,
        clip_duration.is_number(),
        options.target_seconds.is_number(),
        !options.target_seconds.is_negative(),
    ensures
        speed_of(options, clip_duration) matches Some(speed) ==> speed.is_number() && speed.value()
            >= unit(),
{
    lemma_constants();
    lemma_zero();
    crate::double::lemma_infinity();
    let target = options.target_seconds;
    if !clip_duration.at_most(target) {
        let c = magnitude_value(clip_duration.magnitude());
        let t = magnitude_value(target.magnitude());
        let u = unit() as nat;
        if target.is_finite() && clip_duration.is_finite() && target.magnitude() > 0 {
            lemma_magnitudes_ordered(0, target.magnitude());
            assert(c * u >= u * t) by (nonlinear_arith)
                requires
                    c >= t,
            ;
            lemma_rounded_at_least(c * u, t, ONE as nat);
            let bits = rounded(c * u, t);
            if bits > ONE {
                lemma_magnitudes_ordered(ONE as nat, bits as nat);
            }
        } else if !target.is_finite() && clip_duration.is_finite() {
            lemma_magnitudes_ordered(clip_duration.magnitude(), INFINITY as nat);
        }
    }
}

/// Of an accepted request: the speed, the format, the size of the picture and the frame rate are
/// in their ranges, and the lengths aimed at are not zero or less.
pub proof fn law_accepted_is_in_range(inputs: nat, busy: bool, o: SpeedOptions)
    requires
        refusal(inputs, busy, o) is None,
    ensures
        inputs > 0,
        !busy,
        o.use_target_length ==> !is_no_time(o.target_seconds),
        o.use_clip_length ==> !is_no_time(o.clip_seconds),
        !o.use_target_length ==> is_multiplier(o.multiplier),
        is_format(o.output_format@),
        is_resolution(o.output_resolution),
        reduction_halves(o.dimension_reduction) is Some,
        o.use_target_size ==> is_target_size(o.target_size_mb),
        MIN_GIF_FPS <= o.gif_fps <= MAX_GIF_FPS,
        160 <= reduced(o.output_resolution, o.dimension_reduction) <= 1440,
{
    lemma_constants();
    crate::double::lemma_infinity();
    let side = o.output_resolution;
    let r = o.dimension_reduction;
    law_reduced_side(side, r);
    let u = unit();
    let v = r.value();
    assert(160 * v <= side * u) by (nonlinear_arith)
        requires
            side >= 480,
            v <= 3 * u,
            u > 0,
    ;
    lemma_quotient_at_least(side, r, 160);
}

} // verus!
