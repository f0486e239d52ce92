//! Command lines of the programs that probe and convert videos.

use crate::arithmetic::apart;
use crate::double::{
    lemma_constants, lemma_halved, lemma_same_value, lemma_zero, unit, Real, HALF, INFINITY, TWO,
};
use crate::notation::{
    fixed, fixed_text, law_notation_is_near, law_notations_tell_numbers_apart, stands_for, ten_to,
};
use crate::text::{
    all_digits, cat2, cat3, cat5, decimal, digits_value, lemma_decimal_digits, lemma_decimal_value,
    number,
};
use crate::video::VideoClip;
use vstd::prelude::*;

verus! {

/// An argument of a command line.
pub enum Arg {
    /// The text itself.
    Text(String),
    /// The path of the video that is read.
    Input,
    /// The path of the file that is written.
    Output,
}

/// What an argument says.
pub ghost enum ArgView {
    Text(Seq<char>),
    Input,
    Output,
}

impl View for Arg {
    type V = ArgView;

    open spec fn view(&self) -> ArgView {
        match self {
            Arg::Text(s) => ArgView::Text(s@),
            Arg::Input => ArgView::Input,
            Arg::Output => ArgView::Output,
        }
    }
}

/// What the arguments of a command line say.
pub open spec fn arg_views(args: Seq<Arg>) -> Seq<ArgView> {
    Seq::new(args.len(), |i: int| args[i]@)
}

/// Texts as arguments.
pub open spec fn words(list: Seq<Seq<char>>) -> Seq<ArgView> {
    Seq::new(list.len(), |i: int| ArgView::Text(list[i]))
}

proof fn lemma_views_push(args: Seq<Arg>, arg: Arg)
    ensures
        arg_views(args.push(arg)) == arg_views(args).push(arg@),
{
    assert(arg_views(args.push(arg)) =~= arg_views(args).push(arg@));
}

fn add_word(args: &mut Vec<Arg>, s: &str)
    ensures
        arg_views(final(args)@) == arg_views(old(args)@) + words(seq![s@]),
{
    let arg = Arg::Text(s.to_string());
    proof {
        lemma_views_push(args@, arg);
    }
    args.push(arg);
    assert(arg_views(args@) =~= arg_views(old(args)@) + words(seq![s@]));
}

fn add_2(args: &mut Vec<Arg>, a: &str, b: &str)
    ensures
        arg_views(final(args)@) == arg_views(old(args)@) + words(seq![a@, b@]),
{
    add_word(args, a);
    add_word(args, b);
    assert(arg_views(args@) =~= arg_views(old(args)@) + words(seq![a@, b@]));
}

fn add_4(args: &mut Vec<Arg>, a: &str, b: &str, c: &str, d: &str)
    ensures
        arg_views(final(args)@) == arg_views(old(args)@) + words(seq![a@, b@, c@, d@]),
{
    add_2(args, a, b);
    add_2(args, c, d);
    assert(arg_views(args@) =~= arg_views(old(args)@) + words(seq![a@, b@, c@, d@]));
}

fn add_path(args: &mut Vec<Arg>, arg: Arg)
    ensures
        arg_views(final(args)@) == arg_views(old(args)@) + seq![arg@],
{
    proof {
        lemma_views_push(args@, arg);
    }
    args.push(arg);
    assert(arg_views(args@) =~= arg_views(old(args)@) + seq![arg@]);
}

// ---------------------------------------------------------------------------------------------
// Probing
// ---------------------------------------------------------------------------------------------

/// The arguments that ask for a property of a video, in a notation.
pub open spec fn probe_args(streams: Option<Seq<char>>, entries: Seq<char>, notation: Seq<char>) -> Seq<
    ArgView,
> {
    let select = match streams {
        Some(s) => seq!["-select_streams"@, s],
        None => seq![],
    };
    words(seq!["-v"@, "error"@] + select + seq!["-show_entries"@, entries, "-of"@, notation])
        + seq![ArgView::Input]
}

/// The arguments that ask for the length of a video.
pub fn duration_args() -> (r: Vec<Arg>)
    ensures
        arg_views(r@) == probe_args(
            None,
            "format=duration"@,
            "default=noprint_wrappers=1:nokey=1"@,
        ),
{
    let mut args: Vec<Arg> = Vec::new();
    add_2(&mut args, "-v", "error");
    add_4(
        &mut args,
        "-show_entries",
        "format=duration",
        "-of",
        "default=noprint_wrappers=1:nokey=1",
    );
    add_path(&mut args, Arg::Input);
    assert(arg_views(args@) =~= probe_args(
        None,
        "format=duration"@,
        "default=noprint_wrappers=1:nokey=1"@,
    ));
    args
}

/// The arguments that ask for the sound of a video.
pub fn audio_args() -> (r: Vec<Arg>)
    ensures
        arg_views(r@) == probe_args(Some("a"@), "stream=index"@, "csv=p=0"@),
{
    let mut args: Vec<Arg> = Vec::new();
    add_4(&mut args, "-v", "error", "-select_streams", "a");
    add_4(&mut args, "-show_entries", "stream=index", "-of", "csv=p=0");
    add_path(&mut args, Arg::Input);
    assert(arg_views(args@) =~= probe_args(Some("a"@), "stream=index"@, "csv=p=0"@));
    args
}

/// The arguments that ask for the width and the height of a video.
pub fn resolution_args() -> (r: Vec<Arg>)
    ensures
        arg_views(r@) == probe_args(Some("v:0"@), "stream=width,height"@, "csv=s=x:p=0"@),
{
    let mut args: Vec<Arg> = Vec::new();
    add_4(&mut args, "-v", "error", "-select_streams", "v:0");
    add_4(&mut args, "-show_entries", "stream=width,height", "-of", "csv=s=x:p=0");
    add_path(&mut args, Arg::Input);
    assert(arg_views(args@) =~= probe_args(
        Some("v:0"@),
        "stream=width,height"@,
        "csv=s=x:p=0"@,
    ));
    args
}

/// The arguments that ask for the picture at a moment, in seconds.
pub open spec fn preview_args_of(seconds: Real) -> Seq<ArgView> {
    words(
        seq![
            "-hide_banner"@,
            "-loglevel"@,
            "error"@,
            "-nostdin"@,
            "-ss"@,
            fixed_text(seconds, 3),
            "-i"@,
        ],
    ) + seq![ArgView::Input] + words(
        seq![
            "-frames:v"@,
            "1"@,
            "-vf"@,
            "scale=w='if(gte(iw\\,ih)\\,160\\,-2)':h='if(gte(iw\\,ih)\\,-2\\,90)':flags=lanczos"@,
            "-f"@,
            "image2pipe"@,
            "-vcodec"@,
            "mjpeg"@,
            "pipe:1"@,
        ],
    )
}

/// The arguments that ask for the picture at a moment, in seconds.
pub fn preview_args(seconds: Real) -> (r: Vec<Arg>)
    ensures
        arg_views(r@) == preview_args_of(seconds),
{
    let mut args: Vec<Arg> = Vec::new();
    add_4(&mut args, "-hide_banner", "-loglevel", "error", "-nostdin");
    add_2(&mut args, "-ss", fixed(seconds, 3).as_str());
    add_word(&mut args, "-i");
    add_path(&mut args, Arg::Input);
    add_4(
        &mut args,
        "-frames:v",
        "1",
        "-vf",
        "scale=w='if(gte(iw\\,ih)\\,160\\,-2)':h='if(gte(iw\\,ih)\\,-2\\,90)':flags=lanczos",
    );
    add_4(&mut args, "-f", "image2pipe", "-vcodec", "mjpeg");
    add_word(&mut args, "pipe:1");
    assert(arg_views(args@) =~= preview_args_of(seconds));
    args
}

// ---------------------------------------------------------------------------------------------
// Filters
// ---------------------------------------------------------------------------------------------

/// The filter that makes the shorter side at most `side` long and keeps the proportions.
pub open spec fn scale_filter(side: nat) -> Seq<char> {
    "scale=w='if(gte(iw\\,ih)\\,-2\\,min("@ + decimal(side)
        + "\\,iw))':h='if(gte(iw\\,ih)\\,min("@ + decimal(side) + "\\,ih)\\,-2)':flags=lanczos"@
}

/// The filter that makes the shorter side at most `output_resolution` long.
pub fn resolution_filter(output_resolution: u32) -> (r: String)
    ensures
        r@ == scale_filter(output_resolution as nat),
{
    let side = number(output_resolution as u64);
    cat5(
        "scale=w='if(gte(iw\\,ih)\\,-2\\,min(",
        side.as_str(),
        "\\,iw))':h='if(gte(iw\\,ih)\\,min(",
        side.as_str(),
        "\\,ih)\\,-2)':flags=lanczos",
    )
}

/// The filter that makes a picture at most 960 wide, keeps the proportions, and leaves a narrower
/// picture as wide as it is.
pub open spec fn gif_scale_filter() -> Seq<char> {
    "scale=w='min(960\\,iw)':h=-2:flags=lanczos"@
}

/// The filters of an animation whose picture is scaled by `scale`.
pub open spec fn animation_filter(speed: Real, fps: nat, scale: Seq<char>) -> Seq<char> {
    "[0:v:0]setpts=PTS/"@ + fixed_text(speed, 8) + ",fps="@ + decimal(fps) + ","@ + scale
        + ",split[p0][p1];[p0]palettegen=stats_mode=diff[p];[p1][p]paletteuse=dither=bayer:bayer_scale=5"@
}

/// The filters of an animation: at most 960 wide.
pub open spec fn gif_filter_of(speed: Real, fps: nat) -> Seq<char> {
    animation_filter(speed, fps, gif_scale_filter())
}

/// The filters of an animation that came out too large: at most 960 wide, and then with a shorter
/// side of at most `side`.
pub open spec fn smaller_gif_filter_of(speed: Real, side: nat, fps: nat) -> Seq<char> {
    animation_filter(speed, fps, gif_scale_filter() + ","@ + scale_filter(side))
}

fn filter_animation(speed: Real, fps: u32, scale: &str) -> (r: String)
    ensures
        r@ == animation_filter(speed, fps as nat, scale@),
{
    let mut s = cat5(
        "[0:v:0]setpts=PTS/",
        fixed(speed, 8).as_str(),
        ",fps=",
        number(fps as u64).as_str(),
        ",",
    );
    s.append(scale);
    s.append(
        ",split[p0][p1];[p0]palettegen=stats_mode=diff[p];[p1][p]paletteuse=dither=bayer:bayer_scale=5",
    );
    s
}

/// The filters of an animation.
pub fn github_gif_filter(speed: Real, fps: u32) -> (r: String)
    ensures
        r@ == gif_filter_of(speed, fps as nat),
{
    filter_animation(speed, fps, "scale=w='min(960\\,iw)':h=-2:flags=lanczos")
}

/// The filters of an animation that came out too large.
pub fn smaller_gif_filter(speed: Real, side: u32, fps: u32) -> (r: String)
    ensures
        r@ == smaller_gif_filter_of(speed, side as nat, fps as nat),
{
    let scale = cat3(
        "scale=w='min(960\\,iw)':h=-2:flags=lanczos",
        ",",
        resolution_filter(side).as_str(),
    );
    filter_animation(speed, fps, scale.as_str())
}

/// The filters of a video.
pub open spec fn video_filter_of(speed: Real, side: nat) -> Seq<char> {
    "setpts=PTS/"@ + fixed_text(speed, 8) + ","@ + scale_filter(side)
}

// ---------------------------------------------------------------------------------------------
// Tempo
// ---------------------------------------------------------------------------------------------

/// A speed as a product: `twos` times a factor of two, `halves` times a factor of one half, and
/// the rest.
#[derive(Clone, Copy, Debug, PartialEq, Eq, Structural)]
pub struct TempoSplit {
    pub twos: u64,
    pub halves: u64,
    pub rest: Real,
}

/// Two to a power.
pub open spec fn power_of_two(n: nat) -> int
    decreases n,
{
    if n == 0 {
        1
    } else {
        2 * power_of_two((n - 1) as nat)
    }
}

/// Whether a split is that of a speed: the rest is from one half to two, and no factor is more than
/// it takes. What is not a positive number is not split.
pub open spec fn is_tempo_split(speed: Real, r: TempoSplit) -> bool {
    if speed.is_number() && speed.value() > 0 {
        &&& r.rest.is_finite()
        &&& unit() <= 2 * r.rest.value() <= 4 * unit()
        &&& r.twos > 0 <==> speed.value() > 2 * unit()
        &&& r.halves > 0 <==> 2 * speed.value() < unit()
        &&& speed.value() * power_of_two(r.halves as nat) == r.rest.value() * power_of_two(
            r.twos as nat,
        )
        &&& r.twos > 0 ==> r.rest.value() > unit()
        &&& r.halves > 0 ==> r.rest.value() < unit()
    } else {
        r == (TempoSplit { twos: 0, halves: 0, rest: speed })
    }
}

/// The split of a speed.
pub open spec fn tempo_split_of(speed: Real) -> TempoSplit {
    choose|r: TempoSplit| is_tempo_split(speed, r)
}

proof fn lemma_powers_ordered(a: nat, b: nat)
    requires
        a < b,
    ensures
        2 * power_of_two(a) <= power_of_two(b),
        power_of_two(a) > 0,
    decreases b,
{
    if a + 1 < b {
        lemma_powers_ordered(a, (b - 1) as nat);
    } else {
        lemma_power_positive(a);
    }
}

proof fn lemma_power_positive(a: nat)
    ensures
        power_of_two(a) > 0,
    decreases a,
{
    if a > 0 {
        lemma_power_positive((a - 1) as nat);
    }
}

/// A speed has only one split.
pub proof fn law_tempo_split_is_unique(speed: Real, a: TempoSplit, b: TempoSplit)
    requires
        is_tempo_split(speed, a),
        is_tempo_split(speed, b),
    ensures
        a == b,
{
    if speed.is_number() && speed.value() > 0 {
        lemma_constants();
        lemma_splits_agree(speed, a, b);
        lemma_splits_agree(speed, b, a);
        let p = power_of_two(a.twos as nat);
        lemma_power_positive(a.twos as nat);
        assert(a.rest.value() == b.rest.value()) by (nonlinear_arith)
            requires
                a.rest.value() * p == b.rest.value() * p,
                p > 0,
        ;
        lemma_same_value(a.rest, b.rest);
    }
}

proof fn lemma_splits_agree(speed: Real, a: TempoSplit, b: TempoSplit)
    requires
        is_tempo_split(speed, a),
        is_tempo_split(speed, b),
        speed.is_number(),
        speed.value() > 0,
        unit() > 0,
    ensures
        a.twos <= b.twos,
        a.halves <= b.halves,
{
    let v = speed.value();
    let x = a.rest.value();
    let y = b.rest.value();
    let u = unit();
    if a.twos > b.twos {
        lemma_powers_ordered(b.twos as nat, a.twos as nat);
        let p = power_of_two(a.twos as nat);
        let q = power_of_two(b.twos as nat);
        assert(power_of_two(0) == 1);
        assert(x * p > y * q) by (nonlinear_arith)
            requires
                x > u,
                y <= 2 * u,
                p >= 2 * q,
                q > 0,
                u > 0,
        ;
    }
    if a.halves > b.halves {
        lemma_powers_ordered(b.halves as nat, a.halves as nat);
        let p = power_of_two(a.halves as nat);
        let q = power_of_two(b.halves as nat);
        assert(power_of_two(0) == 1);
        assert(x * 1 == x && y * 1 == y);
        assert(2 * (v * q) <= v * p) by (nonlinear_arith)
            requires
                p >= 2 * q,
                v > 0,
        ;
    }
}

/// Splits a speed so that the rest is from one half to two. Infinity has no such split.
pub fn tempo_split(speed: Real) -> (r: TempoSplit)
    requires
        speed.bits != INFINITY,
    ensures
        is_tempo_split(speed, r),
        r == tempo_split_of(speed),
{
    proof {
        lemma_constants();
        lemma_zero();
    }
    let mut rest = speed;
    let mut twos: u64 = 0;
    let mut halves: u64 = 0;
    if !(Real { bits: 0 }).lt(speed) {
        let split = TempoSplit { twos, halves, rest };
        proof {
            law_tempo_split_is_unique(speed, split, tempo_split_of(speed));
        }
        return split;
    }
    let two = Real { bits: TWO };
    let half = Real { bits: HALF };
    assert(speed.value() * 1 == speed.value());
    while two.lt(rest)
        invariant
            rest.is_finite(),
            rest.value() > 0,
            two.is_number(),
            two.value() == 2 * unit(),
            unit() > 0,
            twos + rest.bits <= speed.bits,
            speed.value() == rest.value() * power_of_two(twos as nat),
            twos > 0 ==> rest.value() > unit() && speed.value() > 2 * unit(),
            twos == 0 ==> rest == speed,
        decreases rest.bits,
    {
        let next = rest.half();
        assert(rest.value() * power_of_two(twos as nat) == next.value() * power_of_two(
            (twos + 1) as nat,
        )) by (nonlinear_arith)
            requires
                rest.value() == 2 * next.value(),
                power_of_two((twos + 1) as nat) == 2 * power_of_two(twos as nat),
        ;
        rest = next;
        twos += 1;
    }
    while rest.lt(half)
        invariant
            rest.is_finite(),
            rest.value() > 0,
            rest.value() <= 2 * unit(),
            half.is_number(),
            2 * half.value() == unit(),
            unit() > 0,
            halves <= rest.bits,
            twos > 0 ==> rest.value() > unit() && speed.value() > 2 * unit() && halves == 0,
            twos == 0 && halves == 0 ==> rest == speed,
            halves > 0 ==> 2 * speed.value() < unit(),
            twos == 0 ==> speed.value() <= 2 * unit(),
            twos > 0 ==> speed.value() == rest.value() * power_of_two(twos as nat),
            twos == 0 ==> speed.value() * power_of_two(halves as nat) == rest.value(),
            halves > 0 ==> rest.value() < unit(),
        decreases u64::MAX - rest.bits,
    {
        let next = rest.double();
        assert(speed.value() * power_of_two((halves + 1) as nat) == 2 * (speed.value()
            * power_of_two(halves as nat))) by (nonlinear_arith)
            requires
                power_of_two((halves + 1) as nat) == 2 * power_of_two(halves as nat),
        ;
        rest = next;
        halves += 1;
    }
    assert(power_of_two(0) == 1);
    assert(rest.value() * 1 == rest.value());
    let split = TempoSplit { twos, halves, rest };
    proof {
        assert(is_tempo_split(speed, split));
        law_tempo_split_is_unique(speed, split, tempo_split_of(speed));
    }
    split
}

/// A text a number of times.
pub open spec fn repeated(s: Seq<char>, n: nat) -> Seq<char>
    decreases n,
{
    if n == 0 {
        Seq::empty()
    } else {
        repeated(s, (n - 1) as nat) + s
    }
}

/// The filters that change the tempo of sound by a speed.
pub open spec fn tempo_filters(speed: Real) -> Seq<char> {
    let split = tempo_split_of(speed);
    if speed.is_number() && speed.value() <= 0 {
        "atempo=1.0"@
    } else {
        repeated("atempo=2.0,"@, split.twos as nat) + repeated("atempo=0.5,"@, split.halves as nat)
            + "atempo="@ + fixed_text(split.rest, 6)
    }
}

fn append_times(s: &mut String, part: &str, n: u64)
    ensures
        final(s)@ == old(s)@ + repeated(part@, n as nat),
{
    let mut i: u64 = 0;
    let ghost start = s@;
    assert(start + repeated(part@, 0) =~= start);
    while i < n
        invariant
            i <= n,
            s@ == start + repeated(part@, i as nat),
        decreases n - i,
    {
        s.append(part);
        i += 1;
        assert(s@ =~= start + repeated(part@, i as nat));
    }
}

/// The filters that change the tempo of sound by a speed. Infinity has none.
pub fn atempo_chain(speed: Real) -> (r: String)
    requires
        speed.bits != INFINITY,
    ensures
        r@ == tempo_filters(speed),
{
    proof {
        lemma_zero();
    }
    if speed.le(Real { bits: 0 }) {
        return "atempo=1.0".to_string();
    }
    let split = tempo_split(speed);
    let mut s = String::new();
    append_times(&mut s, "atempo=2.0,", split.twos);
    append_times(&mut s, "atempo=0.5,", split.halves);
    s.append("atempo=");
    s.append(fixed(split.rest, 6).as_str());
    assert(s@ =~= tempo_filters(speed));
    s
}

// ---------------------------------------------------------------------------------------------
// Passes
// ---------------------------------------------------------------------------------------------

/// The arguments that name the part of the video.
pub open spec fn clip_args(clip: VideoClip) -> Seq<ArgView> {
    words(seq!["-hide_banner"@, "-nostdin"@, "-y"@]) + (if clip.start.is_number()
        && clip.start.value() > 0 {
        words(seq!["-ss"@, fixed_text(clip.start, 6)])
    } else {
        Seq::empty()
    }) + words(seq!["-t"@, fixed_text(clip.duration, 6), "-i"@]) + seq![ArgView::Input]
}

fn add_clip(args: &mut Vec<Arg>, clip: VideoClip)
    ensures
        arg_views(final(args)@) == arg_views(old(args)@) + clip_args(clip),
{
    proof {
        lemma_zero();
    }
    let ghost before = arg_views(args@);
    add_2(args, "-hide_banner", "-nostdin");
    add_word(args, "-y");
    if (Real { bits: 0 }).lt(clip.start) {
        add_2(args, "-ss", fixed(clip.start, 6).as_str());
    }
    add_2(args, "-t", fixed(clip.duration, 6).as_str());
    add_word(args, "-i");
    add_path(args, Arg::Input);
    assert(arg_views(args@) =~= before + clip_args(clip));
}

/// A pass over a video.
pub struct VideoPass {
    /// The part of the video, and its speed.
    pub clip: VideoClip,
    /// The length of the shorter side.
    pub output_resolution: u32,
    /// Whether the export is silent though the video is not.
    pub strip_audio: bool,
    /// Whether the video has sound.
    pub has_audio: bool,
    /// Whether the encoding is VP9 in place of H.264.
    pub webm_vp9: bool,
    /// The bit rate, in thousands of bits a second, where a size is aimed at.
    pub target_video_kbps: Option<u32>,
}

/// A bit rate as an argument.
pub open spec fn rate(kbps: nat) -> Seq<char> {
    decimal(kbps) + "k"@
}

/// Twice a bit rate, as far as it can be held.
pub open spec fn twice(kbps: u32) -> nat {
    if 2 * kbps > u32::MAX {
        u32::MAX as nat
    } else {
        2 * kbps as nat
    }
}

/// The arguments that name the encoding of the picture.
pub open spec fn codec_args(webm_vp9: bool, kbps: Option<u32>) -> Seq<ArgView> {
    if webm_vp9 {
        words(seq!["-c:v"@, "libvpx-vp9"@]) + (match kbps {
            Some(k) => words(seq!["-b:v"@, rate(k as nat)]),
            None => words(seq!["-crf"@, "32"@, "-b:v"@, "0"@]),
        })
    } else {
        words(seq!["-c:v"@, "libx264"@, "-preset"@, "medium"@]) + (match kbps {
            Some(k) => words(
                seq![
                    "-b:v"@,
                    rate(k as nat),
                    "-maxrate"@,
                    rate(k as nat),
                    "-bufsize"@,
                    rate(twice(k)),
                ],
            ),
            None => words(seq!["-crf"@, "20"@]),
        })
    }
}

/// The arguments that name the encoding of the sound.
pub open spec fn sound_args(silent: bool, speed: Real, webm_vp9: bool) -> Seq<ArgView> {
    if silent {
        words(seq!["-an"@])
    } else {
        words(seq!["-map"@, "0:a?"@, "-filter:a"@, tempo_filters(speed)]) + (if webm_vp9 {
            words(seq!["-c:a"@, "libopus"@, "-b:a"@, "128k"@])
        } else {
            words(seq!["-c:a"@, "aac"@, "-b:a"@, "192k"@])
        })
    }
}

/// The arguments of a pass over a video.
pub open spec fn video_args(p: VideoPass) -> Seq<ArgView> {
    clip_args(p.clip) + words(
        seq![
            "-map"@,
            "0:v:0"@,
            "-filter:v"@,
            video_filter_of(p.clip.speed, p.output_resolution as nat),
        ],
    ) + codec_args(p.webm_vp9, p.target_video_kbps) + sound_args(
        p.strip_audio || !p.has_audio,
        p.clip.speed,
        p.webm_vp9,
    ) + (if p.webm_vp9 {
        Seq::empty()
    } else {
        words(seq!["-movflags"@, "+faststart"@])
    }) + words(seq!["-progress"@, "pipe:1"@, "-nostats"@]) + seq![ArgView::Output]
}

fn add_codec(args: &mut Vec<Arg>, webm_vp9: bool, kbps: Option<u32>)
    ensures
        arg_views(final(args)@) == arg_views(old(args)@) + codec_args(webm_vp9, kbps),
{
    let ghost before = arg_views(args@);
    if webm_vp9 {
        add_2(args, "-c:v", "libvpx-vp9");
        match kbps {
            Some(k) => {
                add_2(args, "-b:v", cat2(number(k as u64).as_str(), "k").as_str());
            },
            None => {
                add_4(args, "-crf", "32", "-b:v", "0");
            },
        }
    } else {
        add_4(args, "-c:v", "libx264", "-preset", "medium");
        match kbps {
            Some(k) => {
                let text = cat2(number(k as u64).as_str(), "k");
                let doubled: u32 = if k > u32::MAX / 2 {
                    u32::MAX
                } else {
                    2 * k
                };
                add_4(args, "-b:v", text.as_str(), "-maxrate", text.as_str());
                add_2(args, "-bufsize", cat2(number(doubled as u64).as_str(), "k").as_str());
            },
            None => {
                add_2(args, "-crf", "20");
            },
        }
    }
    assert(arg_views(args@) =~= before + codec_args(webm_vp9, kbps));
}

fn add_sound(args: &mut Vec<Arg>, silent: bool, speed: Real, webm_vp9: bool)
    requires
        silent || speed.bits != INFINITY,
    ensures
        arg_views(final(args)@) == arg_views(old(args)@) + sound_args(silent, speed, webm_vp9),
{
    let ghost before = arg_views(args@);
    if silent {
        add_word(args, "-an");
    } else {
        add_4(args, "-map", "0:a?", "-filter:a", atempo_chain(speed).as_str());
        if webm_vp9 {
            add_4(args, "-c:a", "libopus", "-b:a", "128k");
        } else {
            add_4(args, "-c:a", "aac", "-b:a", "192k");
        }
    }
    assert(arg_views(args@) =~= before + sound_args(silent, speed, webm_vp9));
}

/// The arguments of a pass over a video. Sound cannot be made infinitely fast.
pub fn video_pass_args(pass: &VideoPass) -> (r: Vec<Arg>)
    requires
        pass.strip_audio || !pass.has_audio || pass.clip.speed.bits != INFINITY,
    ensures
        arg_views(r@) == video_args(*pass),
{
    let mut args: Vec<Arg> = Vec::new();
    add_clip(&mut args, pass.clip);
    let scale = resolution_filter(pass.output_resolution);
    let mut filter = cat3("setpts=PTS/", fixed(pass.clip.speed, 8).as_str(), ",");
    filter.append(scale.as_str());
    add_4(&mut args, "-map", "0:v:0", "-filter:v", filter.as_str());
    add_codec(&mut args, pass.webm_vp9, pass.target_video_kbps);
    add_sound(
        &mut args,
        pass.strip_audio || !pass.has_audio,
        pass.clip.speed,
        pass.webm_vp9,
    );
    if !pass.webm_vp9 {
        add_2(&mut args, "-movflags", "+faststart");
    }
    add_2(&mut args, "-progress", "pipe:1");
    add_word(&mut args, "-nostats");
    add_path(&mut args, Arg::Output);
    assert(arg_views(args@) =~= video_args(*pass));
    args
}

/// The arguments of a pass over an animation. Its shorter side is limited only where it came out too
/// large before.
pub open spec fn gif_args(clip: VideoClip, side: Option<u32>, fps: u32) -> Seq<ArgView> {
    clip_args(clip) + words(
        seq![
            "-filter_complex"@,
            match side {
                None => gif_filter_of(clip.speed, fps as nat),
                Some(s) => smaller_gif_filter_of(clip.speed, s as nat, fps as nat),
            },
            "-loop"@,
            "0"@,
            "-an"@,
            "-progress"@,
            "pipe:1"@,
            "-nostats"@,
        ],
    ) + seq![ArgView::Output]
}

/// The arguments of a pass over an animation.
pub fn gif_pass_args(clip: VideoClip, side: Option<u32>, fps: u32) -> (r: Vec<Arg>)
    ensures
        arg_views(r@) == gif_args(clip, side, fps),
{
    let mut args: Vec<Arg> = Vec::new();
    add_clip(&mut args, clip);
    let filter = match side {
        None => github_gif_filter(clip.speed, fps),
        Some(s) => smaller_gif_filter(clip.speed, s, fps),
    };
    add_4(&mut args, "-filter_complex", filter.as_str(), "-loop", "0");
    add_4(&mut args, "-an", "-progress", "pipe:1", "-nostats");
    add_path(&mut args, Arg::Output);
    assert(arg_views(args@) =~= gif_args(clip, side, fps));
    args
}

/// Whether an argument follows a name in a command line.
pub open spec fn has_option(args: Seq<ArgView>, name: Seq<char>, value: ArgView) -> bool {
    exists|i: int|
        0 <= i < args.len() - 1 && #[trigger] args[i] == ArgView::Text(name) && args[i + 1] == value
}

/// Whether a text is a number in decimal notation.
pub open spec fn is_number_text(s: Seq<char>, n: nat) -> bool {
    all_digits(s) && digits_value(s) == n
}

/// Whether a text is the filter that limits the shorter side of a picture to a length.
pub open spec fn limits_side(s: Seq<char>, side: nat) -> bool {
    exists|n: Seq<char>| #[trigger]
        is_number_text(n, side) && s == "scale=w='if(gte(iw\\,ih)\\,-2\\,min("@ + n
            + "\\,iw))':h='if(gte(iw\\,ih)\\,min("@ + n + "\\,ih)\\,-2)':flags=lanczos"@
}

/// Whether a text is a number in fixed notation that stands for `a`, as an argument after a name.
pub open spec fn has_number(args: Seq<ArgView>, name: Seq<char>, a: Real, decimals: nat) -> bool {
    exists|n: Seq<char>| #[trigger]
        stands_for(n, a, decimals) && has_option(args, name, ArgView::Text(n))
}

/// Whether a bit rate follows a name in a command line.
pub open spec fn has_rate(args: Seq<ArgView>, name: Seq<char>, kbps: nat) -> bool {
    exists|n: Seq<char>| #[trigger]
        is_number_text(n, kbps) && has_option(args, name, ArgView::Text(n + "k"@))
}

/// Whether a text begins with the filter that makes a picture run so many times as fast, to eight
/// decimals, and goes on with a comma and `rest`.
pub open spec fn runs_at(s: Seq<char>, speed: Real, rest: Seq<char>) -> bool {
    exists|n: Seq<char>| #[trigger]
        stands_for(n, speed, 8) && s == "setpts=PTS/"@ + n + ","@ + rest
}

proof fn lemma_number_text(n: nat)
    ensures
        is_number_text(decimal(n), n),
{
    lemma_decimal_digits(n);
    lemma_decimal_value(n);
}

proof fn lemma_option_at(args: Seq<ArgView>, i: int, name: Seq<char>, value: ArgView)
    requires
        0 <= i < args.len() - 1,
        args[i] == ArgView::Text(name),
        args[i + 1] == value,
    ensures
        has_option(args, name, value),
{
}

proof fn lemma_number_at(args: Seq<ArgView>, i: int, name: Seq<char>, a: Real, decimals: nat)
    requires
        0 <= i < args.len() - 1,
        args[i] == ArgView::Text(name),
        args[i + 1] == ArgView::Text(fixed_text(a, decimals)),
        a.is_finite(),
    ensures
        has_number(args, name, a, decimals),
{
    law_notation_is_near(a, decimals);
    lemma_option_at(args, i, name, ArgView::Text(fixed_text(a, decimals)));
    assert(stands_for(fixed_text(a, decimals), a, decimals));
}

proof fn lemma_rate_at(args: Seq<ArgView>, i: int, name: Seq<char>, kbps: nat)
    requires
        0 <= i < args.len() - 1,
        args[i] == ArgView::Text(name),
        args[i + 1] == ArgView::Text(rate(kbps)),
    ensures
        has_rate(args, name, kbps),
{
    lemma_number_text(kbps);
    lemma_option_at(args, i, name, ArgView::Text(decimal(kbps) + "k"@));
    assert(is_number_text(decimal(kbps), kbps));
}

proof fn lemma_clip_part(clip: VideoClip, args: Seq<ArgView>)
    requires
        clip.start.is_finite(),
        clip.duration.is_finite(),
        clip_args(clip).len() < args.len(),
        args.take(clip_args(clip).len() as int) == clip_args(clip),
    ensures
        clip.start.value() > 0 ==> has_number(args, "-ss"@, clip.start, 6),
        clip.start.value() <= 0 ==> args[3] == ArgView::Text("-t"@),
        has_number(args, "-t"@, clip.duration, 6),
        has_option(args, "-i"@, ArgView::Input),
{
    let c = clip_args(clip);
    assert forall|i: int| 0 <= i < c.len() implies args[i] == c[i] by {
        assert(args.take(c.len() as int)[i] == args[i]);
    }
    if clip.start.value() > 0 {
        assert(c.len() == 9);
        lemma_number_at(args, 3, "-ss"@, clip.start, 6);
        lemma_number_at(args, 5, "-t"@, clip.duration, 6);
        lemma_option_at(args, 7, "-i"@, ArgView::Input);
    } else {
        assert(c.len() == 7);
        lemma_number_at(args, 3, "-t"@, clip.duration, 6);
        lemma_option_at(args, 5, "-i"@, ArgView::Input);
    }
}

/// A pass over a video reads the part that was asked for, to six decimals of a second; makes its picture
/// run at the speed, to eight decimals, with its shorter side limited to the one that was asked for; and
/// encodes it as was asked for, at the bit rate that was asked for.
pub proof fn law_video_pass_does_what_is_asked(p: VideoPass)
    requires
        p.clip.start.is_finite(),
        p.clip.duration.is_finite(),
        p.clip.speed.is_finite(),
    ensures
        ({
            let args = video_args(p);
            &&& p.clip.start.value() > 0 ==> has_number(args, "-ss"@, p.clip.start, 6)
            &&& p.clip.start.value() <= 0 ==> args[3] == ArgView::Text("-t"@)
            &&& has_number(args, "-t"@, p.clip.duration, 6)
            &&& has_option(args, "-i"@, ArgView::Input)
            &&& exists|filter: Seq<char>, scale: Seq<char>| #[trigger]
                runs_at(filter, p.clip.speed, scale) && limits_side(
                    scale,
                    p.output_resolution as nat,
                ) && has_option(args, "-filter:v"@, ArgView::Text(filter))
            &&& has_option(
                args,
                "-c:v"@,
                ArgView::Text(
                    if p.webm_vp9 {
                        "libvpx-vp9"@
                    } else {
                        "libx264"@
                    },
                ),
            )
            &&& p.target_video_kbps matches Some(k) ==> has_rate(args, "-b:v"@, k as nat) && (
            !p.webm_vp9 ==> has_rate(args, "-maxrate"@, k as nat) && has_rate(
                args,
                "-bufsize"@,
                if 2 * k <= u32::MAX {
                    (2 * k) as nat
                } else {
                    u32::MAX as nat
                },
            ))
            &&& p.target_video_kbps is None ==> has_option(
                args,
                "-crf"@,
                ArgView::Text(
                    if p.webm_vp9 {
                        "32"@
                    } else {
                        "20"@
                    },
                ),
            )
        }),
{
    let args = video_args(p);
    let n = clip_args(p.clip).len() as int;
    assert(args.take(n) =~= clip_args(p.clip));
    lemma_clip_part(p.clip, args);
    let side = p.output_resolution as nat;
    let filter = video_filter_of(p.clip.speed, side);
    law_notation_is_near(p.clip.speed, 8);
    let text = fixed_text(p.clip.speed, 8);
    assert(stands_for(text, p.clip.speed, 8));
    assert(filter == "setpts=PTS/"@ + text + ","@ + scale_filter(side));
    assert(runs_at(filter, p.clip.speed, scale_filter(side)));
    lemma_number_text(side);
    assert(is_number_text(decimal(side), side));
    assert(limits_side(scale_filter(side), side));
    assert(args[n + 2] == ArgView::Text("-filter:v"@));
    assert(args[n + 3] == ArgView::Text(filter));
    lemma_option_at(args, n + 2, "-filter:v"@, ArgView::Text(filter));
    let codec = codec_args(p.webm_vp9, p.target_video_kbps);
    let m = n + 4;
    assert forall|i: int| 0 <= i < codec.len() implies args[m + i] == #[trigger] codec[i] by {
    }
    lemma_codec_part(args, m, p.webm_vp9, p.target_video_kbps);
}

proof fn lemma_codec_part(args: Seq<ArgView>, m: int, webm_vp9: bool, kbps: Option<u32>)
    requires
        0 <= m,
        m + codec_args(webm_vp9, kbps).len() < args.len(),
        forall|i: int|
            0 <= i < codec_args(webm_vp9, kbps).len() ==> args[m + i] == #[trigger] codec_args(
                webm_vp9,
                kbps,
            )[i],
    ensures
        has_option(
            args,
            "-c:v"@,
            ArgView::Text(
                if webm_vp9 {
                    "libvpx-vp9"@
                } else {
                    "libx264"@
                },
            ),
        ),
        kbps matches Some(k) ==> has_rate(args, "-b:v"@, k as nat) && (!webm_vp9 ==> has_rate(
            args,
            "-maxrate"@,
            k as nat,
        ) && has_rate(
            args,
            "-bufsize"@,
            if 2 * k <= u32::MAX {
                (2 * k) as nat
            } else {
                u32::MAX as nat
            },
        )),
        kbps is None ==> has_option(
            args,
            "-crf"@,
            ArgView::Text(
                if webm_vp9 {
                    "32"@
                } else {
                    "20"@
                },
            ),
        ),
{
    let codec = codec_args(webm_vp9, kbps);
    assert(args[m + 0] == codec[0] && args[m + 1] == codec[1]);
    lemma_option_at(args, m, "-c:v"@, codec[1]);
    match kbps {
        Some(k) => if webm_vp9 {
            assert(args[m + 2] == codec[2] && args[m + 3] == codec[3]);
            lemma_rate_at(args, m + 2, "-b:v"@, k as nat);
        } else {
            assert(args[m + 4] == codec[4] && args[m + 5] == codec[5] && args[m + 6] == codec[6]
                && args[m + 7] == codec[7] && args[m + 8] == codec[8] && args[m + 9] == codec[9]);
            lemma_rate_at(args, m + 4, "-b:v"@, k as nat);
            lemma_rate_at(args, m + 6, "-maxrate"@, k as nat);
            lemma_rate_at(args, m + 8, "-bufsize"@, twice(k));
        },
        None => if webm_vp9 {
            assert(args[m + 2] == codec[2] && args[m + 3] == codec[3]);
            lemma_option_at(args, m + 2, "-crf"@, codec[3]);
        } else {
            assert(args[m + 4] == codec[4] && args[m + 5] == codec[5]);
            lemma_option_at(args, m + 4, "-crf"@, codec[5]);
        },
    }
}

/// Beside the part, the picture, its encoding and the sound, a pass over a video has only the arguments
/// that make the program ask nothing and tell its progress, and that put what a player needs first into
/// the front of an MP4; and the file comes last.
pub proof fn law_video_pass_has_no_other_arguments(p: VideoPass)
    requires
        p.clip.start.is_number(),
    ensures
        ({
            let args = video_args(p);
            let n = args.len() as int;
            &&& n == 19 + (if p.clip.start.value() > 0 {
                2int
            } else {
                0
            }) + (match (p.webm_vp9, p.target_video_kbps) {
                (true, Some(_)) => 0int,
                (true, None) => 2,
                (false, Some(_)) => 8,
                (false, None) => 4,
            }) + (if p.strip_audio || !p.has_audio {
                1int
            } else {
                8
            })
            &&& args[0] == ArgView::Text("-hide_banner"@) && args[1] == ArgView::Text("-nostdin"@)
                && args[2] == ArgView::Text("-y"@)
            &&& has_option(args, "-map"@, ArgView::Text("0:v:0"@))
            &&& !p.webm_vp9 ==> args[n - 6] == ArgView::Text("-movflags"@) && args[n - 5]
                == ArgView::Text("+faststart"@)
            &&& args[n - 4] == ArgView::Text("-progress"@) && args[n - 3] == ArgView::Text(
                "pipe:1"@,
            ) && args[n - 2] == ArgView::Text("-nostats"@) && args[n - 1] == ArgView::Output
        }),
{
    let args = video_args(p);
    let k = clip_args(p.clip).len() as int;
    assert(args[k] == ArgView::Text("-map"@) && args[k + 1] == ArgView::Text("0:v:0"@));
    lemma_option_at(args, k, "-map"@, ArgView::Text("0:v:0"@));
}

/// Beside the part and the filters, a pass over an animation has only the arguments that make the program
/// ask nothing and tell its progress, and that make the animation silent and repeat it without end; and
/// the file comes last.
pub proof fn law_gif_pass_has_no_other_arguments(clip: VideoClip, side: Option<u32>, fps: u32)
    requires
        clip.start.is_number(),
    ensures
        ({
            let args = gif_args(clip, side, fps);
            let n = args.len() as int;
            &&& n == 16 + (if clip.start.value() > 0 {
                2int
            } else {
                0
            })
            &&& args[0] == ArgView::Text("-hide_banner"@) && args[1] == ArgView::Text("-nostdin"@)
                && args[2] == ArgView::Text("-y"@)
            &&& args[n - 7] == ArgView::Text("-loop"@) && args[n - 6] == ArgView::Text("0"@)
            &&& args[n - 5] == ArgView::Text("-an"@)
            &&& args[n - 4] == ArgView::Text("-progress"@) && args[n - 3] == ArgView::Text(
                "pipe:1"@,
            ) && args[n - 2] == ArgView::Text("-nostats"@) && args[n - 1] == ArgView::Output
        }),
{
}

/// A pass over an animation reads the part that was asked for, to six decimals of a second; makes it run
/// at the speed, to eight decimals, and at the frame rate that was asked for; at most 960 wide, and with
/// its shorter side limited to the one that was asked for, if one was.
pub proof fn law_gif_pass_does_what_is_asked(clip: VideoClip, side: Option<u32>, fps: u32)
    requires
        clip.start.is_finite(),
        clip.duration.is_finite(),
        clip.speed.is_finite(),
    ensures
        ({
            let args = gif_args(clip, side, fps);
            &&& clip.start.value() > 0 ==> has_number(args, "-ss"@, clip.start, 6)
            &&& clip.start.value() <= 0 ==> args[3] == ArgView::Text("-t"@)
            &&& has_number(args, "-t"@, clip.duration, 6)
            &&& has_option(args, "-i"@, ArgView::Input)
            &&& has_option(args, "-loop"@, ArgView::Text("0"@))
            &&& exists|filter: Seq<char>, rate: Seq<char>, limit: Seq<char>| #[trigger]
                is_gif_filter(filter, clip.speed, rate, limit) && is_number_text(rate, fps as nat)
                    && (match side {
                    None => limit.len() == 0,
                    Some(s) => limit.len() > 0 && limit[0] == ',' && limits_side(
                        limit.skip(1),
                        s as nat,
                    ),
                }) && has_option(args, "-filter_complex"@, ArgView::Text(filter))
        }),
{
    reveal_strlit(",");
    reveal_strlit("");
    let args = gif_args(clip, side, fps);
    let n = clip_args(clip).len() as int;
    assert(args.take(n) =~= clip_args(clip));
    lemma_clip_part(clip, args);
    law_notation_is_near(clip.speed, 8);
    let text = fixed_text(clip.speed, 8);
    assert(stands_for(text, clip.speed, 8));
    lemma_number_text(fps as nat);
    let rate = decimal(fps as nat);
    let limit = match side {
        None => Seq::empty(),
        Some(s) => ","@ + scale_filter(s as nat),
    };
    let filter = match side {
        None => gif_filter_of(clip.speed, fps as nat),
        Some(s) => smaller_gif_filter_of(clip.speed, s as nat, fps as nat),
    };
    if let Some(s) = side {
        lemma_number_text(s as nat);
        assert(is_number_text(decimal(s as nat), s as nat));
        assert(limit.skip(1) =~= scale_filter(s as nat));
        assert(limits_side(scale_filter(s as nat), s as nat));
    }
    assert(filter =~= gif_filter_with(text, rate, limit));
    assert(is_gif_filter(filter, clip.speed, rate, limit));
    assert(args[n] == ArgView::Text("-filter_complex"@));
    assert(args[n + 1] == ArgView::Text(filter));
    lemma_option_at(args, n, "-filter_complex"@, ArgView::Text(filter));
    assert(args[n + 2] == ArgView::Text("-loop"@));
    assert(args[n + 3] == ArgView::Text("0"@));
    lemma_option_at(args, n + 2, "-loop"@, ArgView::Text("0"@));
}

/// The filters of an animation, from the texts that they are made of.
pub open spec fn gif_filter_with(speed: Seq<char>, rate: Seq<char>, limit: Seq<char>) -> Seq<char> {
    "[0:v:0]setpts=PTS/"@ + speed + ",fps="@ + rate + ","@
        + "scale=w='min(960\\,iw)':h=-2:flags=lanczos"@ + limit
        + ",split[p0][p1];[p0]palettegen=stats_mode=diff[p];[p1][p]paletteuse=dither=bayer:bayer_scale=5"@
}

/// Whether a text is the filters of an animation that runs at a speed, to eight decimals.
pub open spec fn is_gif_filter(
    filter: Seq<char>,
    speed: Real,
    rate: Seq<char>,
    limit: Seq<char>,
) -> bool {
    exists|n: Seq<char>| #[trigger]
        stands_for(n, speed, 8) && filter == gif_filter_with(n, rate, limit)
}

/// Where the filters of two passes with pictures of the same size are the same, the speeds differ by at
/// most the last of eight decimals.
pub proof fn law_filters_tell_speeds_apart(a: Real, b: Real, side: nat)
    requires
        a.is_finite(),
        b.is_finite(),
        video_filter_of(a, side) == video_filter_of(b, side),
    ensures
        apart(a.value() * 100_000_000, b.value() * 100_000_000) <= unit(),
{
    let x = fixed_text(a, 8);
    let y = fixed_text(b, 8);
    let head = "setpts=PTS/"@;
    let tail = ","@ + scale_filter(side);
    let f = video_filter_of(a, side);
    assert(f =~= head + x + tail);
    assert(f =~= head + y + tail);
    let n = head.len() as int;
    assert(x.len() == y.len());
    assert(f.subrange(n, n + x.len()) =~= x);
    assert(f.subrange(n, n + x.len()) =~= y);
    law_notations_tell_numbers_apart(a, b, 8);
    reveal_with_fuel(ten_to, 9);
}

/// A picture is asked for at the moment that was given, to a thousandth of a second.
pub proof fn law_picture_is_taken_at_the_moment(seconds: Real)
    requires
        seconds.is_finite(),
    ensures
        has_number(preview_args_of(seconds), "-ss"@, seconds, 3),
        has_option(preview_args_of(seconds), "-i"@, ArgView::Input),
{
    let args = preview_args_of(seconds);
    lemma_number_at(args, 4, "-ss"@, seconds, 3);
    lemma_option_at(args, 6, "-i"@, ArgView::Input);
}

proof fn lemma_split_exists(speed: Real) -> (r: TempoSplit)
    requires
        speed.is_finite(),
        speed.value() >= unit(),
    ensures
        is_tempo_split(speed, r),
        r.halves == 0,
        r.twos + r.rest.bits <= speed.bits,
    decreases speed.bits,
{
    lemma_constants();
    lemma_zero();
    assert(power_of_two(0) == 1);
    let v = speed.value();
    assert(v * 1 == v);
    if v <= 2 * unit() {
        TempoSplit { twos: 0, halves: 0, rest: speed }
    } else {
        let h = lemma_halved(speed);
        let s = lemma_split_exists(h);
        let r = TempoSplit { twos: (s.twos + 1) as u64, halves: 0, rest: s.rest };
        let p = power_of_two(s.twos as nat);
        let x = s.rest.value();
        assert(h.value() * 1 == h.value());
        assert(v == x * (2 * p)) by (nonlinear_arith)
            requires
                v == 2 * h.value(),
                h.value() == x * p,
        ;
        r
    }
}

/// The filters for sound at a speed of at least one change its tempo by that speed: factors of two, and a
/// rest from a half to two, to six decimals, whose product is the speed.
pub proof fn law_sound_runs_at_speed(speed: Real)
    requires
        speed.is_finite(),
        speed.value() >= unit(),
    ensures
        exists|twos: nat, rest: Real, n: Seq<char>|
            #![trigger power_of_two(twos), stands_for(n, rest, 6)]
            tempo_filters(speed) == repeated("atempo=2.0,"@, twos) + "atempo="@ + n && stands_for(
                n,
                rest,
                6,
            ) && rest.value() * power_of_two(twos) == speed.value() && unit() <= 2 * rest.value()
                && rest.value() <= 2 * unit(),
{
    lemma_constants();
    let r = lemma_split_exists(speed);
    law_tempo_split_is_unique(speed, r, tempo_split_of(speed));
    law_notation_is_near(r.rest, 6);
    let n = fixed_text(r.rest, 6);
    assert(power_of_two(0) == 1);
    assert(speed.value() * 1 == speed.value());
    assert(repeated("atempo=0.5,"@, 0) =~= Seq::<char>::empty());
    let p = power_of_two(r.twos as nat);
    assert(stands_for(n, r.rest, 6));
    assert(tempo_filters(speed) =~= repeated("atempo=2.0,"@, r.twos as nat) + "atempo="@ + n);
}

/// Sound is kept exactly where there is some and it is not to be stripped; it then runs at the speed of
/// the picture, at 128 thousand bits a second in WebM and 192 in MP4.
pub proof fn law_sound_follows_picture(p: VideoPass)
    ensures
        ({
            let args = video_args(p);
            let silent = p.strip_audio || !p.has_audio;
            &&& silent ==> args.contains(ArgView::Text("-an"@))
            &&& !silent ==> has_option(
                args,
                "-filter:a"@,
                ArgView::Text(tempo_filters(p.clip.speed)),
            ) && has_option(
                args,
                "-b:a"@,
                ArgView::Text(
                    if p.webm_vp9 {
                        "128k"@
                    } else {
                        "192k"@
                    },
                ),
            )
        }),
{
    let args = video_args(p);
    law_silence(p, p.clip, None, 0);
    let m = (clip_args(p.clip).len() + 4 + codec_args(
        p.webm_vp9,
        p.target_video_kbps,
    ).len()) as int;
    let silent = p.strip_audio || !p.has_audio;
    let sound = sound_args(silent, p.clip.speed, p.webm_vp9);
    if !silent {
        assert(sound.len() == 8);
        assert(args[m + 2] == sound[2]);
        assert(args[m + 3] == sound[3]);
        assert(args[m + 6] == sound[6]);
        assert(args[m + 7] == sound[7]);
        lemma_option_at(args, m + 2, "-filter:a"@, sound[3]);
        lemma_option_at(args, m + 6, "-b:a"@, sound[7]);
    }
}

/// The last argument of every pass is the file that it writes.
pub proof fn law_output_comes_last(p: VideoPass, clip: VideoClip, side: Option<u32>, fps: u32)
    ensures
        video_args(p).len() > 0,
        video_args(p).last() == ArgView::Output,
        gif_args(clip, side, fps).len() > 0,
        gif_args(clip, side, fps).last() == ArgView::Output,
{
}

/// An animation loops for ever and has no sound; neither has a video that is to be silent, or
/// whose source is.
pub proof fn law_silence(p: VideoPass, clip: VideoClip, side: Option<u32>, fps: u32)
    ensures
        ({
            let g = gif_args(clip, side, fps);
            let n = clip_args(clip).len() as int;
            &&& g.subrange(n + 2, n + 4) == words(seq!["-loop"@, "0"@])
            &&& g.contains(ArgView::Text("-an"@))
        }),
        p.strip_audio || !p.has_audio ==> video_args(p).contains(ArgView::Text("-an"@)),
{
    let g = gif_args(clip, side, fps);
    let n = clip_args(clip).len() as int;
    assert(g.subrange(n + 2, n + 4) =~= words(seq!["-loop"@, "0"@]));
    assert(g[n + 4] == ArgView::Text("-an"@));
    if p.strip_audio || !p.has_audio {
        let v = video_args(p);
        let at = clip_args(p.clip).len() + 4 + codec_args(
            p.webm_vp9,
            p.target_video_kbps,
        ).len();
        assert(v[at as int] == ArgView::Text("-an"@));
    }
}

// ---------------------------------------------------------------------------------------------
// The end of a pass
// ---------------------------------------------------------------------------------------------

/// Whether a pass is a success. The file of a pass that is not has to be removed.
pub fn pass_result(canceled: bool, success: bool) -> (r: Result<(), String>)
    ensures
        match r {
            Ok(()) => !canceled && success,
            Err(e) => if canceled {
                e@ == "Export canceled."@
            } else {
                !success && e@ == "ffmpeg exited with an error."@
            },
        },
{
    if canceled {
        Err("Export canceled.".to_string())
    } else if !success {
        Err("ffmpeg exited with an error.".to_string())
    } else {
        Ok(())
    }
}

} // verus!
