use batchlapse::commands::{
    atempo_chain, audio_args, duration_args, gif_pass_args, github_gif_filter, pass_result,
    preview_args, resolution_args, resolution_filter, smaller_gif_filter, video_pass_args,
    Arg, VideoPass,
};
use batchlapse::double::Real;
use batchlapse::video::VideoClip;

fn num(x: f64) -> Real {
    Real { bits: x.to_bits() }
}

fn line(args: &[Arg]) -> String {
    let words: Vec<&str> = args
        .iter()
        .map(|arg| match arg {
            Arg::Text(text) => text.as_str(),
            Arg::Input => "<in>",
            Arg::Output => "<out>",
        })
        .collect();
    words.join(" ")
}

fn clip(start: f64) -> VideoClip {
    VideoClip {
        source: num(60.0),
        start: num(start),
        duration: num(20.0),
        speed: num(2.0),
    }
}

fn pass(webm_vp9: bool, silent: bool, kbps: Option<u32>) -> VideoPass {
    VideoPass {
        clip: clip(1.5),
        output_resolution: 720,
        strip_audio: silent,
        has_audio: true,
        webm_vp9,
        target_video_kbps: kbps,
    }
}

fn chain(speed: f64) -> String {
    atempo_chain(num(speed))
}

const SCALE: &str = "scale=w='if(gte(iw\\,ih)\\,-2\\,min(720\\,iw))':h='if(gte(iw\\,ih)\\,min(720\\,ih)\\,-2)':flags=lanczos";

#[test]
fn probes_ask_for_one_property() {
    assert_eq!(
        line(&duration_args()),
        "-v error -show_entries format=duration -of default=noprint_wrappers=1:nokey=1 <in>"
    );
    assert_eq!(
        line(&audio_args()),
        "-v error -select_streams a -show_entries stream=index -of csv=p=0 <in>"
    );
    assert_eq!(
        line(&resolution_args()),
        "-v error -select_streams v:0 -show_entries stream=width,height -of csv=s=x:p=0 <in>"
    );
}

#[test]
fn preview_asks_for_one_picture() {
    assert_eq!(
        line(&preview_args(num(1.25))),
        "-hide_banner -loglevel error -nostdin -ss 1.250 -i <in> -frames:v 1 -vf scale=w='if(gte(iw\\,ih)\\,160\\,-2)':h='if(gte(iw\\,ih)\\,-2\\,90)':flags=lanczos -f image2pipe -vcodec mjpeg pipe:1"
    );
}

#[test]
fn filters_scale_the_shorter_side() {
    assert_eq!(resolution_filter(720), SCALE);
}

#[test]
fn animations_are_at_most_960_wide() {
    let width = "scale=w='min(960\\,iw)':h=-2:flags=lanczos";
    let palette = "split[p0][p1];[p0]palettegen=stats_mode=diff[p];[p1][p]paletteuse=dither=bayer:bayer_scale=5";
    assert_eq!(
        github_gif_filter(num(2.0), 15),
        format!("[0:v:0]setpts=PTS/2.00000000,fps=15,{width},{palette}")
    );
    assert_eq!(
        smaller_gif_filter(num(2.0), 720, 12),
        format!("[0:v:0]setpts=PTS/2.00000000,fps=12,{width},{SCALE},{palette}")
    );
}

#[test]
fn tempo_changes_in_steps_of_at_most_two() {
    assert_eq!(chain(1.0), "atempo=1.000000");
    assert_eq!(chain(2.0), "atempo=2.000000");
    assert_eq!(chain(10.0), "atempo=2.0,atempo=2.0,atempo=2.0,atempo=1.250000");
    assert_eq!(chain(0.2), "atempo=0.5,atempo=0.5,atempo=0.800000");
    assert_eq!(chain(0.0), "atempo=1.0");
    assert_eq!(chain(-1.0), "atempo=1.0");
    assert_eq!(chain(f64::NEG_INFINITY), "atempo=1.0");
    assert_eq!(chain(f64::NAN), "atempo=NaN");
}

#[test]
fn video_passes_name_codec_and_rate() {
    let head = format!("-hide_banner -nostdin -y -ss 1.500000 -t 20.000000 -i <in> -map 0:v:0 -filter:v setpts=PTS/2.00000000,{SCALE}");
    let tail = "-progress pipe:1 -nostats <out>";
    assert_eq!(
        line(&video_pass_args(&pass(false, true, None))),
        format!("{head} -c:v libx264 -preset medium -crf 20 -an -movflags +faststart {tail}")
    );
    assert_eq!(
        line(&video_pass_args(&pass(false, false, Some(900)))),
        format!("{head} -c:v libx264 -preset medium -b:v 900k -maxrate 900k -bufsize 1800k -map 0:a? -filter:a atempo=2.000000 -c:a aac -b:a 192k -movflags +faststart {tail}")
    );
    assert_eq!(
        line(&video_pass_args(&pass(true, false, None))),
        format!("{head} -c:v libvpx-vp9 -crf 32 -b:v 0 -map 0:a? -filter:a atempo=2.000000 -c:a libopus -b:a 128k {tail}")
    );
    assert_eq!(
        line(&video_pass_args(&pass(true, true, Some(64)))),
        format!("{head} -c:v libvpx-vp9 -b:v 64k -an {tail}")
    );
}

#[test]
fn buffer_size_stays_in_range() {
    let text = line(&video_pass_args(&pass(false, true, Some(u32::MAX))));
    assert!(text.contains("-b:v 4294967295k -maxrate 4294967295k -bufsize 4294967295k"));
}

#[test]
fn parts_from_the_beginning_are_not_sought() {
    let mut p = pass(true, true, None);
    p.clip = clip(0.0);
    p.has_audio = false;
    p.strip_audio = false;
    let text = line(&video_pass_args(&p));
    assert!(text.starts_with("-hide_banner -nostdin -y -t 20.000000 -i <in>"));
    assert!(text.contains(" -an "));
}

#[test]
fn animations_loop_for_ever_without_sound() {
    for (side, filter) in [
        (None, github_gif_filter(num(2.0), 15)),
        (Some(480), smaller_gif_filter(num(2.0), 480, 15)),
    ] {
        assert_eq!(
            line(&gif_pass_args(clip(0.0), side, 15)),
            format!("-hide_banner -nostdin -y -t 20.000000 -i <in> -filter_complex {filter} -loop 0 -an -progress pipe:1 -nostats <out>")
        );
    }
}

#[test]
fn passes_fail_when_canceled_or_unsuccessful() {
    assert_eq!(pass_result(false, true), Ok(()));
    assert_eq!(pass_result(true, true), Err("Export canceled.".to_string()));
    assert_eq!(pass_result(true, false), Err("Export canceled.".to_string()));
    assert_eq!(pass_result(false, false), Err("ffmpeg exited with an error.".to_string()));
}
