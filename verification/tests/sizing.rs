use batchlapse::double::Real;
use batchlapse::options::{default_speed_options, OutputKind};
use batchlapse::sizing::{
    audio_bitrate_kbps, export_request, gif_ratio, next_gif_settings, plan_export,
    size_floor_message, target_size_bytes, target_video_bitrate_kbps, ExportPlan, ExportRequest,
    GifPasses, PassOutcome, VideoPasses,
};
use batchlapse::video::VideoClip;

fn num(x: f64) -> Real {
    Real { bits: x.to_bits() }
}

fn request(kind: OutputKind, seconds: f64, target: Option<u64>) -> ExportRequest {
    ExportRequest {
        kind,
        output_duration: num(seconds),
        output_resolution: 720,
        target_bytes: target,
        audio_kbps: 0,
    }
}

fn scaled(target: u64, size: u64, kbps: u32) -> u32 {
    let ratio = (target as f64 / size as f64 * 0.92).clamp(0.2, 0.95);
    (kbps as f64 * ratio).floor() as u32
}

#[test]
fn sound_has_its_bit_rate() {
    assert_eq!(audio_bitrate_kbps(true, true, false), 0);
    assert_eq!(audio_bitrate_kbps(false, false, true), 0);
    assert_eq!(audio_bitrate_kbps(false, true, true), 128);
    assert_eq!(audio_bitrate_kbps(false, true, false), 192);
}

#[test]
fn sizes_are_aimed_at_only_on_request() {
    let mut o = default_speed_options();
    assert_eq!(target_size_bytes(&o), None);
    o.use_target_size = true;
    assert_eq!(target_size_bytes(&o), Some(9_500_000));
    o.target_size_mb = num(0.1);
    assert_eq!(target_size_bytes(&o), Some(100_000));
    o.target_size_mb = num(1.2345675);
    assert_eq!(target_size_bytes(&o), Some((1.2345675f64 * 1_000_000.0).round() as u64));
}

#[test]
fn first_bit_rate_follows_from_size_and_length() {
    assert_eq!(target_video_bitrate_kbps(9_500_000, num(60.0), 0), Ok(1190));
    assert_eq!(target_video_bitrate_kbps(9_500_000, num(60.0), 192), Ok(998));
    assert_eq!(target_video_bitrate_kbps(1_000_000, num(f64::NAN), 0), Ok(0));
    assert_eq!(target_video_bitrate_kbps(1_000_000, num(0.0), 0), Ok(u32::MAX));
    assert_eq!(
        target_video_bitrate_kbps(100_000, num(600.0), 0),
        Err("MB target too small for 600.0s.".to_string())
    );
    for target in [100_000u64, 999_999, 9_500_000] {
        for seconds in [0.1, 1.7, 12.345, 30.0, 59.94, 100.0] {
            for audio in [0u32, 128, 192] {
                let total = target as f64 * 8.0 / seconds / 1000.0;
                let rate = (total * 0.94) - audio as f64;
                let expected = if rate < 64.0 {
                    Err(format!("MB target too small for {seconds:.1}s."))
                } else {
                    Ok(rate.floor() as u32)
                };
                assert_eq!(target_video_bitrate_kbps(target, num(seconds), audio), expected);
            }
        }
    }
}

#[test]
fn first_bit_rate_fits_the_size_and_has_a_floor() {
    for target in [200_000u64, 999_999, 9_500_000, 80_000_000] {
        for seconds in [1u64, 7, 30, 59, 100] {
            for audio in [0u32, 128, 192] {
                if let Ok(kbps) = target_video_bitrate_kbps(target, num(seconds as f64), audio) {
                    assert!(kbps >= 64);
                    assert!((kbps + audio) as u64 * 1000 * seconds <= 8 * target);
                }
            }
        }
    }
}

#[test]
fn video_passes_lower_the_rate_until_the_size_fits() {
    let mut p = VideoPasses::new(1_000_000, 1000);
    assert_eq!(p.retry_message(), None);
    assert_eq!(p.after_pass(2_000_000), PassOutcome::Again);
    assert_eq!(p.kbps, 460);
    assert_eq!(
        p.retry_message(),
        Some("Retrying size target at 460 kbps video bitrate for 1.00 MB.".to_string())
    );
    assert_eq!(p.after_pass(1_000_001), PassOutcome::Again);
    assert_eq!(p.kbps, scaled(1_000_000, 1_000_001, 460));
    assert_eq!(p.kbps, 423);
    let before = p;
    assert_eq!(p.after_pass(1_000_000), PassOutcome::Done);
    assert_eq!(p, before);
    for size in [1_000_001u64, 1_100_000, 3_333_333, 1 << 40, u64::MAX] {
        let mut p = VideoPasses::new(1_000_000, 54_321);
        assert_eq!(p.after_pass(size), PassOutcome::Again);
        assert_eq!(p.kbps, scaled(1_000_000, size, 54_321));
    }
}

#[test]
fn video_passes_end_after_four() {
    let mut p = VideoPasses::new(1_000_000, 100_000);
    let mut passes = 1;
    while p.after_pass(1_000_001) == PassOutcome::Again {
        passes += 1;
        assert!(p.kbps < 100_000);
    }
    assert_eq!(passes, 4);
    let mut p = VideoPasses::new(1_000_000, 68);
    assert_eq!(p.after_pass(1_000_001), PassOutcome::GiveUp);
    let mut p = VideoPasses::new(1_000_000, 70);
    assert_eq!(p.after_pass(1_000_001), PassOutcome::Again);
    let mut p = VideoPasses::new(1_000_000, 0);
    assert_eq!(p.after_pass(2_000_000), PassOutcome::GiveUp);
    assert_eq!(size_floor_message(), "Shorten clip; size floor hit.");
}

fn factor(target: u64, actual: u64) -> Real {
    let ratio = (target as f64 / actual as f64).clamp(0.18, 0.9);
    assert_eq!(gif_ratio(target, actual), num(ratio));
    num(ratio.powf(0.45))
}

#[test]
fn animation_settings_fall_to_their_floor() {
    let f = factor(9_500_000, 20_000_000);
    let scale = |n: u32| (n as f64 * (0.475f64).powf(0.45)).floor() as u32;
    assert_eq!(next_gif_settings(f, 720, 15), Some((scale(720) / 2 * 2, scale(15))));
    assert_eq!(next_gif_settings(num(0.1), 720, 15), Some((240, 5)));
    assert_eq!(next_gif_settings(num(1.0), 720, 15), Some((640, 14)));
    assert_eq!(next_gif_settings(num(1.0), 300, 6), Some((240, 5)));
    assert_eq!(next_gif_settings(num(1.0), 240, 5), None);
    assert_eq!(next_gif_settings(num(0.5), 240, 5), None);
    assert_eq!(next_gif_settings(num(0.9), 240, 6), Some((240, 5)));
    assert_eq!(next_gif_settings(num(0.995), 242, 5), Some((240, 5)));
    assert_eq!(factor(1, 0), num(0.9f64.powf(0.45)));
}

#[test]
fn factors_are_powers_of_at_most_one() {
    for (target, actual) in [(1u64, 1u64), (9_500_000, 9_500_001), (1, u64::MAX), (1, 0), (7, 20)] {
        let ratio = f64::from_bits(gif_ratio(target, actual).bits);
        let f = f64::from_bits(factor(target, actual).bits);
        assert!(f <= 1.0);
        assert!(2.0 * f.powi(20) <= 3.0 * ratio.powi(9));
        assert!(2.0 * ratio.powi(9) <= 3.0 * f.powi(20));
        for (resolution, fps) in [(240, 5), (242, 5), (240, 6), (720, 15), (1440, 30)] {
            match next_gif_settings(num(f), resolution, fps) {
                None => assert_eq!((resolution, fps), (240, 5)),
                Some((r, g)) => {
                    assert!(r % 2 == 0 && r >= 240 && g >= 5);
                    assert!(r < resolution || (resolution == 240 && r == 240));
                    assert!(g < fps || (fps == 5 && g == 5));
                }
            }
        }
    }
    let none = gif_ratio(0, 0);
    assert!(!none.number());
    assert!(f64::from_bits(none.bits).powf(0.45).is_nan());
}

#[test]
fn small_animations_are_raised_once() {
    assert_eq!(next_gif_settings(num(0.9), 160, 15), Some((240, 13)));
}

#[test]
fn animation_passes_end_after_eight() {
    let mut p = GifPasses::new(9_500_000, 1440, 30);
    assert_eq!(p.retry_message(), None);
    assert_eq!(p.side(), None);
    let mut passes = 1;
    loop {
        let (resolution, fps) = (p.resolution, p.fps);
        if p.after_pass(9_600_000, num(0.98)) != PassOutcome::Again {
            break;
        }
        passes += 1;
        assert_eq!(p.side(), Some(p.resolution));
        assert!(p.resolution < resolution || resolution == 240);
        assert!(p.fps < fps || fps == 5);
    }
    assert_eq!(passes, 8);
    let mut p = GifPasses::new(9_500_000, 240, 6);
    assert_eq!(p.after_pass(20_000_000, num(0.5)), PassOutcome::Again);
    assert_eq!(
        p.retry_message(),
        Some("Retrying GIF size target at 5 fps and 240p for 9.50 MB.".to_string())
    );
    assert_eq!(p.after_pass(20_000_000, num(0.5)), PassOutcome::GiveUp);
    assert_eq!(p.after_pass(9_500_000, num(0.5)), PassOutcome::Done);
}

#[test]
fn exports_are_planned_by_kind_and_size() {
    assert_eq!(
        plan_export(&request(OutputKind::Gif, 30.0, None)),
        Ok(ExportPlan::GifOnce { fps: 15 })
    );
    assert_eq!(
        plan_export(&request(OutputKind::Gif, 30.0, Some(9_500_000))),
        Ok(ExportPlan::GifSized(GifPasses::new(9_500_000, 720, 15)))
    );
    for seconds in [30.000000000000004, 300.0, f64::INFINITY] {
        assert_eq!(
            plan_export(&request(OutputKind::Gif, seconds, None)),
            Err("GIF >30s; use MB target.".to_string())
        );
        assert_eq!(
            plan_export(&request(OutputKind::Gif, seconds, Some(9_500_000))),
            Err("GIF >30s; shorten clip.".to_string())
        );
    }
    for kind in [OutputKind::Mp4, OutputKind::Webm] {
        assert_eq!(plan_export(&request(kind, 300.0, None)), Ok(ExportPlan::VideoOnce));
        assert_eq!(
            plan_export(&request(kind, 60.0, Some(9_500_000))),
            Ok(ExportPlan::VideoSized(VideoPasses::new(9_500_000, 1190)))
        );
        assert_eq!(
            plan_export(&request(kind, 300.0, Some(1_000_000))),
            Err("MB target too small for 300.0s.".to_string())
        );
    }
}

#[test]
fn settings_run_out() {
    let (mut resolution, mut fps) = (1440, 15);
    let mut steps = 0;
    while let Some((r, f)) = next_gif_settings(num(1.0), resolution, fps) {
        assert!(r < resolution || resolution == 240);
        assert!(f < fps || fps == 5);
        (resolution, fps) = (r, f);
        steps += 1;
    }
    assert_eq!((resolution, fps), (240, 5));
    assert_eq!(steps, 15);
}

#[test]
fn requests_follow_from_options_and_part() {
    let clip = VideoClip {
        source: num(100.0),
        start: num(5.0),
        duration: num(50.0),
        speed: num(4.0),
    };
    let mut o = default_speed_options();
    o.strip_audio = false;
    o.output_resolution = 1080;
    o.dimension_reduction = num(1.5);
    let mut expected = ExportRequest {
        kind: OutputKind::Mp4,
        output_duration: num(12.5),
        output_resolution: 720,
        target_bytes: None,
        audio_kbps: 192,
    };
    assert_eq!(export_request(&o, clip, true), expected);
    o.output_format = "WebM-VP9".to_string();
    o.use_target_size = true;
    expected.kind = OutputKind::Webm;
    expected.target_bytes = Some(9_500_000);
    expected.audio_kbps = 128;
    assert_eq!(export_request(&o, clip, true), expected);
    expected.audio_kbps = 0;
    assert_eq!(export_request(&o, clip, false), expected);
}

#[test]
fn animations_have_their_profile_whatever_is_given() {
    let clip = VideoClip {
        source: num(100.0),
        start: num(0.0),
        duration: num(60.0),
        speed: num(2.0),
    };
    let mut o = default_speed_options();
    o.output_format = "github-gif".to_string();
    for fps in [5, 24, 30] {
        for strip_audio in [true, false] {
            o.gif_fps = fps;
            o.strip_audio = strip_audio;
            o.use_target_size = false;
            assert_eq!(
                plan_export(&export_request(&o, clip, true)),
                Ok(ExportPlan::GifOnce { fps: 15 })
            );
            o.use_target_size = true;
            assert_eq!(
                plan_export(&export_request(&o, clip, true)),
                Ok(ExportPlan::GifSized(GifPasses::new(9_500_000, 720, 15)))
            );
        }
    }
}
