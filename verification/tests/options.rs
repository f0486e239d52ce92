use batchlapse::double::Real;
use batchlapse::jobs::ActiveJobState;
use batchlapse::options::{
    check_source_duration, check_speed_job, default_speed_options, dimension_halves,
    export_speed, normalized_clip_range, output_extension, output_kind, reduced_output_resolution,
    JobInput, OutputKind, SpeedOptions,
};

fn num(x: f64) -> Real {
    Real { bits: x.to_bits() }
}

fn video(start: Option<f64>, end: Option<f64>) -> JobInput {
    JobInput {
        path: "/videos/a.mp4".to_string(),
        start_seconds: start.map(num),
        end_seconds: end.map(num),
    }
}

fn refused(options: &SpeedOptions) -> Option<String> {
    check_speed_job(&vec![video(None, None)], &ActiveJobState::new(), options).err()
}

#[test]
fn default_options_are_accepted() {
    let o = default_speed_options();
    assert_eq!(o.multiplier, num(2.0));
    assert!(!o.use_target_length);
    assert_eq!(o.target_seconds, num(10.0));
    assert!(!o.use_clip_length);
    assert_eq!(o.clip_seconds, num(60.0));
    assert!(!o.use_target_size);
    assert_eq!(o.target_size_mb, num(9.5));
    assert_eq!(o.gif_fps, 15);
    assert!(o.strip_audio);
    assert!(!o.replace_existing);
    assert_eq!(o.output_format, "mp4-h264");
    assert_eq!(o.output_resolution, 720);
    assert_eq!(o.dimension_reduction, num(1.0));
    assert_eq!(o.output_dir, "");
    assert_eq!(o.ffmpeg_dir, "");
    assert_eq!(refused(&o), None);
}

#[test]
fn requests_without_videos_or_beside_a_job_are_refused() {
    let o = default_speed_options();
    assert_eq!(
        check_speed_job(&vec![], &ActiveJobState::new(), &o),
        Err("No input videos were provided.".to_string())
    );
    let mut busy = ActiveJobState::new();
    busy.start("a".to_string()).unwrap();
    assert_eq!(
        check_speed_job(&vec![video(None, None)], &busy, &o),
        Err("Another export is already running.".to_string())
    );
}

#[test]
fn lengths_of_no_time_are_refused() {
    let mut o = default_speed_options();
    o.target_seconds = num(0.0);
    o.clip_seconds = num(-1.0);
    assert_eq!(refused(&o), None);
    o.use_target_length = true;
    assert_eq!(refused(&o), Some("Target length must be greater than 0 seconds.".to_string()));
    o.target_seconds = num(-0.0);
    assert_eq!(refused(&o), Some("Target length must be greater than 0 seconds.".to_string()));
    o.target_seconds = num(f64::NAN);
    assert_eq!(refused(&o), None);
    o.use_clip_length = true;
    assert_eq!(refused(&o), Some("Clip length must be greater than 0 seconds.".to_string()));
}

#[test]
fn multipliers_are_from_one_to_ten() {
    let mut o = default_speed_options();
    for m in [1.0, 1.0000000000000002, 9.999, 10.0] {
        o.multiplier = num(m);
        assert_eq!(refused(&o), None, "{m}");
    }
    for m in [0.9999999999999999, 10.000000000000002, -2.0, f64::NAN, f64::INFINITY] {
        o.multiplier = num(m);
        assert_eq!(refused(&o), Some("Multiplier must be between 1x and 10x.".to_string()), "{m}");
        o.use_target_length = true;
        assert_eq!(refused(&o), None);
        o.use_target_length = false;
    }
}

#[test]
fn formats_and_sizes_are_from_their_lists() {
    let mut o = default_speed_options();
    for format in ["mp4-h264", "webm-vp9", "github-gif"] {
        o.output_format = format.to_string();
        assert_eq!(refused(&o), None);
    }
    for format in ["", "MP4-H264", "gif"] {
        o.output_format = format.to_string();
        assert_eq!(refused(&o), Some("Unsupported output format.".to_string()));
    }
    let mut o = default_speed_options();
    for r in [480, 720, 1080, 1440] {
        o.output_resolution = r;
        assert_eq!(refused(&o), None);
    }
    for r in [0, 481, 2160] {
        o.output_resolution = r;
        assert_eq!(
            refused(&o),
            Some("Output resolution must be 480p, 720p, 1080p, or 1440p.".to_string())
        );
    }
    let mut o = default_speed_options();
    for r in [1.0, 1.5, 2.0, 2.5, 3.0] {
        o.dimension_reduction = num(r);
        assert_eq!(refused(&o), None);
        assert_eq!(dimension_halves(num(r)), Some((2.0 * r) as u32));
    }
    for r in [0.0, 1.25, 3.5, f64::NAN] {
        o.dimension_reduction = num(r);
        assert_eq!(
            refused(&o),
            Some("Dimension reduction must be 1x, 1.5x, 2x, 2.5x, or 3x.".to_string())
        );
        assert_eq!(dimension_halves(num(r)), None);
    }
}

#[test]
fn file_sizes_and_frame_rates_have_ranges() {
    let mut o = default_speed_options();
    o.target_size_mb = num(50.0);
    assert_eq!(refused(&o), None);
    o.use_target_size = true;
    for mb in [0.1, 1.0, 9.5] {
        o.target_size_mb = num(mb);
        assert_eq!(refused(&o), None);
    }
    for mb in [0.09999999999999999, 9.500000000000002, f64::NAN] {
        o.target_size_mb = num(mb);
        assert_eq!(refused(&o), Some("Target size must be 0.1-9.5 MB.".to_string()));
    }
    let mut o = default_speed_options();
    for fps in [5, 30] {
        o.gif_fps = fps;
        assert_eq!(refused(&o), None);
    }
    for fps in [4, 31] {
        o.gif_fps = fps;
        assert_eq!(refused(&o), Some("GIF FPS must be 5-30.".to_string()));
    }
}

#[test]
fn clip_ranges_lie_in_the_video_or_fail() {
    let source = num(60.0);
    let mut o = default_speed_options();
    let range = |o: &SpeedOptions, start: Option<f64>, end: Option<f64>| {
        normalized_clip_range(&video(start, end), source, o)
    };
    assert_eq!(range(&o, None, None), Ok((num(0.0), num(60.0))));
    assert_eq!(range(&o, Some(10.0), Some(50.0)), Ok((num(10.0), num(40.0))));
    assert_eq!(range(&o, Some(-5.0), Some(99.0)), Ok((num(0.0), num(60.0))));
    assert_eq!(range(&o, Some(0.1), Some(0.3)), Ok((num(0.1), num(0.3 - 0.1))));
    let none = Err("Clip range must be longer than 0 seconds.".to_string());
    assert_eq!(range(&o, Some(99.0), Some(-5.0)), none);
    assert_eq!(range(&o, Some(50.0), Some(50.0)), none);
    o.use_clip_length = true;
    o.clip_seconds = num(15.0);
    assert_eq!(range(&o, Some(10.0), Some(50.0)), Ok((num(10.0), num(15.0))));
    o.clip_seconds = num(100.0);
    assert_eq!(range(&o, Some(10.0), Some(50.0)), Ok((num(10.0), num(40.0))));
}

#[test]
fn videos_without_length_are_refused() {
    assert_eq!(check_source_duration(num(0.0)), Err("Video duration missing.".to_string()));
    assert_eq!(check_source_duration(num(-1.0)), Err("Video duration missing.".to_string()));
    assert_eq!(check_source_duration(num(0.01)), Ok(()));
    assert_eq!(check_source_duration(num(f64::NAN)), Ok(()));
}

#[test]
fn speed_is_the_multiplier_or_follows_from_the_length() {
    let mut o = default_speed_options();
    assert_eq!(export_speed(&o, num(5.0)), Ok(num(2.0)));
    o.use_target_length = true;
    assert_eq!(export_speed(&o, num(60.0)), Ok(num(6.0)));
    o.multiplier = num(7.0);
    assert_eq!(export_speed(&o, num(60.0)), Ok(num(6.0)));
    assert_eq!(export_speed(&o, num(33.3)), Ok(num(33.3 / 10.0)));
    let none = Err("Target length >= source.".to_string());
    assert_eq!(export_speed(&o, num(10.0)), none);
    assert_eq!(export_speed(&o, num(9.0)), none);
}

#[test]
fn reduced_pictures_are_those_of_double_precision() {
    assert_eq!(reduced_output_resolution(720, num(1.5)), 480);
    assert_eq!(reduced_output_resolution(1080, num(2.5)), 432);
    assert_eq!(reduced_output_resolution(480, num(3.0)), 160);
    assert_eq!(reduced_output_resolution(0, num(1.0)), 2);
    let mut n: u32 = 1;
    for i in 0..2000u32 {
        n = n.wrapping_mul(1664525).wrapping_add(1013904223);
        for side in [i, n, u32::MAX - i] {
            for r in [1.0f64, 1.5, 2.0, 2.5, 3.0, 0.7, 1e-9, -1.0, 0.0, f64::NAN] {
                let reduced = ((side as f64 / r).floor() as u32).max(2);
                let expected = reduced - (reduced % 2);
                assert_eq!(reduced_output_resolution(side, num(r)), expected, "{side} {r}");
            }
        }
    }
}

#[test]
fn formats_have_endings_and_kinds() {
    let mut o = default_speed_options();
    for (format, ending, kind) in [
        ("mp4-h264", "mp4", OutputKind::Mp4),
        ("webm-vp9", "webm", OutputKind::Webm),
        ("github-gif", "gif", OutputKind::Gif),
        ("GitHub-GIF", "mp4", OutputKind::Gif),
        ("other", "mp4", OutputKind::Mp4),
    ] {
        o.output_format = format.to_string();
        assert_eq!(output_extension(&o), ending);
        assert_eq!(output_kind(format), kind);
    }
}

#[test]
fn aiming_at_a_length_never_slows() {
    let mut o = default_speed_options();
    o.use_target_length = true;
    for target in [0.0, 5e-324, 0.1, 10.0, 1e300] {
        o.target_seconds = num(target);
        for seconds in [0.0, 1e-310, 0.10000000000000002, 10.000000000000002, 60.0, f64::INFINITY] {
            match export_speed(&o, num(seconds)) {
                Ok(speed) => assert!(f64::from_bits(speed.bits) >= 1.0),
                Err(_) => assert!(target >= seconds),
            }
        }
    }
}

#[test]
fn parts_end_within_the_video() {
    let mut o = default_speed_options();
    for source in [0.3, 10.1, 59.94, 1e15] {
        for start in [0.0, 0.1, 0.2, 7.7, 33.3] {
            for end in [0.25, 10.1, 59.9, 1e16] {
                for seconds in [0.05, 5.0, 1e9] {
                    o.use_clip_length = seconds < 1e9;
                    o.clip_seconds = num(seconds);
                    let found =
                        normalized_clip_range(&video(Some(start), Some(end)), num(source), &o);
                    if let Ok((from, length)) = found {
                        let (from, length) = (f64::from_bits(from.bits), f64::from_bits(length.bits));
                        assert!(0.0 <= from && from <= source);
                        assert!(length <= source - from);
                    }
                }
            }
        }
    }
}
