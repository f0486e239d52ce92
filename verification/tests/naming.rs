use batchlapse::double::Real;
use batchlapse::naming::{
    exhausted_message, output_folder, speed_label, target_label, NameStep, OutputFolder,
    OutputNames,
};
use batchlapse::options::{default_speed_options, SpeedOptions};
use batchlapse::video::VideoClip;

fn num(x: f64) -> Real {
    Real { bits: x.to_bits() }
}

fn names(options: &SpeedOptions, stem: Option<&str>, speed: f64, start: f64, end: f64, source: f64) -> OutputNames {
    let clip = VideoClip {
        source: num(source),
        start: num(start),
        duration: num(end - start),
        speed: num(speed),
    };
    OutputNames::new(stem.map(str::to_string), options, clip)
}

fn search(names: &OutputNames, taken: &[u32]) -> NameStep {
    let mut step = names.first();
    while let NameStep::Try(index) = step {
        step = names.next(index, taken.contains(&index));
    }
    step
}

#[test]
fn labels_are_short_and_without_points() {
    assert_eq!(speed_label(num(2.0)), "2");
    assert_eq!(speed_label(num(2.5)), "2_5");
    assert_eq!(speed_label(num(10.125)), "10_125");
    assert_eq!(speed_label(num(1.0 / 3.0)), "0_333");
    assert_eq!(speed_label(num(0.0001)), "0");
    assert_eq!(target_label(num(10.0)), "10");
    assert_eq!(target_label(num(7.5)), "7_5");
    assert_eq!(target_label(num(100.0)), "100");
    assert_eq!(target_label(num(f64::INFINITY)), "inf");
    assert_eq!(target_label(num(f64::NAN)), "NaN");
    for n in [0u32, 1, 10, 100, 1000, 123456] {
        assert_eq!(speed_label(num(n as f64)), n.to_string());
        assert_eq!(target_label(num(n as f64)), n.to_string());
    }
}

#[test]
fn whole_videos_are_named_after_their_speed() {
    let o = default_speed_options();
    let n = names(&o, Some("clip"), 2.0, 0.0, 60.0, 60.0);
    assert_eq!(n.name(1), "clip_2x.mp4");
    assert_eq!(n.name(2), "clip_2x_2.mp4");
    assert_eq!(n.name(9999), "clip_2x_9999.mp4");
    assert_eq!(names(&o, None, 2.0, 0.0, 60.0, 60.0).name(1), "video_2x.mp4");
    let edge = names(&o, Some("clip"), 2.0, 0.001, 60.0, 60.0);
    assert_eq!(edge.name(1), "clip_2x.mp4");
}

#[test]
fn parts_are_named_after_their_ends() {
    let mut o = default_speed_options();
    assert_eq!(
        names(&o, Some("a"), 1.5, 5.25, 60.0, 60.0).name(1),
        "a_1_5x_range5_25s-60s.mp4"
    );
    assert_eq!(
        names(&o, Some("a"), 1.5, 0.0, 30.0, 60.0).name(1),
        "a_1_5x_range0s-30s.mp4"
    );
    o.use_clip_length = true;
    assert_eq!(
        names(&o, Some("a"), 2.0, 0.0, 60.0, 60.0).name(1),
        "a_2x_range0s-60s.mp4"
    );
    o.use_target_length = true;
    o.target_seconds = num(7.5);
    o.output_format = "github-gif".to_string();
    assert_eq!(
        names(&o, Some("a"), 8.0, 0.0, 60.0, 60.0).name(3),
        "a_target7_5s_range0s-60s_3.gif"
    );
}

#[test]
fn existing_exports_are_numbered() {
    let o = default_speed_options();
    let n = names(&o, Some("a"), 2.0, 0.0, 60.0, 60.0);
    assert_eq!(search(&n, &[]), NameStep::Use(1));
    assert_eq!(search(&n, &[1]), NameStep::Use(2));
    assert_eq!(search(&n, &[1, 2, 4]), NameStep::Use(3));
    let all: Vec<u32> = (1..10_000).collect();
    assert_eq!(search(&n, &all), NameStep::Exhausted);
    assert_eq!(search(&n, &all[..9_998]), NameStep::Use(9_999));
    assert_eq!(exhausted_message(), "Unable to find an available output filename.");
}

#[test]
fn replacing_uses_the_first_name() {
    let mut o = default_speed_options();
    o.replace_existing = true;
    let n = names(&o, Some("a"), 2.0, 0.0, 60.0, 60.0);
    assert_eq!(search(&n, &[1, 2, 3]), NameStep::Use(1));
}

#[test]
fn numbered_names_differ() {
    let o = default_speed_options();
    let n = names(&o, Some("a_2"), 2.0, 0.0, 60.0, 60.0);
    let mut seen: Vec<String> = (1..300).map(|i| n.name(i)).collect();
    seen.sort();
    seen.dedup();
    assert_eq!(seen.len(), 299);
}

#[test]
fn exports_go_to_the_chosen_folder_or_beside_the_source() {
    let mut o = default_speed_options();
    assert!(matches!(output_folder(&o, true), Ok(OutputFolder::Source)));
    match output_folder(&o, false) {
        Err(e) => assert_eq!(e, "Unable to resolve source folder."),
        Ok(_) => panic!("a folder without a source"),
    }
    o.output_dir = "  /out  ".to_string();
    match output_folder(&o, false) {
        Ok(OutputFolder::Chosen(dir)) => assert_eq!(dir, "/out"),
        _ => panic!("not the chosen folder"),
    }
}
