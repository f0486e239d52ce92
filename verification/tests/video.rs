use batchlapse::double::Real;
use batchlapse::options::{default_speed_options, JobInput, SpeedOptions};
use batchlapse::video::{next_video_step, plan_clip, VideoClip, VideoEvent, VideoStep};

fn num(x: f64) -> Real {
    Real { bits: x.to_bits() }
}

fn video() -> JobInput {
    JobInput {
        path: "a.mp4".to_string(),
        start_seconds: Some(num(10.0)),
        end_seconds: Some(num(50.0)),
    }
}

fn probed(options: &SpeedOptions, source: f64) -> VideoStep {
    next_video_step(
        &video(),
        options,
        VideoStep::ProbeDuration,
        VideoEvent::Duration(Ok(num(source))),
    )
}

fn failure(step: VideoStep) -> String {
    match step {
        VideoStep::Failed { message } => message,
        _ => panic!("not failed"),
    }
}

#[test]
fn videos_are_exported_step_by_step() {
    let o = default_speed_options();
    let step = probed(&o, 60.0);
    let clip = VideoClip {
        source: num(60.0),
        start: num(10.0),
        duration: num(40.0),
        speed: num(2.0),
    };
    match step {
        VideoStep::ProbeAudio { clip: found } => assert_eq!(found, clip),
        _ => panic!("not probed"),
    }
    let step = next_video_step(&video(), &o, step, VideoEvent::Audio(true));
    assert!(matches!(step, VideoStep::FindName { has_audio: true, .. }));
    let step = next_video_step(&video(), &o, step, VideoEvent::Named(Ok(())));
    match step {
        VideoStep::Export { clip: found, has_audio } => {
            assert_eq!(found, clip);
            assert!(has_audio);
        }
        _ => panic!("not exported"),
    }
    let step = next_video_step(&video(), &o, step, VideoEvent::Exported(Ok(())));
    assert!(matches!(step, VideoStep::Saved { speed } if speed == num(2.0)));
    let step = next_video_step(&video(), &o, step, VideoEvent::Exported(Err("x".to_string())));
    assert!(matches!(step, VideoStep::Saved { .. }));
}

#[test]
fn length_aimed_at_decides_the_speed() {
    let mut o = default_speed_options();
    o.use_target_length = true;
    let step = probed(&o, 60.0);
    assert!(matches!(
        step,
        VideoStep::ProbeAudio { clip } if clip.speed == num(4.0) && clip.duration == num(40.0)
    ));
    o.target_seconds = num(40.0);
    assert_eq!(failure(probed(&o, 60.0)), "Target length >= source.");
}

#[test]
fn videos_fail_with_the_first_reason() {
    let mut o = default_speed_options();
    o.use_target_length = true;
    let start = |found: Result<Real, String>| {
        next_video_step(&video(), &o, VideoStep::ProbeDuration, VideoEvent::Duration(found))
    };
    assert_eq!(failure(start(Err("no file".to_string()))), "no file");
    assert_eq!(failure(start(Ok(num(0.0)))), "Video duration missing.");
    assert_eq!(failure(start(Ok(num(-1.0)))), "Video duration missing.");
    assert_eq!(failure(probed(&o, 10.0)), "Clip range must be longer than 0 seconds.");
    assert_eq!(
        plan_clip(&video(), &o, num(15.0)),
        Err("Target length >= source.".to_string())
    );
    let o = default_speed_options();
    let clip = VideoClip {
        source: num(60.0),
        start: num(10.0),
        duration: num(40.0),
        speed: num(2.0),
    };
    let step = VideoStep::FindName { clip, has_audio: false };
    let named = VideoEvent::Named(Err("no name".to_string()));
    assert_eq!(failure(next_video_step(&video(), &o, step, named)), "no name");
    let step = VideoStep::Export { clip, has_audio: false };
    let made = VideoEvent::Exported(Err("bad".to_string()));
    assert_eq!(failure(next_video_step(&video(), &o, step, made)), "bad");
}

#[test]
fn events_out_of_turn_change_nothing() {
    let o = default_speed_options();
    let step = next_video_step(&video(), &o, VideoStep::ProbeDuration, VideoEvent::Audio(true));
    assert!(matches!(step, VideoStep::ProbeDuration));
}
