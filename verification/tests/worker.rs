use batchlapse::double::Real;
use batchlapse::worker::{BatchRun, WorkerEvent};

fn num(x: f64) -> Real {
    Real { bits: x.to_bits() }
}

#[test]
fn every_video_is_begun_once() {
    let mut run = BatchRun::new(3);
    assert_eq!(run.advance(false), Some(0));
    run.saved_video("a".to_string(), "a_2x.mp4", num(2.0));
    assert_eq!(run.advance(false), Some(1));
    run.failed_video("b".to_string(), "bad".to_string(), false);
    assert_eq!(run.advance(false), Some(2));
    run.saved_video("c".to_string(), "c_2x.mp4", num(2.0));
    assert_eq!(run.advance(false), None);
    assert_eq!((run.saved, run.failed), (2, 1));
    match run.end_event(false) {
        WorkerEvent::Done { message } => assert_eq!(message, "Finished. Saved 2, failed 1."),
        _ => panic!("not done"),
    }
}

#[test]
fn canceled_batches_stop() {
    let mut run = BatchRun::new(3);
    assert_eq!(run.advance(false), Some(0));
    assert!(run.failed_video("a".to_string(), "bad".to_string(), true).is_none());
    assert_eq!(run.failed, 0);
    assert_eq!(run.advance(false), None);
    match run.end_event(true) {
        WorkerEvent::Canceled { message } => assert_eq!(message, "Export canceled."),
        _ => panic!("not canceled"),
    }
    let mut run = BatchRun::new(3);
    assert_eq!(run.advance(true), None);
    assert_eq!(run.advance(false), None);
}

#[test]
fn events_say_what_happens() {
    let mut run = BatchRun::new(2);
    run.advance(false);
    let event = run.start_event("a".to_string(), 0);
    assert_eq!(event.kind(), "video_start");
    match event {
        WorkerEvent::VideoStart { path, message } => {
            assert_eq!(path, "a");
            assert_eq!(message, "Exporting 1 of 2");
        }
        _ => panic!("not a start"),
    }
    let event = run.saved_video("a".to_string(), "/out/a.mp4", num(1.5));
    assert_eq!(event.kind(), "video_done");
    match event {
        WorkerEvent::VideoDone { path, output, speed, message } => {
            assert_eq!(path, "a");
            assert_eq!(output, "/out/a.mp4");
            assert_eq!(speed, num(1.5));
            assert_eq!(message, "Saved /out/a.mp4");
        }
        _ => panic!("not saved"),
    }
    run.advance(false);
    match run.failed_video("b".to_string(), "bad".to_string(), false) {
        Some(WorkerEvent::VideoError { path, message }) => {
            assert_eq!((path.as_str(), message.as_str()), ("b", "bad"));
        }
        _ => panic!("not an error"),
    }
}

#[test]
fn events_have_kinds() {
    let text = || "x".to_string();
    assert_eq!(WorkerEvent::Log { path: text(), message: text() }.kind(), "log");
    assert_eq!(
        WorkerEvent::VideoProgress { path: text(), percent: num(1.0) }.kind(),
        "video_progress"
    );
    assert_eq!(WorkerEvent::VideoError { path: text(), message: text() }.kind(), "video_error");
    assert_eq!(WorkerEvent::Canceled { message: text() }.kind(), "canceled");
    assert_eq!(WorkerEvent::Done { message: text() }.kind(), "done");
}
