use batchlapse::double::Real;
use batchlapse::media::{
    duration_reply, has_audio_reply, is_video_file, log_text, parse_resolution, progress_percent,
    progress_value, resolution_reply, resolve_inputs, said, unreadable_duration_message,
    video_info, visit_entry, visit_root, PathKind, Visit,
};
use batchlapse::preview::{
    check_preview_count, preview_reply, preview_timestamps, PREVIEW_COUNT,
};

fn num(x: f64) -> Real {
    Real { bits: x.to_bits() }
}

fn list(items: &[&str]) -> Vec<String> {
    items.iter().map(|s| s.to_string()).collect()
}

fn stamps(duration: f64, count: usize) -> Vec<f64> {
    preview_timestamps(num(duration), count)
        .into_iter()
        .map(|moment| f64::from_bits(moment.bits))
        .collect()
}

#[test]
fn videos_are_known_by_their_ending() {
    for e in [
        "mp4", "mov", "m4v", "mkv", "avi", "webm", "wmv", "flv", "mpeg", "mpg", "ts", "mts", "m2ts",
        "MP4", "WebM",
    ] {
        assert!(is_video_file(Some(e)), "{e}");
    }
    for e in ["", "mp", "mp44", "gif", "txt"] {
        assert!(!is_video_file(Some(e)), "{e}");
    }
    assert!(!is_video_file(None));
}

#[test]
fn folders_are_entered_as_asked() {
    assert_eq!(visit_root(PathKind::File, Some("mp4")), Visit::Collect);
    assert_eq!(visit_root(PathKind::File, Some("txt")), Visit::Skip);
    assert_eq!(visit_root(PathKind::Folder, Some("mp4")), Visit::Descend);
    assert_eq!(visit_root(PathKind::Neither, Some("mp4")), Visit::Skip);
    assert_eq!(visit_entry(PathKind::File, Some("MOV"), false), Visit::Collect);
    assert_eq!(visit_entry(PathKind::File, None, true), Visit::Skip);
    assert_eq!(visit_entry(PathKind::Folder, None, true), Visit::Descend);
    assert_eq!(visit_entry(PathKind::Folder, None, false), Visit::Skip);
    assert_eq!(visit_entry(PathKind::Neither, Some("mp4"), true), Visit::Skip);
}

#[test]
fn paths_are_listed_once_and_in_order() {
    assert_eq!(resolve_inputs(&vec![]), list(&[]));
    assert_eq!(
        resolve_inputs(&list(&["b", "a", "c", "a", "B", "aa", "é", "", "b"])),
        list(&["", "B", "a", "aa", "b", "c", "é"])
    );
    let mut many: Vec<String> = (0..300).map(|i| format!("v{}.mp4", (i * 37) % 113)).collect();
    many.push("\u{10000}".to_string());
    many.push("\u{ffff}".to_string());
    let listed = resolve_inputs(&many);
    many.sort();
    many.dedup();
    assert_eq!(listed, many);
    let mut turned = many.clone();
    turned.reverse();
    assert_eq!(resolve_inputs(&turned), listed);
}

#[test]
fn programs_are_heard() {
    assert_eq!(said(b"  12.5\r\n"), "12.5");
    assert_eq!(said(b"a\xffb"), "a\u{fffd}b");
    assert_eq!(duration_reply(true, b"12.5\n", b"x"), Ok("12.5".to_string()));
    assert_eq!(duration_reply(false, b"12.5\n", b" no file \n"), Err("no file".to_string()));
    assert_eq!(unreadable_duration_message(), "ffprobe did not return a readable duration.");
    assert!(has_audio_reply(true, b"1\n"));
    assert!(!has_audio_reply(true, b""));
    assert!(!has_audio_reply(false, b"1\n"));
    assert_eq!(log_text("  warning \n"), Some("warning".to_string()));
    assert_eq!(log_text(" \n"), None);
}

#[test]
fn resolutions_are_two_numbers() {
    assert_eq!(parse_resolution("1920x1080"), Some((1920, 1080)));
    assert_eq!(parse_resolution("1920x1080x3"), Some((1920, 1080)));
    assert_eq!(parse_resolution("1920"), None);
    assert_eq!(parse_resolution("1920x"), None);
    assert_eq!(parse_resolution("x1080"), None);
    assert_eq!(parse_resolution("1920x1080\n1920x1080"), None);
    assert_eq!(parse_resolution("4294967296x1"), None);
    assert_eq!(resolution_reply(true, b"640x360\n"), Some((640, 360)));
    assert_eq!(resolution_reply(false, b"640x360\n"), None);
}

#[test]
fn videos_are_described_or_the_error_is() {
    let info = video_info("a".to_string(), Ok(num(3.0)), Some((4, 5)), true);
    assert_eq!(info.path, "a");
    assert_eq!(info.duration_seconds, Some(num(3.0)));
    assert_eq!((info.width, info.height), (Some(4), Some(5)));
    assert!(info.has_audio);
    assert_eq!(info.error, None);
    let info = video_info("a".to_string(), Ok(num(3.0)), None, false);
    assert_eq!((info.width, info.height, info.has_audio), (None, None, false));
    let info = video_info("a".to_string(), Err("bad".to_string()), Some((4, 5)), true);
    assert_eq!(info.duration_seconds, None);
    assert_eq!((info.width, info.height, info.has_audio), (None, None, false));
    assert_eq!(info.error, Some("bad".to_string()));
}

#[test]
fn progress_is_read_and_limited() {
    assert_eq!(progress_value("out_time_ms= 5000000 "), Some("5000000".to_string()));
    assert_eq!(progress_value("out_time_ms=N/A"), Some("N/A".to_string()));
    assert_eq!(progress_value("out_time=00:00:05"), None);
    assert_eq!(progress_percent(num(5_000_000.0), num(10.0)), Some(num(50.0)));
    assert_eq!(progress_percent(num(15_000_000.0), num(10.0)), Some(num(100.0)));
    assert_eq!(progress_percent(num(-1.0), num(10.0)), Some(num(0.0)));
    assert_eq!(progress_percent(num(5_000_000.0), num(0.0)), None);
    assert_eq!(progress_percent(num(5_000_000.0), num(-1.0)), None);
    for micros in [1.0, 333_333.0, 1_234_567.0, 6_999_999.0] {
        let expected = (micros / 1_000_000.0 / 7.7 * 100.0f64).clamp(0.0, 100.0);
        assert_eq!(progress_percent(num(micros), num(7.7)), Some(num(expected)));
    }
}

#[test]
fn pictures_are_spread_over_a_video() {
    assert_eq!(PREVIEW_COUNT, 7);
    assert_eq!(stamps(60.0, 7), vec![0.0, 10.0, 20.0, 30.0, 40.0, 50.0, 59.95]);
    assert_eq!(stamps(60.0, 1), vec![30.0]);
    assert_eq!(stamps(0.03, 2), vec![0.0, 0.0]);
    assert_eq!(stamps(60.0, 0), Vec::<f64>::new());
    assert_eq!(stamps(0.0, 7), Vec::<f64>::new());
    assert_eq!(stamps(-1.0, 7), Vec::<f64>::new());
    assert_eq!(stamps(f64::NAN, 2), vec![0.0, 0.0]);
    for duration in [0.04, 1.0, 17.3, 1e9] {
        let expected: Vec<f64> = (0..7)
            .map(|i| (duration * (i as f64 / 6.0)).min((duration - 0.05f64).max(0.0)))
            .collect();
        assert_eq!(stamps(duration, 7), expected);
    }
}

#[test]
fn pictures_become_addresses() {
    let url = |data: &[u8]| preview_reply(true, data, b"ignored");
    assert_eq!(url(b"M"), Ok("data:image/jpeg;base64,TQ==".to_string()));
    assert_eq!(url(b"Ma"), Ok("data:image/jpeg;base64,TWE=".to_string()));
    assert_eq!(url(b"Man"), Ok("data:image/jpeg;base64,TWFu".to_string()));
    assert_eq!(
        url(&[0xfb, 0xff, 0xfe, 0x00, 0x10, 0x83]),
        Ok("data:image/jpeg;base64,+//+ABCD".to_string())
    );
    assert_eq!(preview_reply(true, b"", b" no frame\n"), Err("no frame".to_string()));
    assert_eq!(preview_reply(false, b"Man", b"bad\n"), Err("bad".to_string()));
    assert_eq!(check_preview_count(1), Ok(()));
    assert_eq!(check_preview_count(0), Err("Could not generate preview frames.".to_string()));
}
