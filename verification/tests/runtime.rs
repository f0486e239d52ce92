use batchlapse::runtime::{
    agent_api_registry_path, check_folder, check_runtime, containing_folder, default_ffmpeg_dir,
    executable_name, find_binary, find_next, kill_command, kill_result, local_binary_candidates,
    missing_binary_message, shared_neko_legends_dir, BinaryPlace, FindStep, FolderChoice,
    FolderVariable, FolderVariables, Platform, SearchRoot,
};
use batchlapse::window::{
    clamp_window_dimension, initial_window_size, startup_window_size, WindowSize,
};

fn shown(places: &[BinaryPlace]) -> Vec<String> {
    places
        .iter()
        .map(|place| {
            let root = match &place.root {
                SearchRoot::Folder(name) => name.as_str(),
                SearchRoot::Current => "<current>",
                SearchRoot::Program => "<program>",
                SearchRoot::Resources => "<resources>",
            };
            if place.in_bin {
                format!("{root}/bin")
            } else {
                root.to_string()
            }
        })
        .collect()
}

fn search(places: &Vec<BinaryPlace>, works: &[usize], by_name: bool) -> FindStep {
    let mut step = find_binary(places);
    loop {
        step = match step {
            FindStep::Try(i) => find_next(places, step, works.contains(&i)),
            FindStep::TryByName => find_next(places, step, by_name),
            _ => return step,
        };
    }
}

fn variables(app_data: bool, user_profile: bool, home: bool, xdg: bool) -> FolderVariables {
    FolderVariables { app_data, user_profile, home, xdg_config_home: xdg }
}

#[test]
fn programs_have_platform_names() {
    assert_eq!(executable_name("ffmpeg", Platform::Windows), "ffmpeg.exe");
    assert_eq!(executable_name("ffmpeg", Platform::MacOs), "ffmpeg");
    assert_eq!(executable_name("ffmpeg", Platform::Other), "ffmpeg");
    assert_eq!(
        default_ffmpeg_dir(Platform::Windows),
        Some(r"D:\Tools\ffmpeg\bin".to_string())
    );
    assert_eq!(default_ffmpeg_dir(Platform::Other), None);
}

#[test]
fn programs_are_looked_for_in_order() {
    assert_eq!(
        shown(&local_binary_candidates(Platform::Windows, " C:\\x ", true, true)),
        vec![
            "C:\\x",
            "D:\\Tools\\ffmpeg\\bin",
            "<current>/bin",
            "<current>",
            "<program>/bin",
            "<program>",
            "<resources>/bin",
            "<resources>",
        ]
    );
    assert_eq!(
        shown(&local_binary_candidates(Platform::Other, "  ", false, true)),
        vec!["<current>/bin", "<current>", "<resources>/bin", "<resources>"]
    );
}

#[test]
fn first_working_program_is_used() {
    let places = local_binary_candidates(Platform::Other, "", true, false);
    assert_eq!(places.len(), 4);
    assert_eq!(search(&places, &[1, 3], true), FindStep::Found(1));
    assert_eq!(search(&places, &[0], false), FindStep::Found(0));
    assert_eq!(search(&places, &[], true), FindStep::FoundByName);
    assert_eq!(search(&places, &[], false), FindStep::Missing);
    assert_eq!(search(&vec![], &[], true), FindStep::FoundByName);
    assert_eq!(find_next(&places, FindStep::Try(usize::MAX), false), FindStep::TryByName);
}

#[test]
fn missing_programs_are_named() {
    assert_eq!(
        missing_binary_message("ffmpeg", " ", Platform::Windows),
        "ffmpeg.exe was not found. Choose its folder, use D:\\Tools\\ffmpeg\\bin, add it to PATH, or place it in this app's bin folder."
    );
    assert_eq!(
        missing_binary_message("ffprobe", "", Platform::Other),
        "ffprobe was not found. Choose its folder, add it to PATH, or place it in this app's bin folder."
    );
    assert_eq!(
        missing_binary_message("ffprobe", " /opt ", Platform::MacOs),
        "ffprobe was not found in /opt. Choose the folder containing ffmpeg and ffprobe."
    );
    assert_eq!(
        missing_binary_message("ffprobe", "C:\\x", Platform::Windows),
        "ffprobe.exe was not found in C:\\x. Choose the folder containing ffmpeg.exe and ffprobe.exe."
    );
}

#[test]
fn runtime_says_which_programs_are_there() {
    let path = |s: &str| Some(s.to_string());
    let status = check_runtime(path("a"), path("b"), "", Platform::Other);
    assert!(status.ffmpeg_found && status.ffprobe_found);
    assert_eq!((status.ffmpeg_path, status.ffprobe_path), (path("a"), path("b")));
    assert_eq!(status.message, "ffmpeg and ffprobe are ready.");
    let status = check_runtime(None, path("b"), "", Platform::Other);
    assert!(!status.ffmpeg_found && status.ffprobe_found);
    assert_eq!(status.message, missing_binary_message("ffmpeg", "", Platform::Other));
    let status = check_runtime(path("a"), None, "", Platform::Other);
    assert_eq!(status.message, missing_binary_message("ffprobe", "", Platform::Other));
    let status = check_runtime(None, None, "/x", Platform::Other);
    assert_eq!(
        status.message,
        format!(
            "{} {}",
            missing_binary_message("ffmpeg", "/x", Platform::Other),
            missing_binary_message("ffprobe", "/x", Platform::Other)
        )
    );
}

#[test]
fn processes_are_stopped_with_their_children() {
    let command = kill_command(42, Platform::Windows);
    assert_eq!(command.program, "taskkill");
    assert_eq!(command.args, vec!["/PID", "42", "/T", "/F"]);
    let command = kill_command(42, Platform::Other);
    assert_eq!(command.program, "kill");
    assert_eq!(command.args, vec!["-TERM", "-42"]);
    assert_eq!(kill_result(true, b"x"), Ok(()));
    assert_eq!(kill_result(false, b" gone\n"), Err("Unable to cancel export: gone".to_string()));
}

#[test]
fn shared_folder_depends_on_the_platform() {
    let at = |platform: Platform, set: FolderVariables| {
        shared_neko_legends_dir(platform, set).map(|path| (path.base, path.parts.join("/")))
    };
    let found = |base: FolderVariable, parts: &str| Some((base, parts.to_string()));
    assert_eq!(
        at(Platform::Windows, variables(true, true, true, true)),
        found(FolderVariable::AppData, "NekoLegends")
    );
    assert_eq!(
        at(Platform::Windows, variables(false, true, true, true)),
        found(FolderVariable::UserProfile, "NekoLegends")
    );
    assert_eq!(at(Platform::Windows, variables(false, false, true, true)), None);
    assert_eq!(
        at(Platform::MacOs, variables(true, true, true, true)),
        found(FolderVariable::Home, "Library/Application Support/NekoLegends")
    );
    assert_eq!(at(Platform::MacOs, variables(true, true, false, true)), None);
    assert_eq!(
        at(Platform::Other, variables(true, true, true, true)),
        found(FolderVariable::XdgConfigHome, "NekoLegends")
    );
    assert_eq!(
        at(Platform::Other, variables(true, true, true, false)),
        found(FolderVariable::Home, ".config/NekoLegends")
    );
    assert_eq!(at(Platform::Other, variables(true, true, false, false)), None);
}

#[test]
fn registry_lies_in_the_shared_folder() {
    let path = agent_api_registry_path(Platform::Other, variables(false, false, true, false)).unwrap();
    assert_eq!(path.base, FolderVariable::Home);
    assert_eq!(path.parts, vec![".config", "NekoLegends", "agent-api-registry.json"]);
    assert!(agent_api_registry_path(Platform::Other, variables(true, true, false, false)).is_none());
}

#[test]
fn folders_are_opened_where_they_are() {
    assert_eq!(containing_folder(true, false), Ok(FolderChoice::Itself));
    assert_eq!(containing_folder(false, true), Ok(FolderChoice::Parent));
    assert_eq!(
        containing_folder(false, false),
        Err("Unable to resolve containing folder.".to_string())
    );
    assert_eq!(check_folder(true, "/x"), Ok(()));
    assert_eq!(check_folder(false, "/x"), Err("Folder does not exist: /x".to_string()));
}

#[test]
fn windows_are_as_large_as_in_double_precision() {
    let expected = |w: u32, h: u32| {
        let ratio: f64 = if w < h { 0.9 } else { 0.5 };
        let aspect = 1080f64 / 1920f64;
        let mut width = (w as f64 * ratio).round();
        let mut height = (width * aspect).round();
        let max_height = (h as f64 * 0.9).round().max(1.0);
        if height > max_height {
            height = max_height;
            width = (height / aspect).round();
        }
        WindowSize { width: width.max(1.0) as u32, height: height.max(1.0) as u32 }
    };
    assert_eq!(initial_window_size(1920, 1080), WindowSize { width: 960, height: 540 });
    for w in 0..200u32 {
        for h in 0..200u32 {
            assert_eq!(initial_window_size(w, h), expected(w, h), "{w}x{h}");
        }
    }
    let mut n: u32 = 1;
    for _ in 0..200_000 {
        n = n.wrapping_mul(1664525).wrapping_add(1013904223);
        let w = n;
        n = n.wrapping_mul(1664525).wrapping_add(1013904223);
        let h = n;
        assert_eq!(initial_window_size(w, h), expected(w, h), "{w}x{h}");
        assert_eq!(initial_window_size(w >> 16, h >> 16), expected(w >> 16, h >> 16));
    }
    assert_eq!(initial_window_size(u32::MAX, u32::MAX), expected(u32::MAX, u32::MAX));
}

#[test]
fn windows_fit_their_screens() {
    assert_eq!(startup_window_size(None), WindowSize { width: 960, height: 540 });
    assert_eq!(startup_window_size(Some((800, 600))), WindowSize { width: 640, height: 360 });
    assert_eq!(startup_window_size(Some((320, 200))), WindowSize { width: 320, height: 200 });
    assert_eq!(startup_window_size(Some((0, 0))), WindowSize { width: 1, height: 1 });
    assert_eq!(startup_window_size(Some((1080, 1920))), WindowSize { width: 972, height: 547 });
}

#[test]
fn sides_are_clamped_to_the_screen() {
    assert_eq!(clamp_window_dimension(500, 640, 1920), 640);
    assert_eq!(clamp_window_dimension(2000, 640, 1920), 1920);
    assert_eq!(clamp_window_dimension(700, 640, 1920), 700);
    assert_eq!(clamp_window_dimension(500, 640, 320), 320);
    assert_eq!(clamp_window_dimension(0, 0, 0), 0);
    assert_eq!(clamp_window_dimension(5, 640, 0), 1);
}
