//! The programs that do the work, where they are looked for, and what is said where they are
//! missing; and places that depend on the system.

use crate::text::{
    all_digits, cat2, cat3, cat5, decimal, digits_value, lemma_decimal_digits, lemma_decimal_value,
    lossy_text, number, opt_text, text_from_bytes, texts, trim, trimmed,
};
use vstd::prelude::*;

verus! {

/// The system that the program runs on.
#[derive(Clone, Copy, Debug, PartialEq, Eq, Structural)]
pub enum Platform {
    Windows,
    MacOs,
    Other,
}

/// The file name of a program.
pub open spec fn executable_of(name: Seq<char>, platform: Platform) -> Seq<char> {
    if platform == Platform::Windows {
        name + ".exe"@
    } else {
        name
    }
}

/// The file name of a program.
pub fn executable_name(name: &str, platform: Platform) -> (r: String)
    ensures
        r@ == executable_of(name@, platform),
{
    match platform {
        Platform::Windows => cat2(name, ".exe"),
        _ => name.to_string(),
    }
}

/// The folder where the programs usually are, if there is one.
pub open spec fn usual_folder(platform: Platform) -> Option<Seq<char>> {
    if platform == Platform::Windows {
        Some("D:\\Tools\\ffmpeg\\bin"@)
    } else {
        None
    }
}

/// The folder where the programs usually are, if there is one.
pub fn default_ffmpeg_dir(platform: Platform) -> (r: Option<String>)
    ensures
        opt_text(r) == usual_folder(platform),
{
    match platform {
        Platform::Windows => Some("D:\\Tools\\ffmpeg\\bin".to_string()),
        _ => None,
    }
}

// ---------------------------------------------------------------------------------------------
// Looking for a program
// ---------------------------------------------------------------------------------------------

/// A folder that a place is in.
pub enum SearchRoot {
    /// A folder by its name.
    Folder(String),
    /// The folder that the program was started in.
    Current,
    /// The folder of the program.
    Program,
    /// The folder of what came with the program.
    Resources,
}

/// A folder that a place is in.
pub ghost enum RootView {
    Folder(Seq<char>),
    Current,
    Program,
    Resources,
}

/// A place where a program is looked for.
pub struct BinaryPlace {
    /// The folder.
    pub root: SearchRoot,
    /// Whether it is the folder `bin` in that folder.
    pub in_bin: bool,
}

/// A place where a program is looked for.
pub ghost struct PlaceView {
    pub root: RootView,
    pub in_bin: bool,
}

impl View for BinaryPlace {
    type V = PlaceView;

    open spec fn view(&self) -> PlaceView {
        PlaceView {
            root: match self.root {
                SearchRoot::Folder(s) => RootView::Folder(s@),
                SearchRoot::Current => RootView::Current,
                SearchRoot::Program => RootView::Program,
                SearchRoot::Resources => RootView::Resources,
            },
            in_bin: self.in_bin,
        }
    }
}

/// What a list of places says.
pub open spec fn place_views(list: Seq<BinaryPlace>) -> Seq<PlaceView> {
    Seq::new(list.len(), |i: int| list[i]@)
}

/// A folder by its name as a place.
pub open spec fn folder_place(name: Seq<char>) -> Seq<PlaceView> {
    seq![PlaceView { root: RootView::Folder(name), in_bin: false }]
}

/// A folder as two places: the folder `bin` in it, and then the folder itself.
pub open spec fn two_places(root: RootView) -> Seq<PlaceView> {
    seq![PlaceView { root, in_bin: true }, PlaceView { root, in_bin: false }]
}

/// Where a program is looked for, in this order: the folder that was chosen, the usual one, and
/// then the current folder, that of the program and that of its resources, as far as they are
/// known, each after the folder `bin` in it.
pub open spec fn search_order(
    platform: Platform,
    ffmpeg_dir: Seq<char>,
    program_known: bool,
    resources_known: bool,
) -> Seq<PlaceView> {
    let chosen = trimmed(ffmpeg_dir);
    (if chosen.len() > 0 {
        folder_place(chosen)
    } else {
        Seq::empty()
    }) + (match usual_folder(platform) {
        Some(dir) => folder_place(dir),
        None => Seq::empty(),
    }) + two_places(RootView::Current) + (if program_known {
        two_places(RootView::Program)
    } else {
        Seq::empty()
    }) + (if resources_known {
        two_places(RootView::Resources)
    } else {
        Seq::empty()
    })
}

fn add_place(list: &mut Vec<BinaryPlace>, root: SearchRoot, in_bin: bool)
    ensures
        place_views(final(list)@) == place_views(old(list)@).push(
            (BinaryPlace { root, in_bin })@,
        ),
{
    let place = BinaryPlace { root, in_bin };
    let ghost before = list@;
    list.push(place);
    assert(place_views(list@) =~= place_views(before).push(place@));
}

/// Where a program is looked for, in this order.
pub fn local_binary_candidates(
    platform: Platform,
    ffmpeg_dir: &str,
    program_known: bool,
    resources_known: bool,
) -> (r: Vec<BinaryPlace>)
    ensures
        place_views(r@) == search_order(platform, ffmpeg_dir@, program_known, resources_known),
{
    let mut list: Vec<BinaryPlace> = Vec::new();
    let chosen = trim(ffmpeg_dir);
    if !chosen.as_str().is_empty() {
        add_place(&mut list, SearchRoot::Folder(chosen), false);
    }
    match default_ffmpeg_dir(platform) {
        Some(dir) => {
            add_place(&mut list, SearchRoot::Folder(dir), false);
        },
        None => {},
    }
    add_place(&mut list, SearchRoot::Current, true);
    add_place(&mut list, SearchRoot::Current, false);
    if program_known {
        add_place(&mut list, SearchRoot::Program, true);
        add_place(&mut list, SearchRoot::Program, false);
    }
    if resources_known {
        add_place(&mut list, SearchRoot::Resources, true);
        add_place(&mut list, SearchRoot::Resources, false);
    }
    assert(place_views(list@) =~= search_order(
        platform,
        ffmpeg_dir@,
        program_known,
        resources_known,
    ));
    list
}

/// A program is looked for first in the folder that was chosen, if one was; on Windows in the usual one;
/// and then in the current folder, that of the program and that of its resources, as far as they are known,
/// in this order, and in the folder `bin` of each before the folder itself.
pub proof fn law_chosen_folder_comes_first(
    platform: Platform,
    ffmpeg_dir: Seq<char>,
    program_known: bool,
    resources_known: bool,
)
    ensures
        ({
            let order = search_order(platform, ffmpeg_dir, program_known, resources_known);
            let chosen = trimmed(ffmpeg_dir).len() > 0;
            let usual = platform == Platform::Windows;
            let folders = (if chosen {
                1int
            } else {
                0
            }) + (if usual {
                1int
            } else {
                0
            });
            let program = folders + 2;
            let resources = program + (if program_known {
                2int
            } else {
                0
            });
            &&& order.len() == resources + (if resources_known {
                2int
            } else {
                0
            })
            &&& chosen ==> order[0] == (PlaceView {
                root: RootView::Folder(trimmed(ffmpeg_dir)),
                in_bin: false,
            })
            &&& usual ==> order[folders - 1] == (PlaceView {
                root: RootView::Folder("D:\\Tools\\ffmpeg\\bin"@),
                in_bin: false,
            })
            &&& order[folders] == (PlaceView { root: RootView::Current, in_bin: true })
            &&& order[folders + 1] == (PlaceView { root: RootView::Current, in_bin: false })
            &&& program_known ==> order[program] == (PlaceView {
                root: RootView::Program,
                in_bin: true,
            }) && order[program + 1] == (PlaceView { root: RootView::Program, in_bin: false })
            &&& resources_known ==> order[resources] == (PlaceView {
                root: RootView::Resources,
                in_bin: true,
            }) && order[resources + 1] == (PlaceView { root: RootView::Resources, in_bin: false })
        }),
{
}

/// What to do next in search of a program.
#[derive(Clone, Copy, Debug, PartialEq, Eq, Structural)]
pub enum FindStep {
    /// See whether the file at the place with this index is there and works.
    Try(usize),
    /// See whether the system finds a working program by its file name.
    TryByName,
    /// Use the file at the place with this index.
    Found(usize),
    /// Use the one that the system finds.
    FoundByName,
    /// There is none.
    Missing,
}

/// What to do next, with so many places, once it is known whether the last try worked.
pub open spec fn next_find_step(places: nat, step: FindStep, works: bool) -> FindStep {
    match step {
        FindStep::Try(i) => if works {
            FindStep::Found(i)
        } else if i + 1 < places {
            FindStep::Try((i + 1) as usize)
        } else {
            FindStep::TryByName
        },
        FindStep::TryByName => if works {
            FindStep::FoundByName
        } else {
            FindStep::Missing
        },
        _ => step,
    }
}

/// What to do first, with so many places.
pub open spec fn first_find_step(places: nat) -> FindStep {
    if places > 0 {
        FindStep::Try(0)
    } else {
        FindStep::TryByName
    }
}

/// What to do first.
pub fn find_binary(places: &Vec<BinaryPlace>) -> (r: FindStep)
    ensures
        r == first_find_step(places@.len()),
{
    if places.len() > 0 {
        FindStep::Try(0)
    } else {
        FindStep::TryByName
    }
}

/// What to do next, once it is known whether the last try worked.
pub fn find_next(places: &Vec<BinaryPlace>, step: FindStep, works: bool) -> (r: FindStep)
    ensures
        r == next_find_step(places@.len(), step, works),
{
    let count = places.len();
    match step {
        FindStep::Try(i) => if works {
            FindStep::Found(i)
        } else if i < count && i + 1 < count {
            FindStep::Try(i + 1)
        } else {
            FindStep::TryByName
        },
        FindStep::TryByName => if works {
            FindStep::FoundByName
        } else {
            FindStep::Missing
        },
        _ => step,
    }
}

/// Where the search ends from a step on, given which places work and whether the name does.
pub open spec fn search_end(works: Seq<bool>, by_name: bool, step: FindStep) -> FindStep
    decreases
            (match step {
                FindStep::Try(i) => if i < works.len() {
                    works.len() - i
                } else {
                    0
                },
                _ => 0,
            }),
{
    match step {
        FindStep::Try(i) => if i < works.len() <= usize::MAX {
            search_end(works, by_name, next_find_step(works.len(), step, works[i as int]))
        } else {
            step
        },
        FindStep::TryByName => next_find_step(works.len(), step, by_name),
        _ => step,
    }
}

/// Whether a search ended as it should: at the first place that works; where none does, with the
/// name, if it works; and otherwise without a program.
pub open spec fn is_search_end(works: Seq<bool>, by_name: bool, end: FindStep) -> bool {
    match end {
        FindStep::Found(i) => i < works.len() && works[i as int] && forall|j: int|
            0 <= j < i ==> !works[j],
        FindStep::FoundByName => by_name && forall|j: int| 0 <= j < works.len() ==> !works[j],
        FindStep::Missing => !by_name && forall|j: int| 0 <= j < works.len() ==> !works[j],
        _ => false,
    }
}

/// The first place that works is used; where none does, the name is, if it works; and otherwise
/// the program is missing.
pub proof fn law_first_working_place_is_used(works: Seq<bool>, by_name: bool)
    requires
        works.len() <= usize::MAX,
    ensures
        is_search_end(works, by_name, search_end(works, by_name, first_find_step(works.len()))),
{
    if works.len() > 0 {
        lemma_search_end(works, by_name, 0);
    }
}

proof fn lemma_search_end(works: Seq<bool>, by_name: bool, from: usize)
    requires
        from < works.len() <= usize::MAX,
        forall|j: int| 0 <= j < from ==> !works[j],
    ensures
        is_search_end(works, by_name, search_end(works, by_name, FindStep::Try(from))),
    decreases works.len() - from,
{
    reveal_with_fuel(search_end, 2);
    if !works[from as int] && from + 1 < works.len() {
        lemma_search_end(works, by_name, (from + 1) as usize);
    }
}

// ---------------------------------------------------------------------------------------------
// Missing programs
// ---------------------------------------------------------------------------------------------

/// What is said of a program that is missing.
pub open spec fn missing_message(binary: Seq<char>, ffmpeg_dir: Seq<char>, platform: Platform) -> Seq<
    char,
> {
    let chosen = trimmed(ffmpeg_dir);
    let name = executable_of(binary, platform);
    if chosen.len() == 0 {
        if platform == Platform::Windows {
            name
                + " was not found. Choose its folder, use D:\\Tools\\ffmpeg\\bin, add it to PATH, or place it in this app's bin folder."@
        } else {
            name
                + " was not found. Choose its folder, add it to PATH, or place it in this app's bin folder."@
        }
    } else {
        name + " was not found in "@ + chosen + ". Choose the folder containing "@ + executable_of(
            "ffmpeg"@,
            platform,
        ) + " and "@ + executable_of("ffprobe"@, platform) + "."@
    }
}

/// What is said of a program that is missing.
pub fn missing_binary_message(binary: &str, ffmpeg_dir: &str, platform: Platform) -> (r: String)
    ensures
        r@ == missing_message(binary@, ffmpeg_dir@, platform),
{
    let selected = trim(ffmpeg_dir);
    let name = executable_name(binary, platform);
    if selected.as_str().is_empty() {
        match platform {
            Platform::Windows => cat2(
                name.as_str(),
                " was not found. Choose its folder, use D:\\Tools\\ffmpeg\\bin, add it to PATH, or place it in this app's bin folder.",
            ),
            _ => cat2(
                name.as_str(),
                " was not found. Choose its folder, add it to PATH, or place it in this app's bin folder.",
            ),
        }
    } else {
        let mut s = cat5(
            name.as_str(),
            " was not found in ",
            selected.as_str(),
            ". Choose the folder containing ",
            executable_name("ffmpeg", platform).as_str(),
        );
        s.append(" and ");
        s.append(executable_name("ffprobe", platform).as_str());
        s.append(".");
        s
    }
}

/// Which of the two programs were found, and where.
pub struct RuntimeStatus {
    pub ffmpeg_found: bool,
    pub ffprobe_found: bool,
    pub ffmpeg_path: Option<String>,
    pub ffprobe_path: Option<String>,
    pub message: String,
}

/// What is said of the two programs together.
pub open spec fn runtime_message(
    ffmpeg: bool,
    ffprobe: bool,
    ffmpeg_dir: Seq<char>,
    platform: Platform,
) -> Seq<char> {
    match (ffmpeg, ffprobe) {
        (true, true) => "ffmpeg and ffprobe are ready."@,
        (false, true) => missing_message("ffmpeg"@, ffmpeg_dir, platform),
        (true, false) => missing_message("ffprobe"@, ffmpeg_dir, platform),
        (false, false) => missing_message("ffmpeg"@, ffmpeg_dir, platform) + " "@
            + missing_message("ffprobe"@, ffmpeg_dir, platform),
    }
}

/// Which of the two programs were found, and where.
pub fn check_runtime(
    ffmpeg: Option<String>,
    ffprobe: Option<String>,
    ffmpeg_dir: &str,
    platform: Platform,
) -> (r: RuntimeStatus)
    ensures
        r.ffmpeg_found == (ffmpeg is Some),
        r.ffprobe_found == (ffprobe is Some),
        r.ffmpeg_path == ffmpeg,
        r.ffprobe_path == ffprobe,
        r.message@ == runtime_message(ffmpeg is Some, ffprobe is Some, ffmpeg_dir@, platform),
{
    let message = match (ffmpeg.is_some(), ffprobe.is_some()) {
        (true, true) => "ffmpeg and ffprobe are ready.".to_string(),
        (false, true) => missing_binary_message("ffmpeg", ffmpeg_dir, platform),
        (true, false) => missing_binary_message("ffprobe", ffmpeg_dir, platform),
        (false, false) => cat3(
            missing_binary_message("ffmpeg", ffmpeg_dir, platform).as_str(),
            " ",
            missing_binary_message("ffprobe", ffmpeg_dir, platform).as_str(),
        ),
    };
    RuntimeStatus {
        ffmpeg_found: ffmpeg.is_some(),
        ffprobe_found: ffprobe.is_some(),
        ffmpeg_path: ffmpeg,
        ffprobe_path: ffprobe,
        message,
    }
}

/// What is said of a missing program begins with its file name, which ends with `.exe` on Windows and
/// nowhere else, and holds the folder that was chosen, if one was.
pub proof fn law_missing_program_is_named(binary: Seq<char>, ffmpeg_dir: Seq<char>, platform: Platform)
    ensures
        ({
            let name = if platform == Platform::Windows {
                binary + ".exe"@
            } else {
                binary
            };
            missing_message(binary, ffmpeg_dir, platform).take(name.len() as int) == name
        }),
        trimmed(ffmpeg_dir).len() > 0 ==> exists|before: Seq<char>, after: Seq<char>|
            missing_message(binary, ffmpeg_dir, platform) == #[trigger] (before + trimmed(ffmpeg_dir)
                + after),
{
    let chosen = trimmed(ffmpeg_dir);
    let name = executable_of(binary, platform);
    let said = missing_message(binary, ffmpeg_dir, platform);
    assert(said.take(name.len() as int) =~= name);
    if chosen.len() > 0 {
        let before = name + " was not found in "@;
        let after = said.skip((before + chosen).len() as int);
        assert(said =~= before + chosen + after);
    }
}

/// What is said of the two programs names those that are missing, and no others.
pub proof fn law_every_missing_program_is_named(
    ffmpeg: bool,
    ffprobe: bool,
    ffmpeg_dir: Seq<char>,
    platform: Platform,
)
    ensures
        ({
            let said = runtime_message(ffmpeg, ffprobe, ffmpeg_dir, platform);
            let first = missing_message("ffmpeg"@, ffmpeg_dir, platform);
            let second = missing_message("ffprobe"@, ffmpeg_dir, platform);
            &&& ffmpeg && ffprobe <==> said == "ffmpeg and ffprobe are ready."@
            &&& !ffmpeg ==> said.take(first.len() as int) == first
            &&& !ffprobe ==> said.skip(said.len() - second.len()) == second
            &&& said.len() == (if ffmpeg && ffprobe {
                29
            } else if ffmpeg {
                second.len()
            } else if ffprobe {
                first.len()
            } else {
                first.len() + 1 + second.len()
            })
        }),
{
    let said = runtime_message(ffmpeg, ffprobe, ffmpeg_dir, platform);
    let first = missing_message("ffmpeg"@, ffmpeg_dir, platform);
    let second = missing_message("ffprobe"@, ffmpeg_dir, platform);
    reveal_strlit("ffmpeg and ffprobe are ready.");
    reveal_strlit(" ");
    reveal_strlit("ffmpeg");
    reveal_strlit("ffprobe");
    reveal_strlit(".exe");
    reveal_strlit(" was not found in ");
    reveal_strlit(
        " was not found. Choose its folder, use D:\\Tools\\ffmpeg\\bin, add it to PATH, or place it in this app's bin folder.",
    );
    reveal_strlit(
        " was not found. Choose its folder, add it to PATH, or place it in this app's bin folder.",
    );
    if !ffmpeg {
        assert(said.take(first.len() as int) =~= first);
    }
    if !ffprobe {
        assert(said.skip(said.len() - second.len()) =~= second);
    }
    if !(ffmpeg && ffprobe) {
        let ready = "ffmpeg and ffprobe are ready."@;
        lemma_said_of_missing("ffmpeg"@, ffmpeg_dir, platform);
        lemma_said_of_missing("ffprobe"@, ffmpeg_dir, platform);
        assert(said[6] != ready[6] || said[7] != ready[7]);
    }
}

proof fn lemma_said_of_missing(binary: Seq<char>, ffmpeg_dir: Seq<char>, platform: Platform)
    requires
        binary == "ffmpeg"@ || binary == "ffprobe"@,
    ensures
        ({
            let said = missing_message(binary, ffmpeg_dir, platform);
            &&& said.len() > 16
            &&& forall|i: int| 0 <= i < binary.len() ==> #[trigger] said[i] == binary[i]
            &&& platform == Platform::Windows ==> said[binary.len() as int] == '.'
            &&& platform != Platform::Windows ==> said[binary.len() as int] == ' ' && said[(binary.len()
                + 1) as int] == 'w'
        }),
{
    reveal_strlit("ffmpeg");
    reveal_strlit("ffprobe");
    reveal_strlit(".exe");
    reveal_strlit(" was not found in ");
    reveal_strlit(
        " was not found. Choose its folder, use D:\\Tools\\ffmpeg\\bin, add it to PATH, or place it in this app's bin folder.",
    );
    reveal_strlit(
        " was not found. Choose its folder, add it to PATH, or place it in this app's bin folder.",
    );
}

// ---------------------------------------------------------------------------------------------
// Stopping a program
// ---------------------------------------------------------------------------------------------

/// A program and its arguments.
pub struct CommandLine {
    pub program: String,
    pub args: Vec<String>,
}

/// The arguments that stop a process and all that it started.
pub open spec fn kill_args(pid: nat, platform: Platform) -> Seq<Seq<char>> {
    if platform == Platform::Windows {
        seq!["/PID"@, decimal(pid), "/T"@, "/F"@]
    } else {
        seq!["-TERM"@, "-"@ + decimal(pid)]
    }
}

/// The command that stops a process and all that it started.
pub fn kill_command(pid: u32, platform: Platform) -> (r: CommandLine)
    ensures
        r.program@ == if platform == Platform::Windows {
            "taskkill"@
        } else {
            "kill"@
        },
        texts(r.args@) == kill_args(pid as nat, platform),
{
    let mut args: Vec<String> = Vec::new();
    let id = number(pid as u64);
    match platform {
        Platform::Windows => {
            args.push("/PID".to_string());
            args.push(id);
            args.push("/T".to_string());
            args.push("/F".to_string());
            assert(texts(args@) =~= kill_args(pid as nat, platform));
            CommandLine { program: "taskkill".to_string(), args }
        },
        _ => {
            args.push("-TERM".to_string());
            args.push(cat2("-", id.as_str()));
            assert(texts(args@) =~= kill_args(pid as nat, platform));
            CommandLine { program: "kill".to_string(), args }
        },
    }
}

/// The process that is stopped is the one that was given, and on systems other than Windows the group that
/// it leads.
pub proof fn law_right_process_is_stopped(pid: nat, platform: Platform)
    ensures
        exists|n: Seq<char>| #[trigger]
            all_digits(n) && digits_value(n) == pid && (if platform == Platform::Windows {
                kill_args(pid, platform)[1] == n
            } else {
                kill_args(pid, platform).last() == "-"@ + n
            }),
{
    lemma_decimal_digits(pid);
    lemma_decimal_value(pid);
    assert(all_digits(decimal(pid)));
}

/// Whether the command that stops a process succeeded, and otherwise what it said.
pub fn kill_result(success: bool, stderr: &[u8]) -> (r: Result<(), String>)
    ensures
        match r {
            Ok(()) => success,
            Err(e) => !success && e@ == "Unable to cancel export: "@ + trimmed(lossy_text(stderr@)),
        },
{
    if success {
        Ok(())
    } else {
        let said = trim(text_from_bytes(stderr).as_str());
        Err(cat2("Unable to cancel export: ", said.as_str()))
    }
}

// ---------------------------------------------------------------------------------------------
// Folders
// ---------------------------------------------------------------------------------------------

/// A variable that names a folder.
#[derive(Clone, Copy, Debug, PartialEq, Eq, Structural)]
pub enum FolderVariable {
    AppData,
    UserProfile,
    Home,
    XdgConfigHome,
}

/// Which of the variables that name folders are there.
#[derive(Clone, Copy, Debug, PartialEq, Eq, Structural)]
pub struct FolderVariables {
    pub app_data: bool,
    pub user_profile: bool,
    pub home: bool,
    pub xdg_config_home: bool,
}

/// A path below a folder that a variable names.
pub struct VariablePath {
    pub base: FolderVariable,
    pub parts: Vec<String>,
}

/// The folder that several programs share: the variable that it is below, and the way from there.
pub open spec fn shared_folder(platform: Platform, set: FolderVariables) -> Option<
    (FolderVariable, Seq<Seq<char>>),
> {
    match platform {
        Platform::Windows => if set.app_data {
            Some((FolderVariable::AppData, seq!["NekoLegends"@]))
        } else if set.user_profile {
            Some((FolderVariable::UserProfile, seq!["NekoLegends"@]))
        } else {
            None
        },
        Platform::MacOs => if set.home {
            Some(
                (
                    FolderVariable::Home,
                    seq!["Library"@, "Application Support"@, "NekoLegends"@],
                ),
            )
        } else {
            None
        },
        Platform::Other => if set.xdg_config_home {
            Some((FolderVariable::XdgConfigHome, seq!["NekoLegends"@]))
        } else if set.home {
            Some((FolderVariable::Home, seq![".config"@, "NekoLegends"@]))
        } else {
            None
        },
    }
}

/// The folder that several programs share, where there is one.
pub fn shared_neko_legends_dir(platform: Platform, set: FolderVariables) -> (r: Option<VariablePath>)
    ensures
        match r {
            Some(path) => shared_folder(platform, set) == Some((path.base, texts(path.parts@))),
            None => shared_folder(platform, set) is None,
        },
{
    let mut parts: Vec<String> = Vec::new();
    let base = match platform {
        Platform::Windows => if set.app_data {
            FolderVariable::AppData
        } else if set.user_profile {
            FolderVariable::UserProfile
        } else {
            return None;
        },
        Platform::MacOs => if set.home {
            parts.push("Library".to_string());
            parts.push("Application Support".to_string());
            FolderVariable::Home
        } else {
            return None;
        },
        Platform::Other => if set.xdg_config_home {
            FolderVariable::XdgConfigHome
        } else if set.home {
            parts.push(".config".to_string());
            FolderVariable::Home
        } else {
            return None;
        },
    };
    parts.push("NekoLegends".to_string());
    assert(texts(parts@) =~= (shared_folder(platform, set)->0).1);
    Some(VariablePath { base, parts })
}

/// The shared folder is below the folder for settings where the variable that names it is there: always on
/// Windows and systems other than macOS. Otherwise it is below the folder of the user, in the place where
/// the system keeps settings. There is none where no variable of the system is there.
pub proof fn law_shared_folder_is_where_settings_are(platform: Platform, set: FolderVariables)
    ensures
        ({
            let folder = shared_folder(platform, set);
            let known = match platform {
                Platform::Windows => set.app_data || set.user_profile,
                Platform::MacOs => set.home,
                Platform::Other => set.xdg_config_home || set.home,
            };
            &&& folder is Some <==> known
            &&& folder matches Some((base, parts)) ==> {
                &&& parts.last() == "NekoLegends"@
                &&& base == FolderVariable::AppData <==> platform == Platform::Windows
                    && set.app_data
                &&& base == FolderVariable::UserProfile <==> platform == Platform::Windows
                    && !set.app_data
                &&& base == FolderVariable::XdgConfigHome <==> platform == Platform::Other
                    && set.xdg_config_home
                &&& base != FolderVariable::Home ==> parts.len() == 1
                &&& base == FolderVariable::Home && platform == Platform::MacOs ==> parts.len() == 3
                    && parts[0] == "Library"@ && parts[1] == "Application Support"@
                &&& base == FolderVariable::Home && platform == Platform::Other ==> parts.len() == 2
                    && parts[0] == ".config"@
            }
        }),
{
}

/// The file of the registry, where there is a folder for it.
pub fn agent_api_registry_path(platform: Platform, set: FolderVariables) -> (r: Option<
    VariablePath,
>)
    ensures
        match r {
            Some(path) => {
                &&& shared_folder(platform, set) matches Some((base, parts))
                &&& path.base == base
                &&& texts(path.parts@) == parts.push("agent-api-registry.json"@)
            },
            None => shared_folder(platform, set) is None,
        },
{
    match shared_neko_legends_dir(platform, set) {
        Some(path) => {
            let VariablePath { base, mut parts } = path;
            let ghost before = parts@;
            parts.push("agent-api-registry.json".to_string());
            assert(texts(parts@) =~= texts(before).push("agent-api-registry.json"@));
            Some(VariablePath { base, parts })
        },
        None => None,
    }
}

/// A folder to be opened.
#[derive(Clone, Copy, Debug, PartialEq, Eq, Structural)]
pub enum FolderChoice {
    /// The path itself.
    Itself,
    /// The folder that the path is in.
    Parent,
}

/// The folder to open for a path: the path, if it is a folder, and otherwise the one that it is
/// in.
pub fn containing_folder(is_folder: bool, has_parent: bool) -> (r: Result<FolderChoice, String>)
    ensures
        match r {
            Ok(FolderChoice::Itself) => is_folder,
            Ok(FolderChoice::Parent) => !is_folder && has_parent,
            Err(e) => !is_folder && !has_parent && e@ == "Unable to resolve containing folder."@,
        },
{
    if is_folder {
        Ok(FolderChoice::Itself)
    } else if has_parent {
        Ok(FolderChoice::Parent)
    } else {
        Err("Unable to resolve containing folder.".to_string())
    }
}

/// Refuses to open a folder that is not there.
pub fn check_folder(exists: bool, shown: &str) -> (r: Result<(), String>)
    ensures
        r is Ok <==> exists,
        r matches Err(e) ==> e@ == "Folder does not exist: "@ + shown@,
{
    if exists {
        Ok(())
    } else {
        Err(cat2("Folder does not exist: ", shown))
    }
}

} // verus!
