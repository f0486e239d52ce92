//! Videos: which files are videos, in what order they are listed, and what the probing program
//! says of them.

use crate::arithmetic::{
    lemma_large, lemma_product_error, lemma_quotient_error, lemma_times, lemma_unit_is_large,
    product, quotient,
};
use crate::double::{lemma_constants, lemma_zero, unit, Real, HUNDRED, MILLION};
use crate::megabytes::lemma_million;
use crate::options::is_no_time;
use crate::text::{
    chars_of, decimal, find_char, is_digit, is_space, law_trimming_takes_only_white_space,
    lemma_decimal_digits, lemma_decimal_reads_back, lemma_position, lossy_text, lowered, opt_text,
    parse, parsed, position, same_ignoring_case, same_text_ignoring_case, strip, stripped,
    text_from_bytes, text_of, texts, trim, trimmed,
};
use vstd::arithmetic::power2::pow2;
use vstd::prelude::*;

verus! {

// ---------------------------------------------------------------------------------------------
// Finding videos
// ---------------------------------------------------------------------------------------------

/// The endings of the names of videos.
pub open spec fn video_extensions() -> Seq<Seq<char>> {
    seq![
        "mp4"@,
        "mov"@,
        "m4v"@,
        "mkv"@,
        "avi"@,
        "webm"@,
        "wmv"@,
        "flv"@,
        "mpeg"@,
        "mpg"@,
        "ts"@,
        "mts"@,
        "m2ts"@,
    ]
}

/// Whether a file with this ending is a video. The case of letters does not matter.
pub open spec fn is_video_extension(extension: Seq<char>) -> bool {
    exists|i: int|
        0 <= i < video_extensions().len() && same_ignoring_case(
            #[trigger] video_extensions()[i],
            extension,
        )
}

/// Whether a file with this ending, if it has one that can be read, is a video.
pub fn is_video_file(extension: Option<&str>) -> (r: bool)
    ensures
        r == (extension matches Some(e) && is_video_extension(e@)),
{
    match extension {
        None => false,
        Some(e) => {
            let known: [&str; 13] = [
                "mp4",
                "mov",
                "m4v",
                "mkv",
                "avi",
                "webm",
                "wmv",
                "flv",
                "mpeg",
                "mpg",
                "ts",
                "mts",
                "m2ts",
            ];
            let mut i: usize = 0;
            while i < 13
                invariant
                    extension == Some(e),
                    i <= 13,
                    known@.len() == 13,
                    forall|j: int| 0 <= j < 13 ==> (#[trigger] known@[j])@ == video_extensions()[j],
                    forall|j: int|
                        0 <= j < i ==> !same_ignoring_case(
                            #[trigger] video_extensions()[j],
                            e@,
                        ),
                decreases 13 - i,
            {
                assert(known@[i as int]@ == video_extensions()[i as int]);
                if same_text_ignoring_case(known[i], e) {
                    assert(video_extensions().len() == 13);
                    assert(same_ignoring_case(video_extensions()[i as int], e@));
                    return true;
                }
                i += 1;
            }
            false
        },
    }
}

/// What is at a path.
#[derive(Clone, Copy, Debug, PartialEq, Eq, Structural)]
pub enum PathKind {
    File,
    Folder,
    Neither,
}

/// What to do about a path while videos are collected.
#[derive(Clone, Copy, Debug, PartialEq, Eq, Structural)]
pub enum Visit {
    /// Add it to the list.
    Collect,
    /// Look at what the folder holds.
    Descend,
    /// Leave it.
    Skip,
}

/// What to do about a path that was asked for: a video is added, and a folder is looked into.
pub open spec fn root_visit(kind: PathKind, video: bool) -> Visit {
    match kind {
        PathKind::File => if video {
            Visit::Collect
        } else {
            Visit::Skip
        },
        PathKind::Folder => Visit::Descend,
        PathKind::Neither => Visit::Skip,
    }
}

/// What to do about a path in a folder: folders in it are looked into only if that was asked for.
pub open spec fn entry_visit(kind: PathKind, video: bool, recursive: bool) -> Visit {
    match kind {
        PathKind::Folder => if recursive {
            Visit::Descend
        } else {
            Visit::Skip
        },
        _ => root_visit(kind, video),
    }
}

/// What to do about a path that was asked for.
pub fn visit_root(kind: PathKind, extension: Option<&str>) -> (r: Visit)
    ensures
        r == root_visit(kind, extension matches Some(e) && is_video_extension(e@)),
{
    match kind {
        PathKind::File => if is_video_file(extension) {
            Visit::Collect
        } else {
            Visit::Skip
        },
        PathKind::Folder => Visit::Descend,
        PathKind::Neither => Visit::Skip,
    }
}

/// What to do about a path in a folder.
pub fn visit_entry(kind: PathKind, extension: Option<&str>, recursive: bool) -> (r: Visit)
    ensures
        r == entry_visit(kind, extension matches Some(e) && is_video_extension(e@), recursive),
{
    match kind {
        PathKind::Folder => if recursive {
            Visit::Descend
        } else {
            Visit::Skip
        },
        _ => visit_root(kind, extension),
    }
}

// ---------------------------------------------------------------------------------------------
// The order of paths
// ---------------------------------------------------------------------------------------------

/// Whether, from an index up to which two texts agree, the first comes before the second: by the
/// first character in which they differ, or by its being the shorter one.
pub open spec fn less_from(a: Seq<char>, b: Seq<char>, i: int) -> bool
    decreases b.len() - i,
{
    if i >= b.len() {
        false
    } else if i >= a.len() {
        true
    } else if a[i] == b[i] {
        less_from(a, b, i + 1)
    } else {
        a[i] < b[i]
    }
}

/// Whether the first text comes before the second.
pub open spec fn less(a: Seq<char>, b: Seq<char>) -> bool {
    less_from(a, b, 0)
}

/// Of two different texts exactly one comes before the other.
pub proof fn law_order_is_total(a: Seq<char>, b: Seq<char>)
    ensures
        !(less(a, b) && less(b, a)),
        a != b ==> less(a, b) || less(b, a),
        a == b ==> !less(a, b),
{
    lemma_total_from(a, b, 0);
    if a == b {
        lemma_irreflexive_from(a, 0);
    }
}

proof fn lemma_irreflexive_from(a: Seq<char>, i: int)
    ensures
        !less_from(a, a, i),
    decreases a.len() - i,
{
    if i < a.len() {
        lemma_irreflexive_from(a, i + 1);
    }
}

proof fn lemma_total_from(a: Seq<char>, b: Seq<char>, i: int)
    requires
        0 <= i,
        forall|j: int| 0 <= j < i && j < a.len() && j < b.len() ==> a[j] == b[j],
        i <= a.len() && i <= b.len(),
    ensures
        !(less_from(a, b, i) && less_from(b, a, i)),
        a != b ==> less_from(a, b, i) || less_from(b, a, i),
    decreases b.len() - i,
{
    if i < a.len() && i < b.len() && a[i] == b[i] {
        lemma_total_from(a, b, i + 1);
    } else if i >= a.len() && i >= b.len() {
        assert(a =~= b);
    }
}

/// What comes before a text that comes before a third comes before the third.
pub proof fn law_order_is_transitive(a: Seq<char>, b: Seq<char>, c: Seq<char>)
    requires
        less(a, b),
        less(b, c),
    ensures
        less(a, c),
{
    lemma_transitive_from(a, b, c, 0);
}

proof fn lemma_transitive_from(a: Seq<char>, b: Seq<char>, c: Seq<char>, i: int)
    requires
        0 <= i,
        less_from(a, b, i),
        less_from(b, c, i),
    ensures
        less_from(a, c, i),
    decreases c.len() - i,
{
    if i < a.len() && i < b.len() && i < c.len() && a[i] == b[i] && b[i] == c[i] {
        lemma_transitive_from(a, b, c, i + 1);
    }
}

fn comes_before(a: &str, b: &str) -> (r: bool)
    ensures
        r == less(a@, b@),
{
    let left = chars_of(a);
    let right = chars_of(b);
    let mut i: usize = 0;
    while i < left.len() && i < right.len() && left[i] == right[i]
        invariant
            left@ == a@,
            right@ == b@,
            i <= left@.len(),
            i <= right@.len(),
            less(a@, b@) == less_from(a@, b@, i as int),
        decreases right@.len() - i,
    {
        i += 1;
    }
    if i >= right.len() {
        false
    } else if i >= left.len() {
        true
    } else {
        left[i] < right[i]
    }
}

/// Whether each text of a list comes before all later ones.
pub open spec fn increasing(list: Seq<Seq<char>>) -> bool {
    forall|i: int, j: int| 0 <= i < j < list.len() ==> less(#[trigger] list[i], #[trigger] list[j])
}

/// The index at which a text is, or belongs, in a list in which each comes before the later ones.
fn find_place(list: &Vec<String>, s: &String) -> (r: usize)
    requires
        increasing(texts(list@)),
    ensures
        r <= list@.len(),
        forall|i: int| 0 <= i < r ==> less(#[trigger] texts(list@)[i], s@),
        forall|i: int| r <= i < list@.len() ==> !less(#[trigger] texts(list@)[i], s@),
{
    let ghost view = texts(list@);
    let mut low: usize = 0;
    let mut high: usize = list.len();
    while low < high
        invariant
            view == texts(list@),
            increasing(view),
            low <= high <= list@.len(),
            forall|i: int| 0 <= i < low ==> less(#[trigger] view[i], s@),
            forall|i: int| high <= i < view.len() ==> !less(#[trigger] view[i], s@),
        decreases high - low,
    {
        let middle: usize = low + (high - low) / 2;
        assert(view[middle as int] == list@[middle as int]@);
        if comes_before(list[middle].as_str(), s.as_str()) {
            assert forall|i: int| 0 <= i < middle + 1 implies less(#[trigger] view[i], s@) by {
                if i < middle {
                    law_order_is_transitive(view[i], view[middle as int], s@);
                }
            }
            low = middle + 1;
        } else {
            assert forall|i: int| middle <= i < view.len() implies !less(
                #[trigger] view[i],
                s@,
            ) by {
                if middle < i && less(view[i], s@) {
                    law_order_is_transitive(view[middle as int], view[i], s@);
                }
            }
            high = middle;
        }
    }
    low
}

/// The paths that were found, each once, in order.
pub fn resolve_inputs(found: &Vec<String>) -> (r: Vec<String>)
    ensures
        increasing(texts(r@)),
        forall|s: Seq<char>| texts(r@).contains(s) <==> texts(found@).contains(s),
{
    let mut list: Vec<String> = Vec::new();
    let mut n: usize = 0;
    while n < found.len()
        invariant
            n <= found@.len(),
            increasing(texts(list@)),
            forall|s: Seq<char>|
                texts(list@).contains(s) <==> exists|k: int|
                    0 <= k < n && (#[trigger] found@[k])@ == s,
        decreases found@.len() - n,
    {
        let ghost before = texts(list@);
        let place = find_place(&list, &found[n]);
        let known = place < list.len() && crate::text::same(
            list[place].as_str(),
            found[n].as_str(),
        );
        if known {
            assert(before[place as int] == found@[n as int]@);
        } else {
            let ghost item = found@[n as int]@;
            list.insert(place, found[n].clone());
            let ghost after = texts(list@);
            proof {
                assert(after =~= before.insert(place as int, item));
                assert forall|i: int, j: int| 0 <= i < j < after.len() implies less(
                    #[trigger] after[i],
                    #[trigger] after[j],
                ) by {
                    if i < place {
                        assert(after[i] == before[i]);
                    }
                    if j < place {
                        assert(after[j] == before[j]);
                    }
                    if j > place {
                        assert(after[j] == before[j - 1]);
                        law_order_is_total(before[j - 1], item);
                        if before[j - 1] == item {
                            // The item would be at a later index than its place.
                            if j - 1 > place {
                                law_order_is_total(before[place as int], item);
                                assert(less(before[place as int], before[j - 1]));
                            }
                        }
                    }
                    if i > place {
                        assert(after[i] == before[i - 1]);
                    }
                }
                assert forall|s: Seq<char>| after.contains(s) <==> before.contains(s) || s
                    == item by {
                    if before.contains(s) {
                        let i = choose|i: int| 0 <= i < before.len() && before[i] == s;
                        if i < place {
                            assert(after[i] == s);
                        } else {
                            assert(after[i + 1] == s);
                        }
                    }
                    if s == item {
                        assert(after[place as int] == s);
                    }
                    if after.contains(s) {
                        let i = choose|i: int| 0 <= i < after.len() && after[i] == s;
                        if i < place {
                            assert(before[i] == s);
                        } else if i > place {
                            assert(before[i - 1] == s);
                        }
                    }
                }
            }
        }
        assert forall|s: Seq<char>| texts(list@).contains(s) <==> exists|k: int|
            0 <= k < n + 1 && (#[trigger] found@[k])@ == s by {
            if s == found@[n as int]@ {
                if known {
                    assert(texts(list@)[place as int] == s);
                }
            }
        }
        n += 1;
    }
    assert forall|s: Seq<char>| texts(list@).contains(s) <==> texts(found@).contains(s) by {
        if texts(found@).contains(s) {
            let k = choose|k: int| 0 <= k < texts(found@).len() && texts(found@)[k] == s;
            assert(found@[k]@ == s);
        }
        if texts(list@).contains(s) {
            let k = choose|k: int| 0 <= k < found@.len() && (#[trigger] found@[k])@ == s;
            assert(texts(found@)[k] == s);
        }
    }
    list
}

/// Two lists in order with the same paths are the same list.
pub proof fn law_listing_is_unique(a: Seq<Seq<char>>, b: Seq<Seq<char>>)
    requires
        increasing(a),
        increasing(b),
        forall|s: Seq<char>| a.contains(s) <==> b.contains(s),
    ensures
        a == b,
    decreases a.len(),
{
    if a.len() == 0 {
        if b.len() > 0 {
            assert(b.contains(b[0]));
            assert(a.contains(b[0]));
        }
        assert(a =~= b);
    } else if b.len() == 0 {
        assert(a.contains(a[0]));
        assert(b.contains(a[0]));
    } else {
        let x = a.last();
        let y = b.last();
        assert(a.contains(x) && b.contains(y));
        assert(b.contains(x) && a.contains(y));
        let i = choose|i: int| 0 <= i < b.len() && b[i] == x;
        let j = choose|j: int| 0 <= j < a.len() && a[j] == y;
        if x != y {
            assert(less(b[i], b[b.len() - 1]));
            assert(less(a[j], a[a.len() - 1]));
            law_order_is_total(x, y);
        }
        let p = a.drop_last();
        let q = b.drop_last();
        assert forall|s: Seq<char>| p.contains(s) <==> q.contains(s) by {
            if p.contains(s) {
                let k = choose|k: int| 0 <= k < p.len() && p[k] == s;
                assert(a[k] == s);
                assert(less(a[k], a[a.len() - 1]));
                law_order_is_total(s, x);
                assert(a.contains(s));
                let m = choose|m: int| 0 <= m < b.len() && b[m] == s;
                assert(q[m] == s);
            }
            if q.contains(s) {
                let k = choose|k: int| 0 <= k < q.len() && q[k] == s;
                assert(b[k] == s);
                assert(less(b[k], b[b.len() - 1]));
                law_order_is_total(s, y);
                assert(b.contains(s));
                let m = choose|m: int| 0 <= m < a.len() && a[m] == s;
                assert(p[m] == s);
            }
        }
        assert forall|i: int, j: int| 0 <= i < j < p.len() implies less(
            #[trigger] p[i],
            #[trigger] p[j],
        ) by {
            assert(less(a[i], a[j]));
        }
        assert forall|i: int, j: int| 0 <= i < j < q.len() implies less(
            #[trigger] q[i],
            #[trigger] q[j],
        ) by {
            assert(less(b[i], b[j]));
        }
        law_listing_is_unique(p, q);
        assert(a =~= p.push(x));
        assert(b =~= q.push(y));
    }
}

// ---------------------------------------------------------------------------------------------
// What the probing program says
// ---------------------------------------------------------------------------------------------

/// What a program wrote as one piece of text, without the white space around it.
pub fn said(output: &[u8]) -> (r: String)
    ensures
        r@ == trimmed(lossy_text(output@)),
{
    trim(text_from_bytes(output).as_str())
}

/// The length of a video as the program wrote it, or what it said in place of it.
pub fn duration_reply(success: bool, stdout: &[u8], stderr: &[u8]) -> (r: Result<String, String>)
    ensures
        match r {
            Ok(text) => success && text@ == trimmed(lossy_text(stdout@)),
            Err(e) => !success && e@ == trimmed(lossy_text(stderr@)),
        },
{
    if success {
        Ok(said(stdout))
    } else {
        Err(said(stderr))
    }
}

/// What is said of a length that is not a number.
pub fn unreadable_duration_message() -> (r: String)
    ensures
        r@ == "ffprobe did not return a readable duration."@,
{
    "ffprobe did not return a readable duration.".to_string()
}

/// Whether a video has sound: the program listed some.
pub fn has_audio_reply(success: bool, stdout: &[u8]) -> (r: bool)
    ensures
        r == (success && stdout@.len() > 0),
{
    success && stdout.len() > 0
}

/// Width and height as the program writes them: two numbers with an `x` between them. What
/// follows a second `x` does not matter.
pub open spec fn resolution_of(text: Seq<char>) -> Option<(u32, u32)> {
    let first = position(text, 'x', 0);
    if first >= text.len() {
        None
    } else {
        let second = position(text, 'x', first + 1);
        match (
            parsed(text.take(first), u32::MAX as nat),
            parsed(text.subrange(first + 1, second), u32::MAX as nat),
        ) {
            (Some(width), Some(height)) => Some((width as u32, height as u32)),
            _ => None,
        }
    }
}

/// Reads width and height.
pub fn parse_resolution(text: &str) -> (r: Option<(u32, u32)>)
    ensures
        r == resolution_of(text@),
{
    let chars = chars_of(text);
    let first = find_char(&chars, 'x', 0);
    if first >= chars.len() {
        return None;
    }
    let second = find_char(&chars, 'x', first + 1);
    let width_text = text_of(&chars, 0, first);
    let height_text = text_of(&chars, first + 1, second);
    assert(width_text@ =~= text@.take(first as int));
    match parse(width_text.as_str(), u32::MAX as u64) {
        Some(width) => match parse(height_text.as_str(), u32::MAX as u64) {
            Some(height) => Some((width as u32, height as u32)),
            None => None,
        },
        None => None,
    }
}

/// Width and height of a video, if the program wrote them.
pub fn resolution_reply(success: bool, stdout: &[u8]) -> (r: Option<(u32, u32)>)
    ensures
        r == if success {
            resolution_of(trimmed(lossy_text(stdout@)))
        } else {
            None
        },
{
    if success {
        parse_resolution(said(stdout).as_str())
    } else {
        None
    }
}

/// What is known of a video.
pub struct VideoInfo {
    pub path: String,
    pub duration_seconds: Option<Real>,
    pub width: Option<u32>,
    pub height: Option<u32>,
    pub has_audio: bool,
    pub error: Option<String>,
}

/// What is known of a video: everything that was asked, where its length could be found out, and
/// otherwise only why not.
pub open spec fn is_info(
    r: VideoInfo,
    duration: Result<Real, String>,
    resolution: Option<(u32, u32)>,
    has_audio: bool,
) -> bool {
    match duration {
        Ok(seconds) => {
            &&& r.duration_seconds == Some(seconds)
            &&& r.width == (match resolution {
                Some((w, _)) => Some(w),
                None => None,
            })
            &&& r.height == (match resolution {
                Some((_, h)) => Some(h),
                None => None,
            })
            &&& r.has_audio == has_audio
            &&& r.error is None
        },
        Err(e) => {
            &&& r.duration_seconds is None
            &&& r.width is None
            &&& r.height is None
            &&& !r.has_audio
            &&& opt_text(r.error) == Some(e@)
        },
    }
}

/// Of a video whose length is known, length, width, height and sound are the ones that were found; of any
/// other, nothing is known but why.
pub proof fn law_info_holds_what_was_found(
    r: VideoInfo,
    seconds: Real,
    width: u32,
    height: u32,
    has_audio: bool,
    error: String,
    resolution: Option<(u32, u32)>,
)
    ensures
        is_info(r, Ok(seconds), Some((width, height)), has_audio) ==> r.duration_seconds == Some(
            seconds,
        ) && r.width == Some(width) && r.height == Some(height) && r.has_audio == has_audio
            && r.error is None,
        is_info(r, Err(error), resolution, has_audio) ==> r.duration_seconds is None && r.width
            is None && r.height is None && !r.has_audio && opt_text(r.error) == Some(error@),
{
}

/// What is known of a video: everything that was asked, where its length could be found out, and
/// otherwise only why not.
pub fn video_info(
    path: String,
    duration: Result<Real, String>,
    resolution: Option<(u32, u32)>,
    has_audio: bool,
) -> (r: VideoInfo)
    ensures
        r.path == path,
        is_info(r, duration, resolution, has_audio),
        match duration {
            Ok(seconds) => {
                &&& r.duration_seconds == Some(seconds)
                &&& r.width == (match resolution {
                    Some((w, _)) => Some(w),
                    None => None,
                })
                &&& r.height == (match resolution {
                    Some((_, h)) => Some(h),
                    None => None,
                })
                &&& r.has_audio == has_audio
                &&& r.error is None
            },
            Err(e) => {
                &&& r.duration_seconds is None
                &&& r.width is None
                &&& r.height is None
                &&& !r.has_audio
                &&& opt_text(r.error) == Some(e@)
            },
        },
{
    match duration {
        Ok(seconds) => {
            let (width, height) = match resolution {
                Some((w, h)) => (Some(w), Some(h)),
                None => (None, None),
            };
            VideoInfo {
                path,
                duration_seconds: Some(seconds),
                width,
                height,
                has_audio,
                error: None,
            }
        },
        Err(e) => VideoInfo {
            path,
            duration_seconds: None,
            width: None,
            height: None,
            has_audio: false,
            error: Some(e),
        },
    }
}

/// The number of microseconds that a line of progress reports, as it is written there.
pub open spec fn progress_text(line: Seq<char>) -> Option<Seq<char>> {
    match stripped(line, "out_time_ms="@) {
        Some(v) => Some(trimmed(v)),
        None => None,
    }
}

/// The number of microseconds that a line of progress reports, as it is written there.
pub fn progress_value(line: &str) -> (r: Option<String>)
    ensures
        opt_text(r) == progress_text(line@),
{
    match strip(line, "out_time_ms=") {
        Some(v) => Some(trim(v.as_str())),
        None => None,
    }
}

/// How far an export of a length is once so many microseconds are done, in percent.
pub open spec fn share_of(micros: Real, output_duration: Real) -> Real {
    product(
        quotient(quotient(micros, Real { bits: MILLION }), output_duration),
        Real { bits: HUNDRED },
    )
}

/// How far an export of a length is, in percent from zero to a hundred. An export of no length has no
/// progress.
pub open spec fn percent_of(micros: Real, output_duration: Real) -> Option<Real> {
    if is_no_time(output_duration) {
        None
    } else {
        Some(share_of(micros, output_duration).limited(Real { bits: HUNDRED }))
    }
}

/// How far an export of a length is once so many microseconds are done, in percent from zero to a
/// hundred. An export of no length has no progress.
pub fn progress_percent(micros: Real, output_duration: Real) -> (r: Option<Real>)
    ensures
        r == percent_of(micros, output_duration),
        r == if is_no_time(output_duration) {
            None
        } else {
            Some(share_of(micros, output_duration).limited(Real { bits: HUNDRED }))
        },
        r matches Some(percent) ==> percent.is_number() ==> 0 <= percent.value() <= 100 * unit(),
{
    proof {
        lemma_zero();
        lemma_constants();
    }
    if output_duration.le(Real { bits: 0 }) {
        None
    } else {
        let share = micros.over(Real { bits: MILLION }).over(output_duration).times(
            Real { bits: HUNDRED },
        );
        Some(share.limit(Real { bits: HUNDRED }))
    }
}

/// Where the export lasts from a millionth of a second to a million of millions of seconds, and the
/// microseconds are none, or from one up to a million of millions of millions: the percent times the
/// length is a ten-thousandth of the microseconds, to one part in a million, but for the limit of a
/// hundred.
pub proof fn law_progress_is_the_share_done(micros: Real, output_duration: Real)
    requires
        micros.is_finite(),
        !micros.is_negative(),
        micros.value() == 0 || micros.value() >= unit(),
        micros.value() <= 1_000_000_000_000_000_000 * unit(),
        output_duration.is_finite(),
        output_duration.value() <= 1_000_000_000_000 * unit(),
        1_000_000 * output_duration.value() >= unit(),
    ensures
        percent_of(micros, output_duration) matches Some(percent) && {
            let done = micros.value() * unit();
            let all = 1_000_000 * (output_duration.value() * unit());
            let shown = 10_000 * (percent.value() * output_duration.value());
            &&& percent.is_finite()
            &&& percent.value() <= 100 * unit()
            &&& 1_000_000 * shown <= 1_000_001 * done
            &&& percent.value() < 100 * unit() ==> 999_999 * done <= 1_000_000 * shown
            &&& percent.value() == 100 * unit() ==> all <= done + done / 1_000_000 + 1
        },
{
    lemma_zero();
    lemma_large();
    lemma_constants();
    lemma_million();
    lemma_unit_is_large();
    let u = unit();
    let l = pow2(1000) as int;
    let x = micros.value();
    let d = output_duration.value();
    let million = Real { bits: MILLION };
    let hundred = Real { bits: HUNDRED };
    assert(x <= l * (1_000_000 * u)) by (nonlinear_arith)
        requires
            x <= 1_000_000_000_000_000_000 * u,
            l >= 1_000_000_000_000_000_000,
            u > 0,
    ;
    assert(x > 0 ==> x * u >= 0x10_0000_0000_0000 * (1_000_000 * u)) by (nonlinear_arith)
        requires
            x == 0 || x >= u,
            u >= 0x1_0000_0000_0000_0000_0000_0000_0000_0000_0000_0000,
    ;
    lemma_quotient_error(micros, million);
    let w1 = quotient(micros, million);
    let a1 = w1.value();
    assert(0x20_0000_0000_0000 * (1_000_000 * a1) <= 0x20_0000_0000_0001 * x && 0x1f_ffff_ffff_ffff
        * x <= 0x20_0000_0000_0000 * (1_000_000 * a1)) by (nonlinear_arith)
        requires
            0x20_0000_0000_0000 * (a1 * (1_000_000 * u)) <= 0x20_0000_0000_0001 * (x * u),
            0x1f_ffff_ffff_ffff * (x * u) <= 0x20_0000_0000_0000 * (a1 * (1_000_000 * u)),
            u > 0,
    ;
    assert(a1 <= l * d) by (nonlinear_arith)
        requires
            a1 <= 1_000_000_000_001 * u,
            1_000_000 * d >= u,
            l >= 0x1_0000_0000_0000_0000_0000_0000_0000_0000_0000_0000,
            u > 0,
    ;
    assert(a1 > 0 ==> a1 * u >= 0x10_0000_0000_0000 * d) by (nonlinear_arith)
        requires
            a1 == 0 || 2_000_000 * a1 >= u,
            d <= 1_000_000_000_000 * u,
            u >= 0x1_0000_0000_0000_0000_0000_0000_0000_0000_0000_0000,
            a1 >= 0,
    ;
    lemma_quotient_error(w1, output_duration);
    let w2 = quotient(w1, output_duration);
    let a2 = w2.value();
    assert(a2 <= 1_000_000_000_000_000_000_000 * u) by (nonlinear_arith)
        requires
            0x20_0000_0000_0000 * (a2 * d) <= 0x20_0000_0000_0001 * (a1 * u),
            a1 <= 1_000_000_000_001 * u,
            1_000_000 * d >= u,
            u > 0,
    ;
    assert(a1 > 0 ==> 0x10_0000_0000_0000_0000_0000 * a2 >= u) by (nonlinear_arith)
        requires
            0x1f_ffff_ffff_ffff * (a1 * u) <= 0x20_0000_0000_0000 * (a2 * d),
            a1 == 0 || 2_000_000 * a1 >= u,
            d <= 1_000_000_000_000 * u,
            d > 0,
            u > 0,
    ;
    assert(a1 == 0 ==> a2 == 0) by (nonlinear_arith)
        requires
            0x20_0000_0000_0000 * (a2 * d) <= 0x20_0000_0000_0001 * (a1 * u),
            d > 0,
            a2 >= 0,
    ;
    assert(a2 * (100 * u) == (100 * a2) * u) by (nonlinear_arith);
    assert((100 * a2) * u <= l * u * u) by (nonlinear_arith)
        requires
            a2 <= 1_000_000_000_000_000_000_000 * u,
            l >= 0x1_0000_0000_0000_0000_0000_0000_0000_0000_0000_0000,
            u > 0,
    ;
    assert(a2 > 0 ==> (100 * a2) * u >= 0x10_0000_0000_0000 * u) by (nonlinear_arith)
        requires
            a2 == 0 || 0x10_0000_0000_0000_0000_0000 * a2 >= u,
            u >= 0x1_0000_0000_0000_0000_0000_0000_0000_0000_0000_0000,
    ;
    assert(a2 == 0 ==> (100 * a2) * u == 0) by (nonlinear_arith);
    lemma_product_error(w2, hundred);
    let w3 = product(w2, hundred);
    let a3 = w3.value();
    assert(0x20_0000_0000_0000 * a3 <= 0x20_0000_0000_0001 * (100 * a2) && 0x1f_ffff_ffff_ffff * (
    100 * a2) <= 0x20_0000_0000_0000 * a3) by (nonlinear_arith)
        requires
            0x20_0000_0000_0000 * (a3 * u) <= 0x20_0000_0000_0001 * ((100 * a2) * u),
            0x1f_ffff_ffff_ffff * ((100 * a2) * u) <= 0x20_0000_0000_0000 * (a3 * u),
            u > 0,
    ;
    lemma_times(0x20_0000_0000_0000, a3, 0x20_0000_0000_0001, 100 * a2, d);
    lemma_times(0x1f_ffff_ffff_ffff, 100 * a2, 0x20_0000_0000_0000, a3, d);
    lemma_times(0x20_0000_0000_0000, 1_000_000 * a1, 0x20_0000_0000_0001, x, u);
    lemma_times(0x1f_ffff_ffff_ffff, x, 0x20_0000_0000_0000, 1_000_000 * a1, u);
    assert((100 * a2) * d == 100 * (a2 * d) && (1_000_000 * a1) * u == 1_000_000 * (a1 * u))
        by (nonlinear_arith);
    let done = x * u;
    assert(done >= 0) by (nonlinear_arith)
        requires
            done == x * u,
            x >= 0,
            u > 0,
    ;
    assert(100_000_000 * (10_000 * (a3 * d)) <= 100_000_001 * done);
    assert(99_999_999 * done <= 100_000_000 * (10_000 * (a3 * d)));
    let percent = w3.limited(hundred).value();
    if a3 > 100 * u {
        assert(percent * d <= a3 * d) by (nonlinear_arith)
            requires
                percent <= a3,
                d > 0,
        ;
    }
    if percent == 100 * u {
        assert((100 * u) * d <= a3 * d) by (nonlinear_arith)
            requires
                100 * u <= a3,
                d > 0,
        ;
        assert((100 * u) * d == 100 * (d * u)) by (nonlinear_arith);
        let q = done / 1_000_000;
        assert(1_000_000 * q <= done < 1_000_000 * q + 1_000_000);
    }
}

/// Width and height are read back as they are written, with an `x` between them.
pub proof fn law_resolution_is_read_back(width: u32, height: u32)
    ensures
        resolution_of(decimal(width as nat) + seq!['x'] + decimal(height as nat)) == Some(
            (width, height),
        ),
{
    let a = decimal(width as nat);
    let b = decimal(height as nat);
    let s = a + seq!['x'] + b;
    let n = a.len() as int;
    lemma_decimal_digits(width as nat);
    lemma_decimal_digits(height as nat);
    assert forall|i: int| 0 <= i < n implies s[i] != 'x' by {
        assert(s[i] == a[i] && is_digit(a[i]));
    }
    assert forall|i: int| n < i < s.len() implies s[i] != 'x' by {
        assert(s[i] == b[i - n - 1] && is_digit(b[i - n - 1]));
    }
    assert(s[n] == 'x');
    lemma_position(s, 'x', 0);
    assert(position(s, 'x', 0) == n);
    lemma_position(s, 'x', n + 1);
    assert(position(s, 'x', n + 1) == s.len());
    assert(s.take(n) =~= a);
    assert(s.subrange(n + 1, s.len() as int) =~= b);
    lemma_decimal_reads_back(width as nat, u32::MAX as nat);
    lemma_decimal_reads_back(height as nat, u32::MAX as nat);
}

/// A value that does not begin or end with white space is read back from the line that reports it.
pub proof fn law_progress_line_is_read_back(value: Seq<char>)
    requires
        value.len() > 0,
        !is_space(value[0]),
        !is_space(value.last()),
    ensures
        progress_text("out_time_ms="@ + value) == Some(value),
{
    let head = "out_time_ms="@;
    let line = head + value;
    assert(line.take(head.len() as int) =~= head);
    assert(line.skip(head.len() as int) =~= value);
    law_trimming_takes_only_white_space(value);
}

/// The videos are the files whose names end in one of thirteen ways. The case of letters does not
/// matter.
pub proof fn law_videos_are_known_by_their_endings(extension: Seq<char>)
    ensures
        is_video_extension(extension) <==> {
            let e = lowered(extension);
            ||| e == "mp4"@
            ||| e == "mov"@
            ||| e == "m4v"@
            ||| e == "mkv"@
            ||| e == "avi"@
            ||| e == "webm"@
            ||| e == "wmv"@
            ||| e == "flv"@
            ||| e == "mpeg"@
            ||| e == "mpg"@
            ||| e == "ts"@
            ||| e == "mts"@
            ||| e == "m2ts"@
        },
{
    reveal_strlit("mp4");
    reveal_strlit("mov");
    reveal_strlit("m4v");
    reveal_strlit("mkv");
    reveal_strlit("avi");
    reveal_strlit("webm");
    reveal_strlit("wmv");
    reveal_strlit("flv");
    reveal_strlit("mpeg");
    reveal_strlit("mpg");
    reveal_strlit("ts");
    reveal_strlit("mts");
    reveal_strlit("m2ts");
    let list = video_extensions();
    assert forall|i: int| 0 <= i < list.len() implies lowered(#[trigger] list[i]) == list[i] by {
        assert(lowered(list[i]) =~= list[i]);
    }
    let e = lowered(extension);
    assert(list[0] == "mp4"@ && list[1] == "mov"@ && list[2] == "m4v"@ && list[3] == "mkv"@
        && list[4] == "avi"@ && list[5] == "webm"@ && list[6] == "wmv"@ && list[7] == "flv"@
        && list[8] == "mpeg"@ && list[9] == "mpg"@ && list[10] == "ts"@ && list[11] == "mts"@
        && list[12] == "m2ts"@);
}

/// One text comes before another exactly where, after a beginning that they share, it ends and the other
/// does not, or goes on with the smaller character.
pub proof fn law_order_is_by_first_difference(a: Seq<char>, b: Seq<char>)
    ensures
        less(a, b) <==> exists|i: int|
            0 <= i <= a.len() && i < b.len() && a.take(i) == #[trigger] b.take(i) && (i == a.len()
                || a[i] < b[i]),
{
    lemma_less_from(a, b, 0);
    if less(a, b) {
        let i = choose|i: int|
            0 <= i && i <= a.len() && i < b.len() && #[trigger] agree(a, b, i) && (i == a.len()
                || a[i] < b[i]);
        assert(agree(a, b, i));
        assert(a.take(i) =~= b.take(i));
    }
    if exists|i: int|
        0 <= i <= a.len() && i < b.len() && a.take(i) == #[trigger] b.take(i) && (i == a.len()
            || a[i] < b[i]) {
        let i = choose|i: int|
            0 <= i <= a.len() && i < b.len() && a.take(i) == #[trigger] b.take(i) && (i == a.len()
                || a[i] < b[i]);
        assert forall|j: int| 0 <= j < i implies a[j] == b[j] by {
            assert(a.take(i)[j] == b.take(i)[j]);
        }
        assert(agree(a, b, i));
        lemma_less_at(a, b, 0, i);
    }
}

spec fn agree(a: Seq<char>, b: Seq<char>, n: int) -> bool {
    n <= a.len() && n <= b.len() && forall|j: int| 0 <= j < n ==> a[j] == b[j]
}

proof fn lemma_less_from(a: Seq<char>, b: Seq<char>, from: int)
    requires
        0 <= from,
        agree(a, b, from),
    ensures
        less_from(a, b, from) ==> exists|i: int|
            0 <= i && i <= a.len() && i < b.len() && #[trigger] agree(a, b, i) && (i == a.len()
                || a[i] < b[i]),
    decreases b.len() - from,
{
    if from < b.len() && from < a.len() && a[from] == b[from] {
        assert(agree(a, b, from + 1));
        lemma_less_from(a, b, from + 1);
    }
}

proof fn lemma_less_at(a: Seq<char>, b: Seq<char>, from: int, i: int)
    requires
        0 <= from <= i,
        i <= a.len(),
        i < b.len(),
        agree(a, b, i),
        i == a.len() || a[i] < b[i],
    ensures
        less_from(a, b, from),
    decreases i - from,
{
    if from < i {
        lemma_less_at(a, b, from + 1, i);
    }
}

/// A path is added to the list exactly where it is a file that is a video. A folder is looked into where
/// it was asked for itself, or where folders in folders are to be looked into.
pub proof fn law_only_videos_are_collected(kind: PathKind, video: bool, recursive: bool)
    ensures
        root_visit(kind, video) == Visit::Collect <==> kind == PathKind::File && video,
        entry_visit(kind, video, recursive) == Visit::Collect <==> kind == PathKind::File && video,
        root_visit(kind, video) == Visit::Descend <==> kind == PathKind::Folder,
        entry_visit(kind, video, recursive) == Visit::Descend <==> kind == PathKind::Folder
            && recursive,
{
}

/// What a program said beside its progress, if it said anything.
pub fn log_text(message: &str) -> (r: Option<String>)
    ensures
        match r {
            Some(text) => text@ == trimmed(message@) && text@.len() > 0,
            None => trimmed(message@).len() == 0,
        },
{
    let text = trim(message);
    if text.as_str().is_empty() {
        None
    } else {
        Some(text)
    }
}

} // verus!
