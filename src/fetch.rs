//! The download worker's decisions: the file name a sound is saved under,
//! the fetch tool's arguments, progress lines, and the one final event.
//!
//! Running the tool, reading its output and probing the disk are the
//! caller's; everything decided from what they give back is here.

use vstd::prelude::*;
use crate::queue::{DownloadEvent, EventView, PERCENT_FULL};
use crate::text::{contains, has_substring, push_char, trim, trimmed};

verus! {

/// What `char::is_alphanumeric` says of a character.
pub uninterp spec fn alphanumeric(c: char) -> bool;

/// Relies on `char::is_alphanumeric`: Unicode's Alphabetic or Numeric.
#[verifier::external_body]
fn char_is_alphanumeric(c: char) -> (r: bool)
    ensures
        r == alphanumeric(c),
{
    c.is_alphanumeric()
}

/// A sound's name made safe for a file name: trimmed, with every character
/// that is not alphanumeric replaced by `_`.
pub open spec fn safe_stem(name: Seq<char>) -> Seq<char> {
    trimmed(name).map_values(|c: char|
        if alphanumeric(c) {
            c
        } else {
            '_'
        })
}

/// The file stem a downloaded sound is saved under.
pub fn safe_file_stem(name: &str) -> (r: String)
    ensures
        r@ == safe_stem(name@),
{
    let t = trim(name);
    let s = t.as_str();
    let n = s.unicode_len();
    let mut r = String::new();
    let mut i: usize = 0;
    while i < n
        invariant
            n == s@.len(),
            s@ == trimmed(name@),
            i <= n,
            r@ == s@.subrange(0, i as int).map_values(|c: char|
                if alphanumeric(c) {
                    c
                } else {
                    '_'
                }),
        decreases n - i,
    {
        let c = s.get_char(i);
        let d = if char_is_alphanumeric(c) {
            c
        } else {
            '_'
        };
        push_char(&mut r, d);
        assert(s@.subrange(0, i + 1) =~= s@.subrange(0, i as int).push(c));
        i = i + 1;
    }
    assert(s@.subrange(0, n as int) =~= s@);
    r
}

/// The fetch tool's output template for a file stem: the tool fills in the extension.
pub open spec fn template_of(stem: Seq<char>) -> Seq<char> {
    stem + ".%(ext)s"@
}

/// The output template handed to the fetch tool.
pub fn output_template(stem: &str) -> (r: String)
    ensures
        r@ == template_of(stem@),
{
    String::from_str(stem).concat(".%(ext)s")
}

/// The fetch tool's arguments: no configuration of its own, no playlist,
/// overwrite, audio only as Opus, best WebM audio else best audio, the
/// output template, and progress on new lines; then the source URL.
pub open spec fn tool_args(template: Seq<char>, url: Seq<char>) -> Seq<Seq<char>> {
    seq![
        "--ignore-config"@,
        "--no-playlist"@,
        "--force-overwrites"@,
        "-x"@,
        "--audio-format"@,
        "opus"@,
        "-f"@,
        "ba[ext=webm]/ba"@,
        "-o"@,
        template,
        "--newline"@,
        "--progress"@,
        url,
    ]
}

/// The fetch tool's arguments for an output template and a source URL.
pub fn fetch_args(template: &str, url: &str) -> (r: Vec<String>)
    ensures
        r@.map_values(|a: String| a@) == tool_args(template@, url@),
{
    let mut r: Vec<String> = Vec::new();
    r.push(String::from_str("--ignore-config"));
    r.push(String::from_str("--no-playlist"));
    r.push(String::from_str("--force-overwrites"));
    r.push(String::from_str("-x"));
    r.push(String::from_str("--audio-format"));
    r.push(String::from_str("opus"));
    r.push(String::from_str("-f"));
    r.push(String::from_str("ba[ext=webm]/ba"));
    r.push(String::from_str("-o"));
    r.push(String::from_str(template));
    r.push(String::from_str("--newline"));
    r.push(String::from_str("--progress"));
    r.push(String::from_str(url));
    assert(r@.map_values(|a: String| a@) =~= tool_args(template@, url@));
    r
}

/// The extensions probed, in order, for the file the tool wrote.
pub open spec fn probe_names(stem: Seq<char>) -> Seq<Seq<char>> {
    seq![
        stem + ".opus"@,
        stem + ".m4a"@,
        stem + ".mp3"@,
        stem + ".wav"@,
        stem + ".ogg"@,
    ]
}

/// The file names probed for the downloaded file, in order.
pub fn candidate_files(stem: &str) -> (r: Vec<String>)
    ensures
        r@.map_values(|a: String| a@) == probe_names(stem@),
{
    let mut r: Vec<String> = Vec::new();
    r.push(String::from_str(stem).concat(".opus"));
    r.push(String::from_str(stem).concat(".m4a"));
    r.push(String::from_str(stem).concat(".mp3"));
    r.push(String::from_str(stem).concat(".wav"));
    r.push(String::from_str(stem).concat(".ogg"));
    assert(r@.map_values(|a: String| a@) =~= probe_names(stem@));
    r
}

/// The first candidate that exists, in the probing order.
pub fn first_existing(candidates: Vec<String>, exists: &Vec<bool>) -> (r: Option<String>)
    requires
        candidates.len() == exists.len(),
    ensures
        match r {
            Some(p) => exists|i: int|
                0 <= i < exists.len() && exists@[i] && p == candidates@[i] && forall|j: int|
                    0 <= j < i ==> !exists@[j],
            None => forall|j: int| 0 <= j < exists.len() ==> !exists@[j],
        },
{
    let mut i: usize = 0;
    while i < exists.len()
        invariant
            candidates.len() == exists.len(),
            i <= exists.len(),
            forall|j: int| 0 <= j < i ==> !exists@[j],
        decreases exists.len() - i,
    {
        if exists[i] {
            return Some(candidates[i].clone());
        }
        i = i + 1;
    }
    None
}

pub open spec fn first_index_of(s: Seq<char>, c: char) -> Option<int>
    decreases s.len(),
{
    if s.len() == 0 {
        None
    } else {
        match first_index_of(s.drop_last(), c) {
            Some(i) => Some(i),
            None => if s.last() == c {
                Some(s.len() - 1)
            } else {
                None
            },
        }
    }
}

pub open spec fn last_index_of(s: Seq<char>, c: char) -> Option<int>
    decreases s.len(),
{
    if s.len() == 0 {
        None
    } else if s.last() == c {
        Some(s.len() - 1)
    } else {
        last_index_of(s.drop_last(), c)
    }
}

proof fn lemma_first_index_of(s: Seq<char>, c: char)
    ensures
        match first_index_of(s, c) {
            Some(i) => 0 <= i < s.len() && s[i] == c && forall|j: int| 0 <= j < i ==> s[j] != c,
            None => forall|j: int| 0 <= j < s.len() ==> s[j] != c,
        },
    decreases s.len(),
{
    if s.len() > 0 {
        lemma_first_index_of(s.drop_last(), c);
        assert forall|j: int| 0 <= j < s.len() - 1 implies s.drop_last()[j] == s[j] by {}
    }
}

proof fn lemma_last_index_of(s: Seq<char>, c: char)
    ensures
        match last_index_of(s, c) {
            Some(i) => 0 <= i < s.len() && s[i] == c && forall|j: int| i < j < s.len() ==> s[j] != c,
            None => forall|j: int| 0 <= j < s.len() ==> s[j] != c,
        },
    decreases s.len(),
{
    if s.len() > 0 {
        lemma_last_index_of(s.drop_last(), c);
        assert forall|j: int| 0 <= j < s.len() - 1 implies s.drop_last()[j] == s[j] by {}
    }
}

fn find_first(s: &str, c: char) -> (r: Option<usize>)
    ensures
        match r {
            Some(i) => first_index_of(s@, c) == Some(i as int),
            None => first_index_of(s@, c) is None,
        },
{
    proof {
        lemma_first_index_of(s@, c);
    }
    let n = s.unicode_len();
    let mut i: usize = 0;
    while i < n
        invariant
            n == s@.len(),
            i <= n,
            forall|j: int| 0 <= j < i ==> s@[j] != c,
            match first_index_of(s@, c) {
                Some(f) => 0 <= f < s@.len() && s@[f] == c && forall|j: int| 0 <= j < f ==> s@[j] != c,
                None => forall|j: int| 0 <= j < s@.len() ==> s@[j] != c,
            },
        decreases n - i,
    {
        if s.get_char(i) == c {
            return Some(i);
        }
        i = i + 1;
    }
    None
}

fn find_last(s: &str, c: char) -> (r: Option<usize>)
    ensures
        match r {
            Some(i) => last_index_of(s@, c) == Some(i as int),
            None => last_index_of(s@, c) is None,
        },
{
    proof {
        lemma_last_index_of(s@, c);
    }
    let n = s.unicode_len();
    let mut i: usize = n;
    while i > 0
        invariant
            n == s@.len(),
            i <= n,
            forall|j: int| i <= j < n ==> s@[j] != c,
            match last_index_of(s@, c) {
                Some(f) => 0 <= f < s@.len() && s@[f] == c && forall|j: int| f < j < s@.len() ==> s@[j] != c,
                None => forall|j: int| 0 <= j < s@.len() ==> s@[j] != c,
            },
        decreases i,
    {
        if s.get_char(i - 1) == c {
            return Some(i - 1);
        }
        i = i - 1;
    }
    None
}

pub open spec fn is_digit(c: char) -> bool {
    '0' as u32 <= c as u32 <= '9' as u32
}

pub open spec fn digit_value(c: char) -> nat {
    (c as u32 - '0' as u32) as nat
}

pub open spec fn all_digits(s: Seq<char>) -> bool {
    forall|i: int| 0 <= i < s.len() ==> is_digit(#[trigger] s[i])
}

/// The number a run of decimal digits writes.
pub open spec fn digits_value(s: Seq<char>) -> nat
    decreases s.len(),
{
    if s.len() == 0 {
        0
    } else {
        digits_value(s.drop_last()) * 10 + digit_value(s.last())
    }
}

/// The hundredths that the first two digits of a fraction write.
pub open spec fn hundredths(frac: Seq<char>) -> nat {
    (if frac.len() > 0 {
        digit_value(frac[0]) * 10
    } else {
        0
    }) + (if frac.len() > 1 {
        digit_value(frac[1])
    } else {
        0
    })
}

/// A percentage written as digits with an optional fraction (`45`, `45.3`),
/// in hundredths of a percent, if it is at most a hundred. Digits beyond the
/// second of the fraction are dropped.
pub open spec fn percent_value(t: Seq<char>) -> Option<u32> {
    let dot = first_index_of(t, '.');
    let whole = match dot {
        Some(d) => t.subrange(0, d),
        None => t,
    };
    let frac = match dot {
        Some(d) => t.subrange(d + 1, t.len() as int),
        None => Seq::empty(),
    };
    let v = digits_value(whole) * 100 + hundredths(frac);
    if whole.len() > 0 && all_digits(whole) && all_digits(frac) && (dot is Some ==> frac.len() > 0)
        && v <= PERCENT_FULL {
        Some(v as u32)
    } else {
        None
    }
}

/// The text of a progress line that stands before the first `%`, after the
/// last space before it.
pub open spec fn progress_token(line: Seq<char>) -> Option<Seq<char>> {
    if has_substring(line, "[download]"@) {
        match first_index_of(line, '%') {
            Some(p) => match last_index_of(line.subrange(0, p), ' ') {
                Some(q) => Some(line.subrange(q + 1, p)),
                None => None,
            },
            None => None,
        }
    } else {
        None
    }
}

/// The progress a line of the tool's output reports, in hundredths of a
/// percent: a `[download]` line with a percentage such as `[download]  45.3%`.
pub open spec fn progress_of(line: Seq<char>) -> Option<u32> {
    match progress_token(line) {
        Some(t) => percent_value(t),
        None => None,
    }
}

proof fn lemma_digits_grow(s: Seq<char>, k: int)
    requires
        0 <= k <= s.len(),
    ensures
        digits_value(s.subrange(0, k)) <= digits_value(s),
    decreases s.len(),
{
    if k < s.len() {
        lemma_digits_grow(s.drop_last(), k);
        assert(s.drop_last().subrange(0, k) =~= s.subrange(0, k));
    } else {
        assert(s.subrange(0, k) =~= s);
    }
}

fn digit_char(c: char) -> (r: Option<u32>)
    ensures
        match r {
            Some(d) => is_digit(c) && d == digit_value(c),
            None => !is_digit(c),
        },
{
    let u = c as u32;
    if 48 <= u && u <= 57 {
        Some(u - 48)
    } else {
        None
    }
}

/// A percentage token in hundredths of a percent.
pub fn parse_percent(t: &str) -> (r: Option<u32>)
    ensures
        r == percent_value(t@),
{
    let n = t.unicode_len();
    let dot = find_first(t, '.');
    proof {
        lemma_first_index_of(t@, '.');
    }
    let whole_end: usize = match dot {
        Some(d) => d,
        None => n,
    };
    let ghost whole = match first_index_of(t@, '.') {
        Some(d) => t@.subrange(0, d),
        None => t@,
    };
    let ghost frac = match first_index_of(t@, '.') {
        Some(d) => t@.subrange(d + 1, t@.len() as int),
        None => Seq::<char>::empty(),
    };
    assert(whole =~= t@.subrange(0, whole_end as int));
    if whole_end == 0 {
        return None;
    }
    let mut v: u32 = 0;
    let mut i: usize = 0;
    while i < whole_end
        invariant
            n == t@.len(),
            whole_end <= n,
            whole == t@.subrange(0, whole_end as int),
            whole == (match first_index_of(t@, '.') {
                Some(d) => t@.subrange(0, d),
                None => t@,
            }),
            frac == (match first_index_of(t@, '.') {
                Some(d) => t@.subrange(d + 1, t@.len() as int),
                None => Seq::<char>::empty(),
            }),
            match dot {
                Some(d) => first_index_of(t@, '.') == Some(d as int),
                None => first_index_of(t@, '.') is None,
            },
            i <= whole_end,
            v == digits_value(whole.subrange(0, i as int)),
            v <= 100,
            all_digits(whole.subrange(0, i as int)),
        decreases whole_end - i,
    {
        let c = t.get_char(i);
        assert(whole[i as int] == c);
        match digit_char(c) {
            None => {
                assert(!all_digits(whole));
                return None;
            },
            Some(d) => {
                assert(whole.subrange(0, i + 1).drop_last() =~= whole.subrange(0, i as int));
                assert(whole.subrange(0, i + 1).last() == c);
                assert(all_digits(whole.subrange(0, i + 1))) by {
                    assert forall|k: int| 0 <= k < i + 1 implies is_digit(
                        #[trigger] whole.subrange(0, i + 1)[k],
                    ) by {
                        if k < i {
                            assert(whole.subrange(0, i + 1)[k] == whole.subrange(0, i as int)[k]);
                        }
                    }
                }
                v = v * 10 + d;
                i = i + 1;
                if v > 100 {
                    proof {
                        lemma_digits_grow(whole, i as int);
                    }
                    return None;
                }
            },
        }
    }
    assert(whole.subrange(0, whole_end as int) =~= whole);
    let mut h: u32 = 0;
    match dot {
        None => {},
        Some(d) => {
            if d + 1 == n {
                assert(frac.len() == 0);
                return None;
            }
            let mut j: usize = d + 1;
            while j < n
                invariant
                    n == t@.len(),
                    d < j <= n,
                    d + 1 < n,
                    frac == t@.subrange(d + 1, n as int),
                    whole == (match first_index_of(t@, '.') {
                        Some(d) => t@.subrange(0, d),
                        None => t@,
                    }),
                    frac == (match first_index_of(t@, '.') {
                        Some(d) => t@.subrange(d + 1, t@.len() as int),
                        None => Seq::<char>::empty(),
                    }),
                    match dot {
                        Some(d) => first_index_of(t@, '.') == Some(d as int),
                        None => first_index_of(t@, '.') is None,
                    },
                    dot == Some(d),
                    whole.len() > 0,
                    all_digits(whole),
                    v == digits_value(whole),
                    v <= 100,
                    forall|k: int| d + 1 <= k < j ==> is_digit(t@[k]),
                    h == hundredths(t@.subrange(d + 1, j as int)),
                    h <= 99,
                decreases n - j,
            {
                let c = t.get_char(j);
                match digit_char(c) {
                    None => {
                        assert(frac[j - d - 1] == t@[j as int]);
                        return None;
                    },
                    Some(x) => {
                        if j == d + 1 {
                            h = x * 10;
                        } else if j == d + 2 {
                            assert(t@.subrange(d + 1, j as int)[0] == t@[d + 1]);
                            assert(t@.subrange(d + 1, j + 1)[0] == t@[d + 1]);
                            assert(is_digit(t@[d + 1]));
                            h = h + x;
                        } else {
                            assert(t@.subrange(d + 1, j as int)[0] == t@.subrange(d + 1, j + 1)[0]);
                            assert(t@.subrange(d + 1, j as int)[1] == t@.subrange(d + 1, j + 1)[1]);
                        }
                    },
                }
                j = j + 1;
            }
            assert(all_digits(frac)) by {
                assert forall|k: int| 0 <= k < frac.len() implies is_digit(#[trigger] frac[k]) by {
                    assert(frac[k] == t@[d + 1 + k]);
                }
            }
        },
    }
    assert(h == hundredths(frac));
    if v * 100 + h > PERCENT_FULL {
        return None;
    }
    Some(v * 100 + h)
}

/// The progress a line of the tool's output reports, in hundredths of a percent.
pub fn parse_progress(line: &str) -> (r: Option<u32>)
    ensures
        r == progress_of(line@),
{
    if !contains(line, "[download]") {
        return None;
    }
    let p = match find_first(line, '%') {
        Some(p) => p,
        None => return None,
    };
    proof {
        lemma_first_index_of(line@, '%');
    }
    let head = line.substring_char(0, p);
    let q = match find_last(head, ' ') {
        Some(q) => q,
        None => return None,
    };
    proof {
        lemma_last_index_of(head@, ' ');
    }
    let token = line.substring_char(q + 1, p);
    parse_percent(token)
}

/// How the fetch tool's run ended.
pub enum ToolExit {
    /// It could not be started.
    SpawnFailed(String),
    /// Waiting for it failed.
    WaitFailed(String),
    /// It exited, successfully or not.
    Exited { success: bool },
}

/// Why a download failed.
pub enum WorkerFailure {
    /// No data directory could be determined.
    NoDataDir,
    /// The sounds directory could not be created.
    CreateDir(String),
    Spawn(String),
    Wait(String),
    /// The tool exited with a failure status.
    ExitStatus,
    /// The tool succeeded but none of the probed files exists.
    OutputMissing,
}

pub open spec fn failure_text(f: WorkerFailure) -> Seq<char> {
    match f {
        WorkerFailure::NoDataDir => "Could not determine data directory."@,
        WorkerFailure::CreateDir(e) => "Error creating directory: "@ + e@,
        WorkerFailure::Spawn(e) => "Failed to start yt-dlp: "@ + e@,
        WorkerFailure::Wait(e) => "Failed to wait on child: "@ + e@,
        WorkerFailure::ExitStatus => "yt-dlp exited with a failure status."@,
        WorkerFailure::OutputMissing => "Download success but file not found."@,
    }
}

impl WorkerFailure {
    /// The reason, as the download's failed status shows it.
    pub fn message(&self) -> (r: String)
        ensures
            r@ == failure_text(*self),
    {
        match self {
            WorkerFailure::NoDataDir => String::from_str("Could not determine data directory."),
            WorkerFailure::CreateDir(e) => String::from_str("Error creating directory: ").concat(
                e.as_str(),
            ),
            WorkerFailure::Spawn(e) => String::from_str("Failed to start yt-dlp: ").concat(
                e.as_str(),
            ),
            WorkerFailure::Wait(e) => String::from_str("Failed to wait on child: ").concat(
                e.as_str(),
            ),
            WorkerFailure::ExitStatus => String::from_str("yt-dlp exited with a failure status."),
            WorkerFailure::OutputMissing => String::from_str("Download success but file not found."),
        }
    }

    /// The failure as the worker's final event.
    pub fn into_event(self) -> (r: DownloadEvent)
        ensures
            r@ == EventView::Error(failure_text(self)),
    {
        DownloadEvent::Error(self.message())
    }
}

/// The failure, if any, that a run of the tool ends in, given the file found
/// after it.
pub open spec fn run_failure(exit: ToolExit, found: bool) -> Option<WorkerFailure> {
    match exit {
        ToolExit::SpawnFailed(e) => Some(WorkerFailure::Spawn(e)),
        ToolExit::WaitFailed(e) => Some(WorkerFailure::Wait(e)),
        ToolExit::Exited { success } => if !success {
            Some(WorkerFailure::ExitStatus)
        } else if !found {
            Some(WorkerFailure::OutputMissing)
        } else {
            None
        },
    }
}

/// The one final event of a download: success with the file found, when the
/// tool exited successfully and a probed file exists; otherwise the failure.
pub fn final_event(
    exit: ToolExit,
    found: Option<String>,
    name: String,
    category: String,
    icon: String,
    url: String,
) -> (r: DownloadEvent)
    ensures
        match run_failure(exit, found is Some) {
            Some(f) => r@ == EventView::Error(failure_text(f)),
            None => r == DownloadEvent::Success(name, category, found->0, icon, url),
        },
{
    let failure = match exit {
        ToolExit::SpawnFailed(e) => WorkerFailure::Spawn(e),
        ToolExit::WaitFailed(e) => WorkerFailure::Wait(e),
        ToolExit::Exited { success } => {
            if !success {
                WorkerFailure::ExitStatus
            } else {
                match found {
                    Some(path) => return DownloadEvent::Success(name, category, path, icon, url),
                    None => WorkerFailure::OutputMissing,
                }
            }
        },
    };
    failure.into_event()
}

} // verus!
