//! Decisions of the mixer's front end: download requests and their
//! checks, downloads of missing files, muting, and volume steps.

use vstd::prelude::*;
use crate::catalog::Sound;
use crate::mixer::VOLUME_FULL;
use crate::queue::{DownloadQueue, QueueView, StatusView, TaskView};
use crate::text::{lower_of, lowercase, trim, trimmed, is_blank};
use vstd::utf8::encode_utf8;

verus! {

/// Why a download request was refused.
#[derive(Clone, Copy, Debug, PartialEq, Eq, Structural)]
pub enum RequestError {
    /// The name, the category or the URL is blank.
    MissingField,
}

impl RequestError {
    /// The refusal as the download form shows it.
    pub fn message(&self) -> (r: String)
        ensures
            r@ == "Error: All fields (except icon) are required."@,
    {
        String::from_str("Error: All fields (except icon) are required.")
    }
}

pub open spec fn blank(s: Seq<char>) -> bool {
    trimmed(s).len() == 0
}

pub open spec fn pending_task(name: Seq<char>, category: Seq<char>, icon: Seq<char>, url: Seq<char>) -> TaskView {
    TaskView { name, category, icon, url, status: StatusView::Pending }
}

/// Queues a download of a sound under its name, category, icon and URL
/// (trimmed). A blank name, category or URL is refused.
pub fn request_download(queue: &mut DownloadQueue, name: &str, category: &str, icon: &str, url: &str) -> (r: Result<(), RequestError>)
    requires
        old(queue).inv(),
    ensures
        final(queue).inv(),
        (blank(name@) || blank(category@) || blank(url@)) ==> r == Err::<(), RequestError>(RequestError::MissingField)
            && final(queue)@ == old(queue)@,
        !(blank(name@) || blank(category@) || blank(url@)) ==> r is Ok && final(queue)@ == old(queue)@.enqueue(
            pending_task(name@, category@, icon@, trimmed(url@)),
        ),
{
    if is_blank(name) || is_blank(category) || is_blank(url) {
        return Err(RequestError::MissingField);
    }
    queue.enqueue(name.to_owned(), category.to_owned(), icon.to_owned(), trim(url));
    Ok(())
}

/// The requests for sounds whose file is missing and whose URL is not blank, in order.
pub open spec fn missing_requests(sounds: Seq<Sound>, missing: Seq<bool>) -> Seq<TaskView>
    decreases sounds.len(),
{
    if sounds.len() == 0 || missing.len() != sounds.len() {
        Seq::empty()
    } else {
        let rest = missing_requests(sounds.drop_last(), missing.drop_last());
        let s = sounds.last();
        if missing.last() && s.url is Some && !blank(s.url->0@) {
            rest.push(pending_task(s.name@, s.category@, s.icon@, s.url->0@))
        } else {
            rest
        }
    }
}

/// Queues a download for every sound whose file is missing (`missing[i]`
/// for `sounds[i]`) and that has a source URL, when the fetch tool is there.
pub fn enqueue_missing(queue: &mut DownloadQueue, sounds: &Vec<Sound>, missing: &Vec<bool>, tool_available: bool)
    requires
        old(queue).inv(),
        sounds.len() == missing.len(),
    ensures
        final(queue).inv(),
        !tool_available ==> final(queue)@ == old(queue)@,
        tool_available ==> final(queue)@ == (QueueView {
            tasks: old(queue)@.tasks + missing_requests(sounds@, missing@),
            active: old(queue)@.active,
        }),
{
    if !tool_available {
        return;
    }
    let ghost start = queue@;
    let mut i: usize = 0;
    while i < sounds.len()
        invariant
            sounds.len() == missing.len(),
            i <= sounds.len(),
            queue.inv(),
            queue@ == (QueueView {
                tasks: start.tasks + missing_requests(sounds@.subrange(0, i as int), missing@.subrange(0, i as int)),
                active: start.active,
            }),
        decreases sounds.len() - i,
    {
        assert(sounds@.subrange(0, i + 1).drop_last() =~= sounds@.subrange(0, i as int));
        assert(missing@.subrange(0, i + 1).drop_last() =~= missing@.subrange(0, i as int));
        let s = &sounds[i];
        match &s.url {
            Some(u) => {
                if missing[i] && !is_blank(u.as_str()) {
                    let ghost before = queue@;
                    queue.enqueue(s.name.clone(), s.category.clone(), s.icon.clone(), u.clone());
                    assert(queue@.tasks =~= start.tasks + missing_requests(sounds@.subrange(0, i + 1), missing@.subrange(0, i + 1)));
                }
            },
            None => {},
        }
        i = i + 1;
    }
    assert(sounds@.subrange(0, sounds.len() as int) =~= sounds@);
    assert(missing@.subrange(0, missing.len() as int) =~= missing@);
}

/// Whether the output is muted, and the master volume to return to.
pub struct MuteState {
    pub muted: bool,
    pub previous_volume: u32,
}

impl MuteState {
    /// Mutes, remembering the master volume `current`, or unmutes. Returns
    /// the master volume to set: silence, or the one remembered.
    pub fn toggle(&mut self, current: u32) -> (master: u32)
        ensures
            final(self).muted == !old(self).muted,
            old(self).muted ==> master == old(self).previous_volume && final(self).previous_volume == old(self).previous_volume,
            !old(self).muted ==> master == 0 && final(self).previous_volume == current,
    {
        if self.muted {
            self.muted = false;
            self.previous_volume
        } else {
            self.muted = true;
            self.previous_volume = current;
            0
        }
    }
}

/// A volume moved up or down by `step`, kept within silence and full scale.
pub fn step_volume(v: u32, up: bool, step: u32) -> (r: u32)
    ensures
        r as int == (if up {
            if v as int + step as int > VOLUME_FULL { VOLUME_FULL as int } else { v as int + step as int }
        } else {
            if (v as int) < step as int { 0 } else if v as int - step as int > VOLUME_FULL { VOLUME_FULL as int } else { v as int - step as int }
        }),
{
    if up {
        if v as u64 + step as u64 > VOLUME_FULL as u64 {
            VOLUME_FULL
        } else {
            v + step
        }
    } else if v < step {
        0
    } else if v - step > VOLUME_FULL {
        VOLUME_FULL
    } else {
        v - step
    }
}

/// A category offered to complete the typed `input`: one whose lower-cased
/// name starts with the lower-cased input and that is longer in bytes (as
/// `str::len` counts them).
pub open spec fn completes(category: Seq<char>, category_lowered: Seq<char>, input_lowered: Seq<char>) -> bool {
    &&& input_lowered.len() <= category_lowered.len()
    &&& category_lowered.subrange(0, input_lowered.len() as int) == input_lowered
    &&& encode_utf8(category).len() as usize > encode_utf8(input_lowered).len() as usize
}

/// Whether `prefix` starts `s`.
fn starts_with(s: &str, prefix: &str) -> (r: bool)
    ensures
        r == (prefix@.len() <= s@.len() && s@.subrange(0, prefix@.len() as int) == prefix@),
{
    let n = s.unicode_len();
    let m = prefix.unicode_len();
    if m > n {
        return false;
    }
    let mut i: usize = 0;
    while i < m
        invariant
            n == s@.len(),
            m == prefix@.len(),
            m <= n,
            i <= m,
            forall|k: int| 0 <= k < i ==> s@[k] == prefix@[k],
        decreases m - i,
    {
        if s.get_char(i) != prefix.get_char(i) {
            assert(s@.subrange(0, m as int)[i as int] != prefix@[i as int]);
            return false;
        }
        i = i + 1;
    }
    assert(s@.subrange(0, m as int) =~= prefix@);
    true
}

/// The first of the categories that completes what was typed, if any; none
/// for empty input.
pub fn suggest_category(categories: &Vec<String>, input: &str) -> (r: Option<String>)
    ensures
        input@.len() == 0 ==> r is None,
        match r {
            Some(c) => exists|i: int|
                0 <= i < categories.len() && c == categories@[i] && completes(
                    c@,
                    lower_of(c@),
                    lower_of(input@),
                ),
            None => input@.len() == 0 || forall|i: int|
                0 <= i < categories.len() ==> !completes(
                    #[trigger] categories@[i]@,
                    lower_of(categories@[i]@),
                    lower_of(input@),
                ),
        },
{
    if input.unicode_len() == 0 {
        return None;
    }
    let lowered = lowercase(input);
    let mut i: usize = 0;
    while i < categories.len()
        invariant
            i <= categories.len(),
            lowered@ == lower_of(input@),
            input@.len() > 0,
            forall|k: int|
                0 <= k < i ==> !completes(
                    #[trigger] categories@[k]@,
                    lower_of(categories@[k]@),
                    lower_of(input@),
                ),
        decreases categories.len() - i,
    {
        let c = &categories[i];
        let c_lowered = lowercase(c.as_str());
        let cs = c.as_str();
        let ls = lowered.as_str();
        assert(cs@ == categories@[i as int]@ && ls@ == lower_of(input@));
        let fits = starts_with(c_lowered.as_str(), ls) && cs.len() > ls.len();
        assert(fits == completes(categories@[i as int]@, lower_of(categories@[i as int]@), lower_of(input@)));
        if fits {
            let r = c.clone();
            assert(r == categories@[i as int]);
            return Some(r);
        }
        i = i + 1;
    }
    None
}

} // verus!
