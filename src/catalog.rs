//! The sound catalog: each sound's descriptor, how ids derive from names,
//! how catalog entries become sounds, and how a downloaded sound joins.

use vstd::prelude::*;
use crate::text::{lower_of, lowercase, replace_char, replaced};

verus! {

/// A sound: identity, display, file, volume (thousandths), and whether its
/// last start failed.
pub struct Sound {
    pub id: String,
    pub name: String,
    pub category: String,
    pub file_path: String,
    pub volume_linear: u32,
    pub icon: String,
    pub url: Option<String>,
    pub error_state: bool,
}

/// The volume of a sound that names none: half, in thousandths.
pub fn default_volume() -> (r: u32)
    ensures
        r == 500,
{
    500
}

/// The icon of a sound that names none.
pub fn default_icon() -> (r: String)
    ensures
        r@ == "🎵"@,
{
    String::from_str("🎵")
}

/// The id of a sound named by a lower-cased name: spaces become underscores.
pub fn id_from_lowered(lowered: &str) -> (r: String)
    ensures
        r@ == replaced(lowered@, ' ', '_'),
{
    replace_char(lowered, ' ', '_')
}

/// The id a sound's name derives: lower-cased, spaces as underscores.
pub fn sound_id(name: &str) -> (r: String)
    ensures
        r@ == replaced(lower_of(name@), ' ', '_'),
{
    let lowered = lowercase(name);
    id_from_lowered(lowered.as_str())
}

/// The index of the first sound with the id.
pub open spec fn find_sound(sounds: Seq<Sound>, id: Seq<char>) -> Option<int>
    decreases sounds.len(),
{
    if sounds.len() == 0 {
        None
    } else {
        match find_sound(sounds.drop_last(), id) {
            Some(i) => Some(i),
            None => if sounds.last().id@ == id {
                Some(sounds.len() - 1)
            } else {
                None
            },
        }
    }
}

proof fn lemma_find_sound(sounds: Seq<Sound>, id: Seq<char>)
    ensures
        match find_sound(sounds, id) {
            Some(i) => 0 <= i < sounds.len() && sounds[i].id@ == id && forall|j: int|
                0 <= j < i ==> sounds[j].id@ != id,
            None => forall|j: int| 0 <= j < sounds.len() ==> sounds[j].id@ != id,
        },
    decreases sounds.len(),
{
    if sounds.len() > 0 {
        lemma_find_sound(sounds.drop_last(), id);
        assert forall|j: int| 0 <= j < sounds.len() - 1 implies sounds.drop_last()[j] == sounds[j] by {}
    }
}

/// The index of the first sound with the id.
pub fn position_of(sounds: &Vec<Sound>, id: &String) -> (r: Option<usize>)
    ensures
        match r {
            Some(i) => find_sound(sounds@, id@) == Some(i as int),
            None => find_sound(sounds@, id@) is None,
        },
{
    proof {
        lemma_find_sound(sounds@, id@);
    }
    let mut i: usize = 0;
    while i < sounds.len()
        invariant
            i <= sounds.len(),
            forall|j: int| 0 <= j < i ==> sounds@[j].id@ != id@,
            match find_sound(sounds@, id@) {
                Some(f) => 0 <= f < sounds@.len() && sounds@[f].id@ == id@ && forall|j: int|
                    0 <= j < f ==> sounds@[j].id@ != id@,
                None => forall|j: int| 0 <= j < sounds@.len() ==> sounds@[j].id@ != id@,
            },
        decreases sounds.len() - i,
    {
        if sounds[i].id == *id {
            return Some(i);
        }
        i = i + 1;
    }
    None
}

/// Adds a downloaded sound under the id its name derives, or, where a sound
/// has that id, points it at the new file and URL and clears its error.
pub fn add_or_update(
    sounds: &mut Vec<Sound>,
    name: String,
    category: String,
    file_path: String,
    icon: String,
    url: String,
)
    ensures
        ({
            let id = replaced(lower_of(name@), ' ', '_');
            match find_sound(old(sounds)@, id) {
                Some(i) => final(sounds)@ == old(sounds)@.update(
                    i,
                    Sound {
                        file_path,
                        url: Some(url),
                        error_state: false,
                        ..old(sounds)@[i]
                    },
                ),
                None => final(sounds)@.len() == old(sounds)@.len() + 1
                    && final(sounds)@.drop_last() == old(sounds)@ && {
                    let s = final(sounds)@.last();
                    &&& s.id@ == id
                    &&& s.name == name
                    &&& s.category == category
                    &&& s.file_path == file_path
                    &&& s.volume_linear == 500
                    &&& s.icon == icon
                    &&& s.url == Some(url)
                    &&& !s.error_state
                },
            }
        }),
{
    let id = sound_id(name.as_str());
    proof {
        lemma_find_sound(old(sounds)@, id@);
    }
    match position_of(sounds, &id) {
        Some(i) => {
            let old_sound = &sounds[i];
            let s = Sound {
                id: old_sound.id.clone(),
                name: old_sound.name.clone(),
                category: old_sound.category.clone(),
                file_path,
                volume_linear: old_sound.volume_linear,
                icon: old_sound.icon.clone(),
                url: Some(url),
                error_state: false,
            };
            sounds.set(i, s);
        },
        None => {
            let s = Sound {
                id,
                name,
                category,
                file_path,
                volume_linear: default_volume(),
                icon,
                url: Some(url),
                error_state: false,
            };
            sounds.push(s);
            assert(sounds@.drop_last() =~= old(sounds)@);
        },
    }
}

/// A sound as the catalog file describes it; what it leaves out takes a default.
pub struct SoundEntry {
    pub name: Option<String>,
    pub file: Option<String>,
    /// Thousandths.
    pub volume: u32,
    pub icon: String,
    pub url: Option<String>,
}

/// The text without its trailing slashes.
pub open spec fn strip_slashes(s: Seq<char>) -> Seq<char>
    decreases s.len(),
{
    if s.len() > 0 && s.last() == '/' {
        strip_slashes(s.drop_last())
    } else {
        s
    }
}

/// The directory that relative sound files lie in: the configured one
/// without trailing slashes, else `assets/sounds`.
pub open spec fn base_dir(configured: Option<Seq<char>>) -> Seq<char> {
    match configured {
        Some(b) => strip_slashes(b),
        None => "assets/sounds"@,
    }
}

/// The directory relative sound files lie in.
pub fn base_path(configured: Option<&str>) -> (r: String)
    ensures
        r@ == base_dir(match configured {
            Some(b) => Some(b@),
            None => None,
        }),
{
    match configured {
        None => String::from_str("assets/sounds"),
        Some(b) => {
            let mut end: usize = b.unicode_len();
            assert(b@.subrange(0, end as int) =~= b@);
            while end > 0 && b.get_char(end - 1) == '/'
                invariant
                    end <= b@.len(),
                    strip_slashes(b@) == strip_slashes(b@.subrange(0, end as int)),
                decreases end,
            {
                assert(b@.subrange(0, end as int).drop_last() =~= b@.subrange(0, end - 1));
                end = end - 1;
            }
            b.substring_char(0, end).to_owned()
        },
    }
}

/// The name a sound without one shows: its id with underscores as spaces.
pub open spec fn default_name(id: Seq<char>) -> Seq<char> {
    replaced(id, '_', ' ')
}

/// The file a sound without one plays: its lower-cased name, spaces as
/// underscores, with `.ogg`.
pub open spec fn default_file(lowered_name: Seq<char>) -> Seq<char> {
    replaced(lowered_name, ' ', '_') + ".ogg"@
}

/// A file path resolved against the base directory, unless it is absolute.
pub open spec fn resolved(file: Seq<char>, absolute: bool, base: Seq<char>) -> Seq<char> {
    if absolute {
        file
    } else {
        base + "/"@ + file
    }
}

/// The file path of a sound: `file` itself if absolute, else under `base`.
pub fn resolve_path(file: String, absolute: bool, base: &str) -> (r: String)
    ensures
        r@ == resolved(file@, absolute, base@),
{
    if absolute {
        file
    } else {
        let r = String::from_str(base).concat("/").concat(file.as_str());
        assert(r@ =~= base@ + "/"@ + file@);
        r
    }
}

/// Relies on `Path::is_absolute`; what counts as absolute depends on the platform.
#[verifier::external_body]
fn path_is_absolute(p: &str) -> (r: bool) {
    std::path::Path::new(p).is_absolute()
}

/// The sound a catalog entry describes, in the given category under the
/// given id. Its file is resolved against `base` unless the platform counts
/// it as absolute.
pub fn entry_to_sound(category: &str, id: &str, entry: SoundEntry, base: &str) -> (r: Sound)
    ensures
        r.id@ == id@,
        r.category@ == category@,
        r.name@ == (match entry.name {
            Some(n) => n@,
            None => default_name(id@),
        }),
        ({
            let file = match entry.file {
                Some(f) => f@,
                None => default_file(lower_of(r.name@)),
            };
            r.file_path@ == resolved(file, true, base@) || r.file_path@ == resolved(
                file,
                false,
                base@,
            )
        }),
        r.volume_linear == entry.volume,
        r.icon == entry.icon,
        r.url == entry.url,
        !r.error_state,
{
    let name = match entry.name {
        Some(n) => n,
        None => replace_char(id, '_', ' '),
    };
    let file = match entry.file {
        Some(f) => f,
        None => {
            let lowered = lowercase(name.as_str());
            let f = replace_char(lowered.as_str(), ' ', '_').concat(".ogg");
            f
        },
    };
    let absolute = path_is_absolute(file.as_str());
    let file_path = resolve_path(file, absolute, base);
    Sound {
        id: id.to_owned(),
        name,
        category: category.to_owned(),
        file_path,
        volume_linear: entry.volume,
        icon: entry.icon,
        url: entry.url,
        error_state: false,
    }
}

} // verus!
