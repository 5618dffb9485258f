//! Settings of the mixer and which sounds the grid shows.

use vstd::prelude::*;
use crate::catalog::Sound;
use crate::text::{contains, has_substring, lower_of, lowercase};

verus! {

/// The screen the interface shows.
#[derive(Clone, Copy, Debug, PartialEq, Eq, Structural)]
pub enum CurrentView {
    Main,
    Presets,
    Help,
    Downloads,
}

/// General settings: whether bundled sounds load, the order of categories,
/// and the categories kept out of sight.
pub struct GeneralConfig {
    pub enable_bundled_sounds: bool,
    pub category_order: Vec<String>,
    pub hidden_categories: Vec<String>,
}

impl Default for GeneralConfig {
    fn default() -> (r: GeneralConfig)
        ensures
            r.enable_bundled_sounds,
            r.category_order@.len() == 0,
            r.hidden_categories@.len() == 0,
    {
        GeneralConfig {
            enable_bundled_sounds: true,
            category_order: Vec::new(),
            hidden_categories: Vec::new(),
        }
    }
}

/// Audio output settings.
pub struct AudioConfig {
    pub sample_rate: u32,
    pub buffer_size: u32,
}

/// Per-sound settings.
#[derive(Clone, Copy, Debug, PartialEq, Eq, Structural)]
pub struct SoundConfig {
    pub hidden: bool,
}

/// All settings; `sounds` holds per-sound settings by sound id.
pub struct Config {
    pub general: GeneralConfig,
    pub audio: AudioConfig,
    pub sounds: Vec<(String, SoundConfig)>,
}

impl Default for Config {
    fn default() -> (r: Config)
        ensures
            r.general.enable_bundled_sounds,
            r.general.category_order@.len() == 0,
            r.general.hidden_categories@.len() == 0,
            r.audio.sample_rate == 44100,
            r.audio.buffer_size == 100,
            r.sounds@.len() == 0,
    {
        Config {
            general: GeneralConfig::default(),
            audio: AudioConfig { sample_rate: 44100, buffer_size: 100 },
            sounds: Vec::new(),
        }
    }
}

pub open spec fn lists(names: Seq<String>, name: Seq<char>) -> bool {
    exists|i: int| 0 <= i < names.len() && names[i]@ == name
}

/// The first per-sound setting for the id says hidden.
pub open spec fn hidden_by_setting(settings: Seq<(String, SoundConfig)>, id: Seq<char>) -> bool
    decreases settings.len(),
{
    if settings.len() == 0 {
        false
    } else if settings[0].0@ == id {
        settings[0].1.hidden
    } else {
        hidden_by_setting(settings.drop_first(), id)
    }
}

/// A search matches a sound whose lower-cased name or category holds the lower-cased query.
pub open spec fn search_matches(name_lowered: Seq<char>, category_lowered: Seq<char>, query_lowered: Seq<char>) -> bool {
    has_substring(name_lowered, query_lowered) || has_substring(category_lowered, query_lowered)
}

/// Whether the grid shows a sound: neither its category nor its own setting
/// hides it, and, with a query, the search matches it.
pub open spec fn shown(s: Sound, config: Config, query: Seq<char>) -> bool {
    &&& !lists(config.general.hidden_categories@, s.category@)
    &&& !hidden_by_setting(config.sounds@, s.id@)
    &&& (query.len() == 0 || search_matches(lower_of(s.name@), lower_of(s.category@), lower_of(query)))
}

/// Whether a search matches, given the lower-cased name, category and query.
pub fn search_match(name_lowered: &str, category_lowered: &str, query_lowered: &str) -> (r: bool)
    ensures
        r == search_matches(name_lowered@, category_lowered@, query_lowered@),
{
    contains(name_lowered, query_lowered) || contains(category_lowered, query_lowered)
}

fn is_listed(names: &Vec<String>, name: &String) -> (r: bool)
    ensures
        r == lists(names@, name@),
{
    let mut i: usize = 0;
    while i < names.len()
        invariant
            i <= names.len(),
            forall|j: int| 0 <= j < i ==> names@[j]@ != name@,
        decreases names.len() - i,
    {
        if names[i] == *name {
            return true;
        }
        i = i + 1;
    }
    false
}

fn is_hidden_by_setting(settings: &Vec<(String, SoundConfig)>, id: &String) -> (r: bool)
    ensures
        r == hidden_by_setting(settings@, id@),
{
    let mut i: usize = 0;
    assert(settings@.subrange(0, settings@.len() as int) =~= settings@);
    while i < settings.len()
        invariant
            i <= settings.len(),
            hidden_by_setting(settings@, id@) == hidden_by_setting(settings@.subrange(i as int, settings@.len() as int), id@),
        decreases settings.len() - i,
    {
        assert(settings@.subrange(i as int, settings@.len() as int).drop_first() =~= settings@.subrange(i + 1, settings@.len() as int));
        if settings[i].0 == *id {
            return settings[i].1.hidden;
        }
        i = i + 1;
    }
    false
}

/// Whether the grid shows the sound.
pub fn is_shown(s: &Sound, config: &Config, query: &str) -> (r: bool)
    ensures
        r == shown(*s, *config, query@),
{
    if is_listed(&config.general.hidden_categories, &s.category) {
        return false;
    }
    if is_hidden_by_setting(&config.sounds, &s.id) {
        return false;
    }
    if query.unicode_len() == 0 {
        return true;
    }
    let q = lowercase(query);
    let n = lowercase(s.name.as_str());
    let c = lowercase(s.category.as_str());
    search_match(n.as_str(), c.as_str(), q.as_str())
}

/// The indices, in order, of the sounds the grid shows.
pub fn get_filtered_sounds(sounds: &Vec<Sound>, config: &Config, query: &str) -> (r: Vec<usize>)
    ensures
        forall|k: int| 0 <= k < r.len() ==> r@[k] < sounds.len() && shown(sounds@[r@[k] as int], *config, query@),
        forall|a: int, b: int| 0 <= a < b < r.len() ==> r@[a] < r@[b],
        forall|i: int| 0 <= i < sounds.len() && shown(#[trigger] sounds@[i], *config, query@) ==> exists|k: int| 0 <= k < r.len() && r@[k] == i,
{
    let mut r: Vec<usize> = Vec::new();
    let mut i: usize = 0;
    while i < sounds.len()
        invariant
            i <= sounds.len(),
            forall|k: int| 0 <= k < r.len() ==> r@[k] < i && shown(sounds@[r@[k] as int], *config, query@),
            forall|a: int, b: int| 0 <= a < b < r.len() ==> r@[a] < r@[b],
            forall|j: int| 0 <= j < i && shown(#[trigger] sounds@[j], *config, query@) ==> exists|k: int| 0 <= k < r.len() && r@[k] == j,
        decreases sounds.len() - i,
    {
        let ghost prev = r@;
        if is_shown(&sounds[i], config, query) {
            r.push(i);
        }
        proof {
            assert forall|j: int| 0 <= j < i + 1 && shown(#[trigger] sounds@[j], *config, query@) implies exists|k: int| 0 <= k < r.len() && r@[k] == j by {
                if j < i {
                    let k = choose|k: int| 0 <= k < prev.len() && prev[k] == j;
                    assert(r@[k] == prev[k]);
                } else {
                    assert(r@[r.len() - 1] == j);
                }
            }
        }
        i = i + 1;
    }
    r
}

} // verus!
