//! The playback engine's state: which tracks are audible, how loud each one
//! is, and how a stopped track fades to silence.
//!
//! The mixer decides; the caller owns the audio outputs and carries out what
//! each operation returns (a volume to apply, an output to release).

use vstd::prelude::*;

verus! {

/// Length of the fade applied when a track starts and when it stops, in milliseconds.
pub const FADE_MS: u64 = 2000;

/// A track or master volume at full scale: these volumes count thousandths.
pub const VOLUME_FULL: u32 = 1000;

/// An effective volume at full scale: it counts millionths, the product of two volumes.
pub const MIXED_FULL: u32 = 1000000;

/// Runtime state of an audible track.
#[derive(Clone, Copy, Debug, PartialEq, Eq, Structural)]
pub enum Phase {
    /// Steady playback at an effective volume (millionths).
    Playing { volume: u32 },
    /// Decaying linearly from `start_volume` to silence; `elapsed_ms` of the fade have passed.
    FadingOut { start_volume: u32, elapsed_ms: u64 },
}

/// A track volume limited to full scale.
pub open spec fn clamp_volume(v: u32) -> u32 {
    if v > VOLUME_FULL {
        VOLUME_FULL
    } else {
        v
    }
}

/// The effective volume of a track: track volume times master volume, limited to full scale.
pub open spec fn mixed(track: u32, master: u32) -> u32 {
    let p = track as int * master as int;
    if p > MIXED_FULL {
        MIXED_FULL
    } else {
        p as u32
    }
}

/// The volume of a fade that started at `start` once `elapsed` milliseconds have passed.
pub open spec fn fade_level(start: u32, elapsed: int) -> u32 {
    if elapsed >= FADE_MS {
        0
    } else {
        (start as int * (FADE_MS - elapsed) / (FADE_MS as int)) as u32
    }
}

/// Whether a handle in this phase is torn down when `dt` more milliseconds pass.
pub open spec fn finishes(p: Phase, dt: u64) -> bool {
    match p {
        Phase::Playing { .. } => false,
        Phase::FadingOut { elapsed_ms, .. } => elapsed_ms + dt >= FADE_MS,
    }
}

/// The phase of a handle that survives `dt` more milliseconds.
pub open spec fn advance(p: Phase, dt: u64) -> Phase {
    match p {
        Phase::Playing { .. } => p,
        Phase::FadingOut { start_volume, elapsed_ms } => Phase::FadingOut {
            start_volume,
            elapsed_ms: (elapsed_ms + dt) as u64,
        },
    }
}

/// The mixer as a mathematical value: a handle per audible track, the stored
/// track volumes, and the master volume.
pub struct MixerView {
    pub handles: Map<Seq<char>, Phase>,
    pub volumes: Map<Seq<char>, u32>,
    pub master: u32,
}

impl MixerView {
    /// Volumes are within full scale, a playing track sounds at its mixed
    /// volume, and a fade has time left to run.
    pub open spec fn wf(self) -> bool {
        &&& self.master <= VOLUME_FULL
        &&& forall|id: Seq<char>| #[trigger]
            self.volumes.contains_key(id) ==> self.volumes[id] <= VOLUME_FULL
        &&& forall|id: Seq<char>| #[trigger]
            self.handles.contains_key(id) ==> match self.handles[id] {
                Phase::Playing { volume } => self.volumes.contains_key(id) && volume == mixed(
                    self.volumes[id],
                    self.master,
                ),
                Phase::FadingOut { start_volume, elapsed_ms } => start_volume <= MIXED_FULL
                    && elapsed_ms < FADE_MS,
            }
    }

    pub open spec fn is_playing(self, id: Seq<char>) -> bool {
        self.handles.contains_key(id) && self.handles[id] is Playing
    }

    /// First half of starting a track: nothing if it plays, else its fading handle goes.
    pub open spec fn begin_play(self, id: Seq<char>) -> MixerView {
        if self.is_playing(id) {
            self
        } else {
            MixerView { handles: self.handles.remove(id), ..self }
        }
    }

    /// Second half of starting a track, once its audio is ready.
    pub open spec fn commit_play(self, id: Seq<char>, volume: u32) -> MixerView {
        let v = clamp_volume(volume);
        MixerView {
            handles: self.handles.insert(id, Phase::Playing { volume: mixed(v, self.master) }),
            volumes: self.volumes.insert(id, v),
            master: self.master,
        }
    }

    /// What the caller does next to start a track.
    pub open spec fn start_plan(self, id: Seq<char>) -> StartPlan {
        if self.is_playing(id) {
            StartPlan::AlreadyPlaying
        } else {
            StartPlan::Fresh { cancelled_fade: self.handles.contains_key(id) }
        }
    }

    /// Starting a track whose audio decodes.
    pub open spec fn play(self, id: Seq<char>, volume: u32) -> MixerView {
        if self.is_playing(id) {
            self
        } else {
            self.begin_play(id).commit_play(id, volume)
        }
    }

    pub open spec fn stop(self, id: Seq<char>) -> MixerView {
        if self.is_playing(id) {
            MixerView {
                handles: self.handles.insert(
                    id,
                    Phase::FadingOut { start_volume: self.handles[id]->volume, elapsed_ms: 0 },
                ),
                ..self
            }
        } else {
            self
        }
    }

    pub open spec fn set_volume(self, id: Seq<char>, volume: u32) -> MixerView {
        let v = clamp_volume(volume);
        MixerView {
            handles: if self.is_playing(id) {
                self.handles.insert(id, Phase::Playing { volume: mixed(v, self.master) })
            } else {
                self.handles
            },
            volumes: self.volumes.insert(id, v),
            master: self.master,
        }
    }

    pub open spec fn set_master_volume(self, volume: u32) -> MixerView {
        let m = clamp_volume(volume);
        MixerView {
            handles: Map::new(
                |id: Seq<char>| self.handles.contains_key(id),
                |id: Seq<char>|
                    match self.handles[id] {
                        Phase::Playing { .. } => Phase::Playing {
                            volume: mixed(self.volumes[id], m),
                        },
                        other => other,
                    },
            ),
            volumes: self.volumes,
            master: m,
        }
    }

    /// Time passes: fades advance, and a finished fade takes its track's state with it.
    pub open spec fn update(self, dt: u64) -> MixerView {
        MixerView {
            handles: Map::new(
                |id: Seq<char>| self.handles.contains_key(id) && !finishes(self.handles[id], dt),
                |id: Seq<char>| advance(self.handles[id], dt),
            ),
            volumes: Map::new(
                |id: Seq<char>|
                    self.volumes.contains_key(id) && !(self.handles.contains_key(id) && finishes(
                        self.handles[id],
                        dt,
                    )),
                |id: Seq<char>| self.volumes[id],
            ),
            master: self.master,
        }
    }

    pub open spec fn stop_all(self) -> MixerView {
        MixerView { handles: Map::empty(), ..self }
    }
}

/// How the caller starts a track after `Mixer::begin_play`.
#[derive(Clone, Copy, Debug, PartialEq, Eq, Structural)]
pub enum StartPlan {
    /// The track already plays: nothing to do.
    AlreadyPlaying,
    /// Open the track's audio, then call `Mixer::commit_play`. Where
    /// `cancelled_fade` holds, first stop the output of its fading instance.
    Fresh { cancelled_fade: bool },
}

/// What the caller does to a fading track's output when time passes.
pub enum FadeStep {
    /// Set the output's effective volume (millionths).
    Lower { id: String, volume: u32 },
    /// Silence and drop the output: the fade is over.
    Release { id: String },
}

impl FadeStep {
    pub open spec fn track(self) -> Seq<char> {
        match self {
            FadeStep::Lower { id, .. } => id@,
            FadeStep::Release { id } => id@,
        }
    }

    /// This step is the one that a handle in phase `p` takes when `dt` milliseconds pass.
    pub open spec fn fits(self, p: Phase, dt: u64) -> bool {
        match p {
            Phase::Playing { .. } => false,
            Phase::FadingOut { start_volume, elapsed_ms } => if finishes(p, dt) {
                self is Release
            } else {
                self == (FadeStep::Lower {
                    id: self->Lower_id,
                    volume: fade_level(start_volume, elapsed_ms + dt),
                })
            },
        }
    }
}

/// An audible track: its id and phase.
pub struct Handle {
    pub id: String,
    pub phase: Phase,
}

/// The playback engine's state, with at most one handle per track id.
pub struct Mixer {
    handles: Vec<Handle>,
    volumes: Vec<(String, u32)>,
    master: u32,
    model: Ghost<MixerView>,
}

impl View for Mixer {
    type V = MixerView;

    closed spec fn view(&self) -> MixerView {
        self.model@
    }
}

/// The handles hold each id once, and hold what the map holds.
spec fn handles_match(v: Seq<Handle>, m: Map<Seq<char>, Phase>) -> bool {
    &&& forall|i: int, j: int| 0 <= i < j < v.len() ==> v[i].id@ != v[j].id@
    &&& forall|i: int|
        0 <= i < v.len() ==> m.contains_key(#[trigger] v[i].id@) && m[v[i].id@] == v[i].phase
    &&& forall|id: Seq<char>| #[trigger]
        m.contains_key(id) ==> exists|i: int| 0 <= i < v.len() && #[trigger] v[i].id@ == id
}

/// The stored volumes hold each id once, and hold what the map holds.
spec fn volumes_match(v: Seq<(String, u32)>, m: Map<Seq<char>, u32>) -> bool {
    &&& forall|i: int, j: int| 0 <= i < j < v.len() ==> v[i].0@ != v[j].0@
    &&& forall|i: int|
        0 <= i < v.len() ==> m.contains_key(#[trigger] v[i].0@) && m[v[i].0@] == v[i].1
    &&& forall|id: Seq<char>| #[trigger]
        m.contains_key(id) ==> exists|i: int| 0 <= i < v.len() && #[trigger] v[i].0@ == id
}

proof fn lemma_handles_remove(v: Seq<Handle>, m: Map<Seq<char>, Phase>, i: int)
    requires
        handles_match(v, m),
        0 <= i < v.len(),
    ensures
        handles_match(v.remove(i), m.remove(v[i].id@)),
{
    let w = v.remove(i);
    let mm = m.remove(v[i].id@);
    assert forall|a: int, b: int| 0 <= a < b < w.len() implies w[a].id@ != w[b].id@ by {
        let oa = if a < i { a } else { a + 1 };
        let ob = if b < i { b } else { b + 1 };
        assert(w[a] == v[oa] && w[b] == v[ob]);
    }
    assert forall|a: int| 0 <= a < w.len() implies mm.contains_key(#[trigger] w[a].id@)
        && mm[w[a].id@] == w[a].phase by {
        let oa = if a < i { a } else { a + 1 };
        assert(w[a] == v[oa]);
        assert(v[oa].id@ != v[i].id@);
    }
    assert forall|id: Seq<char>| #[trigger] mm.contains_key(id) implies exists|a: int|
        0 <= a < w.len() && #[trigger] w[a].id@ == id by {
        let j = choose|j: int| 0 <= j < v.len() && #[trigger] v[j].id@ == id;
        if j < i {
            assert(w[j] == v[j]);
        } else {
            assert(j != i);
            assert(w[j - 1] == v[j]);
        }
    }
}

proof fn lemma_handles_push(v: Seq<Handle>, m: Map<Seq<char>, Phase>, h: Handle)
    requires
        handles_match(v, m),
        !m.contains_key(h.id@),
    ensures
        handles_match(v.push(h), m.insert(h.id@, h.phase)),
{
    let w = v.push(h);
    let mm = m.insert(h.id@, h.phase);
    assert forall|a: int| 0 <= a < w.len() implies mm.contains_key(#[trigger] w[a].id@)
        && mm[w[a].id@] == w[a].phase by {
        if a < v.len() {
            assert(w[a] == v[a]);
        }
    }
    assert forall|id: Seq<char>| #[trigger] mm.contains_key(id) implies exists|a: int|
        0 <= a < w.len() && #[trigger] w[a].id@ == id by {
        if id == h.id@ {
            assert(w[v.len() as int] == h);
        } else {
            let j = choose|j: int| 0 <= j < v.len() && #[trigger] v[j].id@ == id;
            assert(w[j] == v[j]);
        }
    }
}

proof fn lemma_handles_update(v: Seq<Handle>, m: Map<Seq<char>, Phase>, i: int, h: Handle)
    requires
        handles_match(v, m),
        0 <= i < v.len(),
        h.id@ == v[i].id@,
    ensures
        handles_match(v.update(i, h), m.insert(h.id@, h.phase)),
{
    let w = v.update(i, h);
    let mm = m.insert(h.id@, h.phase);
    assert forall|id: Seq<char>| #[trigger] mm.contains_key(id) implies exists|a: int|
        0 <= a < w.len() && #[trigger] w[a].id@ == id by {
        if id == h.id@ {
            assert(w[i] == h);
        } else {
            let j = choose|j: int| 0 <= j < v.len() && #[trigger] v[j].id@ == id;
            assert(w[j] == v[j]);
        }
    }
}

proof fn lemma_volumes_push(v: Seq<(String, u32)>, m: Map<Seq<char>, u32>, e: (String, u32))
    requires
        volumes_match(v, m),
        !m.contains_key(e.0@),
    ensures
        volumes_match(v.push(e), m.insert(e.0@, e.1)),
{
    let w = v.push(e);
    let mm = m.insert(e.0@, e.1);
    assert forall|a: int| 0 <= a < w.len() implies mm.contains_key(#[trigger] w[a].0@) && mm[w[a].0@]
        == w[a].1 by {
        if a < v.len() {
            assert(w[a] == v[a]);
        }
    }
    assert forall|id: Seq<char>| #[trigger] mm.contains_key(id) implies exists|a: int|
        0 <= a < w.len() && #[trigger] w[a].0@ == id by {
        if id == e.0@ {
            assert(w[v.len() as int] == e);
        } else {
            let j = choose|j: int| 0 <= j < v.len() && #[trigger] v[j].0@ == id;
            assert(w[j] == v[j]);
        }
    }
}

proof fn lemma_volumes_update(v: Seq<(String, u32)>, m: Map<Seq<char>, u32>, i: int, e: (String, u32))
    requires
        volumes_match(v, m),
        0 <= i < v.len(),
        e.0@ == v[i].0@,
    ensures
        volumes_match(v.update(i, e), m.insert(e.0@, e.1)),
{
    let w = v.update(i, e);
    let mm = m.insert(e.0@, e.1);
    assert forall|id: Seq<char>| #[trigger] mm.contains_key(id) implies exists|a: int|
        0 <= a < w.len() && #[trigger] w[a].0@ == id by {
        if id == e.0@ {
            assert(w[i] == e);
        } else {
            let j = choose|j: int| 0 <= j < v.len() && #[trigger] v[j].0@ == id;
            assert(w[j] == v[j]);
        }
    }
}

fn volume_clamped(v: u32) -> (r: u32)
    ensures
        r == clamp_volume(v),
{
    if v > VOLUME_FULL {
        VOLUME_FULL
    } else {
        v
    }
}

fn mix(track: u32, master: u32) -> (r: u32)
    ensures
        r == mixed(track, master),
{
    proof {
        let (t, m) = (track as int, master as int);
        assert(t * m <= 0xffff_ffff * 0xffff_ffff) by (nonlinear_arith)
            requires
                0 <= t <= 0xffff_ffff,
                0 <= m <= 0xffff_ffff,
        ;
    }
    let p: u64 = track as u64 * master as u64;
    if p > MIXED_FULL as u64 {
        MIXED_FULL
    } else {
        p as u32
    }
}

/// The level of a fade that started at `start` after `elapsed` of its milliseconds.
fn fade_volume(start: u32, elapsed: u64) -> (r: u32)
    requires
        elapsed < FADE_MS,
    ensures
        r == fade_level(start, elapsed as int),
{
    let left: u64 = FADE_MS - elapsed;
    proof {
        let (s, l) = (start as int, left as int);
        assert(s * l <= s * 2000) by (nonlinear_arith)
            requires
                0 <= s,
                0 <= l <= 2000,
        ;
        assert(s * l / 2000 <= s) by (nonlinear_arith)
            requires
                0 <= s * l <= s * 2000,
        ;
        assert(s * l <= 0xffff_ffff * 2000) by (nonlinear_arith)
            requires
                0 <= s <= 0xffff_ffff,
                0 <= l <= 2000,
        ;
    }
    let scaled: u64 = start as u64 * left / FADE_MS;
    scaled as u32
}

fn find_handle(handles: &Vec<Handle>, id: &String) -> (r: Option<usize>)
    ensures
        match r {
            Some(i) => i < handles.len() && handles@[i as int].id@ == id@,
            None => forall|k: int| 0 <= k < handles.len() ==> handles@[k].id@ != id@,
        },
{
    let mut i: usize = 0;
    while i < handles.len()
        invariant
            i <= handles.len(),
            forall|k: int| 0 <= k < i ==> handles@[k].id@ != id@,
        decreases handles.len() - i,
    {
        if handles[i].id == *id {
            return Some(i);
        }
        i = i + 1;
    }
    None
}

fn find_volume(volumes: &Vec<(String, u32)>, id: &String) -> (r: Option<usize>)
    ensures
        match r {
            Some(i) => i < volumes.len() && volumes@[i as int].0@ == id@,
            None => forall|k: int| 0 <= k < volumes.len() ==> volumes@[k].0@ != id@,
        },
{
    let mut i: usize = 0;
    while i < volumes.len()
        invariant
            i <= volumes.len(),
            forall|k: int| 0 <= k < i ==> volumes@[k].0@ != id@,
        decreases volumes.len() - i,
    {
        if volumes[i].0 == *id {
            return Some(i);
        }
        i = i + 1;
    }
    None
}

impl Mixer {
    /// The vectors hold what the view holds, each id once, and the view is well formed.
    pub closed spec fn inv(self) -> bool {
        &&& self@.wf()
        &&& self.master == self@.master
        &&& handles_match(self.handles@, self@.handles)
        &&& volumes_match(self.volumes@, self@.volumes)
    }

    /// The track ids of the handles the mixer holds, in its own order.
    pub closed spec fn handle_ids(self) -> Seq<Seq<char>> {
        self.handles@.map_values(|h: Handle| h.id@)
    }

    /// A mixer with no audible track, at full master volume.
    pub fn new() -> (r: Mixer)
        ensures
            r.inv(),
            r@.handles.is_empty(),
            r@.volumes.is_empty(),
            r@.master == VOLUME_FULL,
    {
        Mixer {
            handles: Vec::new(),
            volumes: Vec::new(),
            master: VOLUME_FULL,
            model: Ghost(
                MixerView { handles: Map::empty(), volumes: Map::empty(), master: VOLUME_FULL },
            ),
        }
    }

    /// Whether the track plays steadily (a fading track does not).
    pub fn is_playing(&self, id: &String) -> (r: bool)
        requires
            self.inv(),
        ensures
            r == self@.is_playing(id@),
    {
        match find_handle(&self.handles, id) {
            Some(i) => match self.handles[i].phase {
                Phase::Playing { .. } => true,
                Phase::FadingOut { .. } => false,
            },
            None => false,
        }
    }

    /// Whether the track has a handle, playing or fading.
    pub fn has_handle(&self, id: &String) -> (r: bool)
        requires
            self.inv(),
        ensures
            r == self@.handles.contains_key(id@),
    {
        find_handle(&self.handles, id).is_some()
    }

    /// The master volume, in thousandths.
    pub fn master_volume(&self) -> (r: u32)
        requires
            self.inv(),
        ensures
            r == self@.master,
    {
        self.master
    }

    /// The stored volume of a track, in thousandths, if one is stored.
    pub fn track_volume(&self, id: &String) -> (r: Option<u32>)
        requires
            self.inv(),
        ensures
            r == (if self@.volumes.contains_key(id@) {
                Some(self@.volumes[id@])
            } else {
                None::<u32>
            }),
    {
        match find_volume(&self.volumes, id) {
            Some(i) => Some(self.volumes[i].1),
            None => None,
        }
    }

    /// Stores the track's volume: an existing entry is overwritten.
    fn store_volume(&mut self, id: &String, v: u32)
        requires
            volumes_match(old(self).volumes@, old(self)@.volumes),
        ensures
            volumes_match(final(self).volumes@, old(self)@.volumes.insert(id@, v)),
            final(self).handles == old(self).handles,
            final(self).master == old(self).master,
            final(self).model == old(self).model,
    {
        match find_volume(&self.volumes, id) {
            Some(i) => {
                let e = (id.clone(), v);
                proof {
                    lemma_volumes_update(self.volumes@, self@.volumes, i as int, e);
                }
                self.volumes.set(i, e);
            },
            None => {
                let e = (id.clone(), v);
                proof {
                    lemma_volumes_push(self.volumes@, self@.volumes, e);
                }
                self.volumes.push(e);
            },
        }
    }

    /// First half of starting a track. Nothing changes if it plays; a fading
    /// instance of it is dropped (the caller stops that output).
    pub fn begin_play(&mut self, id: &String) -> (plan: StartPlan)
        requires
            old(self).inv(),
        ensures
            final(self).inv(),
            final(self)@ == old(self)@.begin_play(id@),
            plan == old(self)@.start_plan(id@),
    {
        let ghost before = self@;
        match find_handle(&self.handles, id) {
            Some(i) => match self.handles[i].phase {
                Phase::Playing { .. } => StartPlan::AlreadyPlaying,
                Phase::FadingOut { .. } => {
                    proof {
                        lemma_handles_remove(self.handles@, self@.handles, i as int);
                    }
                    self.handles.remove(i);
                    self.model = Ghost(before.begin_play(id@));
                    StartPlan::Fresh { cancelled_fade: true }
                },
            },
            None => {
                assert(before.handles.remove(id@) =~= before.handles);
                self.model = Ghost(before.begin_play(id@));
                StartPlan::Fresh { cancelled_fade: false }
            },
        }
    }

    /// Second half of starting a track, once its audio is open: the track
    /// plays at its mixed volume, which is returned for the caller to apply.
    pub fn commit_play(&mut self, id: String, volume: u32) -> (applied: u32)
        requires
            old(self).inv(),
            !old(self)@.handles.contains_key(id@),
        ensures
            final(self).inv(),
            final(self)@ == old(self)@.commit_play(id@, volume),
            applied == mixed(clamp_volume(volume), old(self)@.master),
    {
        let ghost before = self@;
        let v = volume_clamped(volume);
        self.store_volume(&id, v);
        let applied = mix(v, self.master);
        let h = Handle { id, phase: Phase::Playing { volume: applied } };
        proof {
            lemma_handles_push(self.handles@, self@.handles, h);
        }
        self.handles.push(h);
        self.model = Ghost(before.commit_play(id@, volume));
        applied
    }

    /// Moves a playing track to its fade-out, from the volume it sounds at.
    /// Returns whether it was playing.
    pub fn stop(&mut self, id: &String) -> (r: bool)
        requires
            old(self).inv(),
        ensures
            final(self).inv(),
            final(self)@ == old(self)@.stop(id@),
            r == old(self)@.is_playing(id@),
    {
        let ghost before = self@;
        match find_handle(&self.handles, id) {
            Some(i) => match self.handles[i].phase {
                Phase::Playing { volume } => {
                    let h = Handle {
                        id: id.clone(),
                        phase: Phase::FadingOut { start_volume: volume, elapsed_ms: 0 },
                    };
                    proof {
                        lemma_handles_update(self.handles@, self@.handles, i as int, h);
                    }
                    self.handles.set(i, h);
                    self.model = Ghost(before.stop(id@));
                    true
                },
                Phase::FadingOut { .. } => false,
            },
            None => false,
        }
    }

    /// Stores the track's volume; a playing track takes its new mixed volume
    /// at once, which is returned for the caller to apply. A fading track
    /// keeps its fade.
    pub fn set_volume(&mut self, id: &String, volume: u32) -> (applied: Option<u32>)
        requires
            old(self).inv(),
        ensures
            final(self).inv(),
            final(self)@ == old(self)@.set_volume(id@, volume),
            applied == (if old(self)@.is_playing(id@) {
                Some(mixed(clamp_volume(volume), old(self)@.master))
            } else {
                None::<u32>
            }),
    {
        let ghost before = self@;
        let v = volume_clamped(volume);
        self.store_volume(id, v);
        let found = find_handle(&self.handles, id);
        match found {
            Some(i) => match self.handles[i].phase {
                Phase::Playing { .. } => {
                    let applied = mix(v, self.master);
                    let h = Handle { id: id.clone(), phase: Phase::Playing { volume: applied } };
                    proof {
                        lemma_handles_update(self.handles@, self@.handles, i as int, h);
                    }
                    self.handles.set(i, h);
                    self.model = Ghost(before.set_volume(id@, volume));
                    Some(applied)
                },
                Phase::FadingOut { .. } => {
                    self.model = Ghost(before.set_volume(id@, volume));
                    None
                },
            },
            None => {
                self.model = Ghost(before.set_volume(id@, volume));
                None
            },
        }
    }
    /// Sets the master volume; every playing track takes its new mixed
    /// volume, and the list of those volumes is returned for the caller to
    /// apply. Fading tracks keep their fade.
    pub fn set_master_volume(&mut self, volume: u32) -> (applied: Vec<(String, u32)>)
        requires
            old(self).inv(),
        ensures
            final(self).inv(),
            final(self)@ == old(self)@.set_master_volume(volume),
            forall|a: int|
                0 <= a < applied.len() ==> final(self)@.is_playing(#[trigger] applied@[a].0@)
                    && applied@[a].1 == final(self)@.handles[applied@[a].0@]->volume,
            forall|id: Seq<char>| #[trigger]
                final(self)@.is_playing(id) ==> exists|a: int|
                    0 <= a < applied.len() && #[trigger] applied@[a].0@ == id,
    {
        let ghost before = self@;
        let ghost after = before.set_master_volume(volume);
        let m = volume_clamped(volume);
        let mut next: Vec<Handle> = Vec::new();
        let mut applied: Vec<(String, u32)> = Vec::new();
        let mut i: usize = 0;
        while i < self.handles.len()
            invariant
                self.inv(),
                self@ == before,
                m == clamp_volume(volume),
                after == before.set_master_volume(volume),
                i <= self.handles.len(),
                next.len() == i,
                forall|k: int|
                    0 <= k < i ==> (#[trigger] next@[k]).id@ == self.handles@[k].id@
                        && next@[k].phase == after.handles[self.handles@[k].id@],
                forall|a: int|
                    0 <= a < applied.len() ==> after.is_playing(#[trigger] applied@[a].0@)
                        && applied@[a].1 == after.handles[applied@[a].0@]->volume,
                forall|k: int|
                    0 <= k < i && (#[trigger] self.handles@[k]).phase is Playing ==> exists|a: int|
                        0 <= a < applied.len() && #[trigger] applied@[a].0@ == self.handles@[k].id@,
            decreases self.handles.len() - i,
        {
            let ghost prev = applied@;
            let id = self.handles[i].id.clone();
            let phase = match self.handles[i].phase {
                Phase::Playing { .. } => {
                    let track = match find_volume(&self.volumes, &id) {
                        Some(j) => self.volumes[j].1,
                        None => {
                            proof {
                                assert(before.volumes.contains_key(id@));
                                let j = choose|j: int|
                                    0 <= j < self.volumes.len() && #[trigger] self.volumes@[j].0@
                                        == id@;
                                assert(self.volumes@[j].0@ != id@);
                            }
                            0
                        },
                    };
                    let v = mix(track, m);
                    applied.push((id.clone(), v));
                    Phase::Playing { volume: v }
                },
                Phase::FadingOut { start_volume, elapsed_ms } => Phase::FadingOut {
                    start_volume,
                    elapsed_ms,
                },
            };
            next.push(Handle { id, phase });
            proof {
                assert forall|k: int|
                    0 <= k < i + 1 && (#[trigger] self.handles@[k]).phase is Playing implies exists|
                    a: int,
                | 0 <= a < applied.len() && #[trigger] applied@[a].0@ == self.handles@[k].id@ by {
                    if k == i {
                        assert(applied@[applied.len() - 1].0@ == self.handles@[k].id@);
                    } else {
                        let a = choose|a: int|
                            0 <= a < prev.len() && #[trigger] prev[a].0@ == self.handles@[k].id@;
                        assert(applied@[a] == prev[a]);
                    }
                }
            }
            i = i + 1;
        }
        proof {
            assert forall|id: Seq<char>| #[trigger]
                after.handles.contains_key(id) implies exists|a: int|
                0 <= a < next.len() && #[trigger] next@[a].id@ == id by {
                let j = choose|j: int|
                    0 <= j < self.handles.len() && #[trigger] self.handles@[j].id@ == id;
                assert(next@[j].id@ == id);
            }
            assert forall|id: Seq<char>| #[trigger]
                after.is_playing(id) implies exists|a: int|
                0 <= a < applied.len() && #[trigger] applied@[a].0@ == id by {
                let j = choose|j: int|
                    0 <= j < self.handles.len() && #[trigger] self.handles@[j].id@ == id;
                assert(self.handles@[j].phase is Playing);
            }
        }
        self.handles = next;
        self.master = m;
        self.model = Ghost(after);
        applied
    }

    /// Lets `dt` milliseconds pass: every fading track moves along its fade,
    /// and one whose fade is over loses its handle and its stored volume.
    /// Returns one step per fading track for the caller to carry out.
    pub fn update(&mut self, dt: u64) -> (steps: Vec<FadeStep>)
        requires
            old(self).inv(),
        ensures
            final(self).inv(),
            final(self)@ == old(self)@.update(dt),
            forall|a: int|
                0 <= a < steps.len() ==> old(self)@.handles.contains_key(
                    (#[trigger] steps@[a]).track(),
                ) && steps@[a].fits(old(self)@.handles[steps@[a].track()], dt),
            forall|id: Seq<char>|
                old(self)@.handles.contains_key(id) && (#[trigger] old(self)@.handles[id]) is FadingOut
                    ==> exists|a: int| 0 <= a < steps.len() && #[trigger] steps@[a].track() == id,
    {
        let ghost before = self@;
        let ghost after = before.update(dt);
        let mut kept: Vec<(String, u32)> = Vec::new();
        let mut i: usize = 0;
        while i < self.volumes.len()
            invariant
                self.inv(),
                self@ == before,
                after == before.update(dt),
                i <= self.volumes.len(),
                forall|a: int, b: int| 0 <= a < b < kept.len() ==> kept@[a].0@ != kept@[b].0@,
                forall|a: int|
                    0 <= a < kept.len() ==> after.volumes.contains_key(#[trigger] kept@[a].0@)
                        && after.volumes[kept@[a].0@] == kept@[a].1 && exists|k: int|
                        0 <= k < i && #[trigger] self.volumes@[k].0@ == kept@[a].0@,
                forall|k: int|
                    0 <= k < i && after.volumes.contains_key(#[trigger] self.volumes@[k].0@)
                        ==> exists|a: int| 0 <= a < kept.len() && #[trigger] kept@[a].0@ == self.volumes@[k].0@,
            decreases self.volumes.len() - i,
        {
            let ghost prev = kept@;
            let ghost vid = self.volumes@[i as int].0@;
            let found = find_handle(&self.handles, &self.volumes[i].0);
            let ends = match found {
                Some(j) => match self.handles[j].phase {
                    Phase::Playing { .. } => false,
                    Phase::FadingOut { elapsed_ms, .. } => dt >= FADE_MS - elapsed_ms,
                },
                None => false,
            };
            proof {
                match found {
                    Some(j) => {
                        assert(before.handles.contains_key(self.handles@[j as int].id@));
                    },
                    None => {
                        if before.handles.contains_key(vid) {
                            let j = choose|j: int|
                                0 <= j < self.handles.len() && #[trigger] self.handles@[j].id@ == vid;
                            assert(self.handles@[j].id@ != vid);
                        }
                    },
                }
                assert(ends == (before.handles.contains_key(vid) && finishes(before.handles[vid], dt)));
            }
            if !ends {
                let e = (self.volumes[i].0.clone(), self.volumes[i].1);
                proof {
                    assert forall|a: int| 0 <= a < kept.len() implies kept@[a].0@ != vid by {
                        let k = choose|k: int| 0 <= k < i && #[trigger] self.volumes@[k].0@ == kept@[a].0@;
                        assert(self.volumes@[k].0@ != self.volumes@[i as int].0@);
                    }
                }
                kept.push(e);
                proof {
                    assert(kept@[kept.len() - 1] == e);
                }
            }
            proof {
                assert forall|k: int|
                    0 <= k < i + 1 && after.volumes.contains_key(#[trigger] self.volumes@[k].0@)
                        implies exists|a: int| 0 <= a < kept.len() && #[trigger] kept@[a].0@ == self.volumes@[k].0@ by {
                    if k == i {
                        assert(kept@[kept.len() - 1].0@ == vid);
                    } else {
                        let a = choose|a: int|
                            0 <= a < prev.len() && #[trigger] prev[a].0@ == self.volumes@[k].0@;
                        assert(kept@[a] == prev[a]);
                    }
                }
            }
            i = i + 1;
        }
        let mut next: Vec<Handle> = Vec::new();
        let mut steps: Vec<FadeStep> = Vec::new();
        let mut i: usize = 0;
        while i < self.handles.len()
            invariant
                self.inv(),
                self@ == before,
                after == before.update(dt),
                i <= self.handles.len(),
                forall|a: int, b: int| 0 <= a < b < next.len() ==> next@[a].id@ != next@[b].id@,
                forall|a: int|
                    0 <= a < next.len() ==> after.handles.contains_key(#[trigger] next@[a].id@)
                        && after.handles[next@[a].id@] == next@[a].phase && exists|k: int|
                        0 <= k < i && #[trigger] self.handles@[k].id@ == next@[a].id@,
                forall|k: int|
                    0 <= k < i && after.handles.contains_key(#[trigger] self.handles@[k].id@)
                        ==> exists|a: int| 0 <= a < next.len() && #[trigger] next@[a].id@ == self.handles@[k].id@,
                forall|a: int|
                    0 <= a < steps.len() ==> before.handles.contains_key((#[trigger] steps@[a]).track())
                        && steps@[a].fits(before.handles[steps@[a].track()], dt),
                forall|k: int|
                    0 <= k < i && (#[trigger] self.handles@[k]).phase is FadingOut ==> exists|a: int|
                        0 <= a < steps.len() && #[trigger] steps@[a].track() == self.handles@[k].id@,
            decreases self.handles.len() - i,
        {
            let ghost hid = self.handles@[i as int].id@;
            let ghost prev_steps = steps@;
            let ghost prev_next = next@;
            let id = self.handles[i].id.clone();
            let survivor: Option<Phase> = match self.handles[i].phase {
                Phase::Playing { volume } => Some(Phase::Playing { volume }),
                Phase::FadingOut { start_volume, elapsed_ms } => {
                    if dt >= FADE_MS - elapsed_ms {
                        steps.push(FadeStep::Release { id: id.clone() });
                        None
                    } else {
                        let elapsed = elapsed_ms + dt;
                        let level = fade_volume(start_volume, elapsed);
                        steps.push(FadeStep::Lower { id: id.clone(), volume: level });
                        Some(Phase::FadingOut { start_volume, elapsed_ms: elapsed })
                    }
                },
            };
            proof {
                assert forall|k: int|
                    0 <= k < i + 1 && (#[trigger] self.handles@[k]).phase is FadingOut implies exists|
                    a: int,
                | 0 <= a < steps.len() && #[trigger] steps@[a].track() == self.handles@[k].id@ by {
                    if k == i {
                        assert(steps@[steps.len() - 1].track() == hid);
                    } else {
                        let a = choose|a: int|
                            0 <= a < prev_steps.len() && #[trigger] prev_steps[a].track()
                                == self.handles@[k].id@;
                        assert(steps@[a] == prev_steps[a]);
                    }
                }
            }
            match survivor {
                Some(phase) => {
                    proof {
                        assert forall|a: int| 0 <= a < next.len() implies next@[a].id@ != hid by {
                            let k = choose|k: int| 0 <= k < i && #[trigger] self.handles@[k].id@ == next@[a].id@;
                            assert(self.handles@[k].id@ != self.handles@[i as int].id@);
                        }
                    }
                    next.push(Handle { id, phase });
                    proof {
                        assert(next@[next.len() - 1].id@ == hid);
                    }
                },
                None => {},
            }
            proof {
                assert forall|k: int|
                    0 <= k < i + 1 && after.handles.contains_key(#[trigger] self.handles@[k].id@)
                        implies exists|a: int| 0 <= a < next.len() && #[trigger] next@[a].id@ == self.handles@[k].id@ by {
                    if k == i {
                        assert(before.handles[hid] == self.handles@[k].phase);
                        assert(next@[next.len() - 1].id@ == hid);
                    } else {
                        let a = choose|a: int|
                            0 <= a < prev_next.len() && #[trigger] prev_next[a].id@
                                == self.handles@[k].id@;
                        assert(next@[a] == prev_next[a]);
                    }
                }
            }
            i = i + 1;
        }
        proof {
            assert forall|id: Seq<char>| #[trigger]
                after.handles.contains_key(id) implies exists|a: int|
                0 <= a < next.len() && #[trigger] next@[a].id@ == id by {
                let j = choose|j: int|
                    0 <= j < self.handles.len() && #[trigger] self.handles@[j].id@ == id;
                assert(after.handles.contains_key(self.handles@[j].id@));
            }
            assert forall|id: Seq<char>| #[trigger]
                after.volumes.contains_key(id) implies exists|a: int|
                0 <= a < kept.len() && #[trigger] kept@[a].0@ == id by {
                let j = choose|j: int|
                    0 <= j < self.volumes.len() && #[trigger] self.volumes@[j].0@ == id;
                assert(after.volumes.contains_key(self.volumes@[j].0@));
            }
            assert forall|id: Seq<char>|
                before.handles.contains_key(id) && (#[trigger] before.handles[id]) is FadingOut
                    implies exists|a: int| 0 <= a < steps.len() && #[trigger] steps@[a].track() == id by {
                let j = choose|j: int|
                    0 <= j < self.handles.len() && #[trigger] self.handles@[j].id@ == id;
                assert(self.handles@[j].phase is FadingOut);
            }
        }
        self.handles = next;
        self.volumes = kept;
        self.model = Ghost(after);
        steps
    }

    /// Drops every handle at once, with no fade. Stored volumes stay.
    pub fn stop_all(&mut self)
        requires
            old(self).inv(),
        ensures
            final(self).inv(),
            final(self)@ == old(self)@.stop_all(),
    {
        let ghost before = self@;
        self.handles = Vec::new();
        self.model = Ghost(before.stop_all());
    }
}

/// A change of mixing volume, as a caller may issue it.
pub enum VolumeChange {
    Track { id: Seq<char>, volume: u32 },
    Master { volume: u32 },
}

/// The mixer after a sequence of volume changes, applied in order.
pub open spec fn apply_changes(v: MixerView, changes: Seq<VolumeChange>) -> MixerView
    decreases changes.len(),
{
    if changes.len() == 0 {
        v
    } else {
        let w = apply_changes(v, changes.drop_last());
        match changes.last() {
            VolumeChange::Track { id, volume } => w.set_volume(id, volume),
            VolumeChange::Master { volume } => w.set_master_volume(volume),
        }
    }
}

pub proof fn lemma_set_volume_wf(v: MixerView, id: Seq<char>, volume: u32)
    requires
        v.wf(),
    ensures
        v.set_volume(id, volume).wf(),
{
}

pub proof fn lemma_set_master_volume_wf(v: MixerView, volume: u32)
    requires
        v.wf(),
    ensures
        v.set_master_volume(volume).wf(),
{
}

/// Starting a track that already plays changes nothing: it keeps its one
/// handle, and no second instance starts.
pub proof fn lemma_play_twice(v: MixerView, id: Seq<char>, first: u32, second: u32)
    requires
        v.wf(),
    ensures
        v.play(id, first).is_playing(id),
        v.play(id, first).start_plan(id) == StartPlan::AlreadyPlaying,
        v.play(id, first).play(id, second) == v.play(id, first),
{
}

/// Starting a track again while it fades out cancels the fade (its output is
/// stopped) and leaves one handle for the track, playing afresh.
pub proof fn lemma_restart_during_fade(
    v: MixerView,
    id: Seq<char>,
    dt: u64,
    volume: u32,
)
    requires
        v.wf(),
        v.is_playing(id),
        dt < FADE_MS,
    ensures
        v.stop(id).update(dt).start_plan(id) == (StartPlan::Fresh { cancelled_fade: true }),
        v.stop(id).update(dt).play(id, volume).handles[id] == (Phase::Playing {
            volume: mixed(clamp_volume(volume), v.master),
        }),
{
    let w = v.stop(id).update(dt);
    assert(w.handles.contains_key(id));
}

/// After any sequence of track and master volume changes, every playing
/// track sounds at its track volume times the master volume, within full scale.
pub proof fn lemma_mixed_volume_holds(v: MixerView, changes: Seq<VolumeChange>)
    requires
        v.wf(),
    ensures
        apply_changes(v, changes).wf(),
        forall|id: Seq<char>| #[trigger]
            apply_changes(v, changes).is_playing(id) ==> {
                let w = apply_changes(v, changes);
                &&& w.handles[id]->volume == mixed(w.volumes[id], w.master)
                &&& w.handles[id]->volume <= MIXED_FULL
            },
    decreases changes.len(),
{
    if changes.len() > 0 {
        lemma_mixed_volume_holds(v, changes.drop_last());
        let w = apply_changes(v, changes.drop_last());
        match changes.last() {
            VolumeChange::Track { id, volume } => lemma_set_volume_wf(w, id, volume),
            VolumeChange::Master { volume } => lemma_set_master_volume_wf(w, volume),
        }
    }
}

/// A fade lands on silence at its full length and on half its start at half
/// its length.
pub proof fn lemma_fade_levels(start: u32)
    ensures
        fade_level(start, FADE_MS as int) == 0,
        fade_level(start, (FADE_MS / 2) as int) == start / 2,
{
    let s = start as int;
    assert(s * 1000 / 2000 == s / 2) by (nonlinear_arith)
        requires
            s >= 0,
    ;
}

/// A fade given its full length is torn down; given half its length it
/// stands at half its start volume.
pub proof fn lemma_fade_out(v: MixerView, id: Seq<char>, start: u32)
    requires
        v.wf(),
        v.handles.contains_key(id),
        v.handles[id] == (Phase::FadingOut { start_volume: start, elapsed_ms: 0 }),
    ensures
        !v.update(FADE_MS).handles.contains_key(id),
        v.update(FADE_MS / 2).handles[id] == (Phase::FadingOut {
            start_volume: start,
            elapsed_ms: FADE_MS / 2,
        }),
        fade_level(start, (FADE_MS / 2) as int) == start / 2,
        fade_level(start, FADE_MS as int) == 0,
{
    lemma_fade_levels(start);
}

/// A track that is started, stopped, and left until its fade is over plays
/// no more, and the mixer keeps nothing of it.
pub proof fn lemma_play_stop_fade(v: MixerView, id: Seq<char>, volume: u32, dt: u64)
    requires
        v.wf(),
        dt >= FADE_MS,
    ensures
        !v.play(id, volume).stop(id).update(dt).is_playing(id),
        !v.play(id, volume).stop(id).update(dt).handles.contains_key(id),
        !v.play(id, volume).stop(id).update(dt).volumes.contains_key(id),
{
    let p = v.play(id, volume);
    assert(p.is_playing(id));
    let q = p.stop(id);
    assert(q.handles[id] is FadingOut);
    assert(finishes(q.handles[id], dt));
}

/// A track never has two handles: the mixer holds each id at most once, and
/// exactly the ids of its view.
pub proof fn lemma_one_handle_per_track(m: &Mixer)
    requires
        m.inv(),
    ensures
        forall|i: int, j: int|
            0 <= i < j < m.handle_ids().len() ==> m.handle_ids()[i] != m.handle_ids()[j],
        forall|id: Seq<char>|
            m@.handles.contains_key(id) <==> m.handle_ids().contains(id),
{
    assert forall|id: Seq<char>| m@.handles.contains_key(id) implies m.handle_ids().contains(id) by {
        let k = choose|k: int| 0 <= k < m.handles.len() && #[trigger] m.handles@[k].id@ == id;
        assert(m.handle_ids()[k] == id);
    }
    assert forall|id: Seq<char>| m.handle_ids().contains(id) implies m@.handles.contains_key(id) by {
        let k = choose|k: int| 0 <= k < m.handle_ids().len() && m.handle_ids()[k] == id;
        assert(m.handles@[k].id@ == id);
    }
}

} // verus!
