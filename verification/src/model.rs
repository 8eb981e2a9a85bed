//! The practice domain's plain data: ids, loop kinds, per-song isolation state,
//! count-ins, section notes and profiling records.
use vstd::prelude::*;
use crate::notes::NotesDoc;

verus! {

#[derive(Debug, Clone, Copy, PartialEq, Eq, Hash, Structural)]
pub struct SongId(pub i64);

#[derive(Debug, Clone, Copy, PartialEq, Eq, Hash, Structural)]
pub struct SectionId(pub i64);

#[derive(Debug, Clone, Copy, PartialEq, Eq, Hash, Structural)]
pub struct LoopId(pub i64);

#[derive(Debug, Clone, Copy, PartialEq, Eq, Hash, Structural)]
pub struct RecordingId(pub i64);

#[derive(Debug, Clone, Copy, PartialEq, Eq, Hash, Structural)]
pub struct RoutineId(pub i64);

/// How a loop came to be: drawn by hand, or derived from the seam between two
/// sections.
#[derive(Debug, Clone, Copy, PartialEq, Eq, Structural)]
pub enum LoopKind {
    Manual,
    Junction { from_section: SectionId, to_section: SectionId },
}

/// A song in the library. `T` is the type of its duration in seconds.
#[derive(Debug, Clone, PartialEq)]
pub struct Song<T> {
    pub id: SongId,
    pub title: String,
    pub artist: Option<String>,
    pub path: String,
    pub file_hash: String,
    pub duration_secs: T,
}

/// A named span of a song. `T` is the type of times in seconds.
#[derive(Debug, Clone, PartialEq)]
pub struct Section<T> {
    pub id: SectionId,
    pub song_id: SongId,
    pub name: String,
    pub start: T,
    pub end: T,
    /// Order within the song.
    pub position: i32,
    /// Whether the click guide sounds over this section.
    pub click_guide: bool,
}

/// A saved loop. `name` is derived from the sections it covers unless the user
/// pinned `name_override`. `T` is the type of times in seconds.
#[derive(Debug, Clone, PartialEq)]
pub struct LoopRegion<T> {
    pub id: LoopId,
    pub song_id: SongId,
    pub name: String,
    pub name_override: Option<String>,
    pub start: T,
    pub end: T,
    pub kind: LoopKind,
}

/// A numbered per-song position marker. The slot number is its identity, not
/// an order of creation. `T` is the type of the position in seconds.
#[derive(Debug, Clone, Copy, PartialEq)]
pub struct Marker<T> {
    pub slot: u32,
    pub pos: T,
}

/// A saved isolation state in a numbered slot.
#[derive(Debug, Clone, PartialEq)]
pub struct IsolationSnapshot {
    pub slot: u32,
    pub name: Option<String>,
    pub state: Isolation,
}

/// A named, ordered list of practice blocks of type `B`.
#[derive(Debug, Clone, PartialEq)]
pub struct Routine<B> {
    pub id: RoutineId,
    pub name: String,
    pub blocks: Vec<B>,
}

/// Number of stems in the separation vocabulary (vocals, drums, bass, guitar,
/// piano, other), the fixed length of every per-stem vector.
pub const STEM_COUNT: usize = 6;

/// Full fader level for a stem.
pub const FULL_LEVEL: u8 = 100;

/// Saved per-song isolation-box state: the bass-focus toggle plus each stem's
/// fader level, mute, and solo. Stored as vectors and normalized to
/// `STEM_COUNT` on read so state saved under an older stem vocabulary loads.
#[derive(Debug, Clone, PartialEq)]
pub struct Isolation {
    pub bass_focus: bool,
    pub levels: Vec<u8>,
    pub mutes: Vec<bool>,
    pub solos: Vec<bool>,
}

/// `v` cut or padded with `fill` to exactly `STEM_COUNT` entries.
pub open spec fn fit<T>(v: Seq<T>, fill: T) -> Seq<T> {
    if v.len() >= STEM_COUNT {
        v.take(STEM_COUNT as int)
    } else {
        v + Seq::new((STEM_COUNT - v.len()) as nat, |i: int| fill)
    }
}

fn fit_vec<T: Copy>(v: &Vec<T>, fill: T) -> (out: Vec<T>)
    ensures
        out@ == fit(v@, fill),
{
    let mut out: Vec<T> = Vec::new();
    let mut i: usize = 0;
    while i < v.len() && i < STEM_COUNT
        invariant
            i <= v.len(),
            i <= STEM_COUNT,
            out@ == v@.take(i as int),
        decreases STEM_COUNT - i,
    {
        out.push(v[i]);
        proof {
            assert(v@.take(i + 1) == v@.take(i as int).push(v@[i as int]));
        }
        i = i + 1;
    }
    let ghost kept = out@;
    while out.len() < STEM_COUNT
        invariant
            out.len() <= STEM_COUNT,
            kept.len() <= out.len(),
            out@.take(kept.len() as int) == kept,
            forall|k: int| kept.len() <= k < out.len() ==> out@[k] == fill,
        decreases STEM_COUNT - out.len(),
    {
        out.push(fill);
    }
    proof {
        if v.len() >= STEM_COUNT {
            assert(out@ == v@.take(STEM_COUNT as int));
        } else {
            assert(kept == v@);
            assert(out@ == v@ + Seq::new((STEM_COUNT - v.len()) as nat, |k: int| fill));
        }
    }
    out
}

impl Isolation {
    /// Pad or truncate every vector to exactly `STEM_COUNT`: missing stems
    /// default to full level, unmuted, unsoloed; extras are dropped.
    pub fn normalized(&self) -> (r: Isolation)
        ensures
            r.bass_focus == self.bass_focus,
            r.levels@ == fit(self.levels@, FULL_LEVEL),
            r.mutes@ == fit(self.mutes@, false),
            r.solos@ == fit(self.solos@, false),
    {
        Isolation {
            bass_focus: self.bass_focus,
            levels: fit_vec(&self.levels, FULL_LEVEL),
            mutes: fit_vec(&self.mutes, false),
            solos: fit_vec(&self.solos, false),
        }
    }

    /// Holds exactly `STEM_COUNT` levels, mutes and solos.
    pub open spec fn is_normal(&self) -> bool {
        &&& self.levels@.len() == STEM_COUNT
        &&& self.mutes@.len() == STEM_COUNT
        &&& self.solos@.len() == STEM_COUNT
    }
}

/// Normalizing yields `STEM_COUNT` entries everywhere, keeps the stored
/// entries that fit, and normalizing again changes nothing.
pub proof fn lemma_normalized_is_normal_and_idempotent(iso: Isolation, n: Isolation, nn: Isolation)
    requires
        n.bass_focus == iso.bass_focus,
        n.levels@ == fit(iso.levels@, FULL_LEVEL),
        n.mutes@ == fit(iso.mutes@, false),
        n.solos@ == fit(iso.solos@, false),
        nn.bass_focus == n.bass_focus,
        nn.levels@ == fit(n.levels@, FULL_LEVEL),
        nn.mutes@ == fit(n.mutes@, false),
        nn.solos@ == fit(n.solos@, false),
    ensures
        n.is_normal(),
        forall|k: int| 0 <= k < iso.levels@.len() && k < STEM_COUNT ==> n.levels@[k] == iso.levels@[k],
        nn.levels@ == n.levels@,
        nn.mutes@ == n.mutes@,
        nn.solos@ == n.solos@,
        nn.bass_focus == n.bass_focus,
{
    assert(n.levels@.take(STEM_COUNT as int) == n.levels@);
    assert(n.mutes@.take(STEM_COUNT as int) == n.mutes@);
    assert(n.solos@.take(STEM_COUNT as int) == n.solos@);
}

impl Default for Isolation {
    /// Full band, no listening aid — a freshly opened song's isolation state.
    fn default() -> (r: Isolation)
        ensures
            !r.bass_focus,
            r.levels@ == Seq::new(STEM_COUNT as nat, |i: int| FULL_LEVEL),
            r.mutes@ == Seq::new(STEM_COUNT as nat, |i: int| false),
            r.solos@ == Seq::new(STEM_COUNT as nat, |i: int| false),
    {
        let e: Vec<u8> = Vec::new();
        let f: Vec<bool> = Vec::new();
        let levels = fit_vec(&e, FULL_LEVEL);
        let mutes = fit_vec(&f, false);
        let solos = fit_vec(&f, false);
        assert(levels@ == Seq::new(STEM_COUNT as nat, |i: int| FULL_LEVEL));
        assert(mutes@ == Seq::new(STEM_COUNT as nat, |i: int| false));
        Isolation { bass_focus: false, levels, mutes, solos }
    }
}

/// One section's notes, keyed by occurrence label (e.g. "verse 2").
#[derive(Debug, Clone, PartialEq)]
pub struct SectionNote {
    pub label: String,
    pub doc: NotesDoc,
}

/// One timed stage of a profiled operation.
#[derive(Debug, Clone, PartialEq)]
pub struct ProfileStage {
    pub name: String,
    pub ms: u64,
    pub note: Option<String>,
}

/// One timed run of a heavy operation. `started_at` is assigned by the store
/// on save; the in-flight value is ignored on insert.
#[derive(Debug, Clone, PartialEq)]
pub struct ProfileRun {
    pub op: String,
    pub song_id: Option<SongId>,
    pub started_at: String,
    pub total_ms: u64,
    pub ok: bool,
    pub error: Option<String>,
    pub device: Option<String>,
    pub engine: Option<String>,
    pub max_cpu_pct: Option<u32>,
    pub max_gpu_util: Option<u32>,
    pub max_vram_used_mb: Option<u32>,
    pub vram_total_mb: Option<u32>,
    pub stages: Vec<ProfileStage>,
}

/// When a block's count-in fires: only on block entry (`First`) or before every
/// pass of the block (`Every`).
#[derive(Debug, Clone, Copy, PartialEq, Eq, Structural)]
pub enum CountInMode {
    First,
    Every,
}

impl Default for CountInMode {
    fn default() -> (r: CountInMode)
        ensures
            r == CountInMode::First,
    {
        CountInMode::First
    }
}

/// Per-block count-in: `beats` clicks before the block (0 = none), firing per
/// `loop_mode`.
#[derive(Debug, Clone, Copy, PartialEq, Eq, Structural)]
pub struct CountIn {
    pub beats: u32,
    pub loop_mode: CountInMode,
}

impl Default for CountIn {
    fn default() -> (r: CountIn)
        ensures
            r.beats == 0,
            r.loop_mode == CountInMode::First,
    {
        CountIn { beats: 0, loop_mode: CountInMode::First }
    }
}

} // verus!
