use vstd::prelude::*;

use crate::chunk::{ChunkState, ServerChunk};
use crate::chunk_handler::{
    grid_chunk, grid_count, neighborhood_settled, queue_column, queue_columns, queue_step, settled,
    cached_out_of_range, generation_candidate, generation_stepped, load_padding, loaders_ok, nearest_distance,
    popped_count, popped_count_upto, popped_index, queue_zones, switched, ungenerated_out_of_range, unload_padding, active_padding,
    zones_of, ChunkHandler,
};
use crate::coords::{index_of, CHUNK_AREA};
use crate::gen::spec_max_gen_stage;
use crate::rect::Rect;
use crate::material::{MaterialInstance, PhysicsType};
use crate::simulator::spawned_mats;
use crate::world_sim::{active_exact, keys_mass, near_active, sim_frame, sim_traced};

verus! {

broadcast use vstd::std_specs::hash::group_hash_axioms;

/// Where a tick of the chunk handler stands, between the pieces of outside
/// work it hands out.
#[derive(Clone, Copy, PartialEq, Eq, Structural, Debug)]
pub enum TickStage {
    /// Nothing done yet.
    Start,
    /// Cached chunks out of range were handed out to save.
    SavingCached,
    /// Chunks to generate were handed out to read from their save files.
    Reading,
    /// Chunks without a usable save file were handed out to generate.
    Generating,
    /// Chunks given up during generation were handed out to save.
    SavingUngenerated,
    /// The tick is over.
    Done,
}

/// A tick in progress: its number, whether chunks are loaded and unloaded,
/// the loaders (pixel positions), and the keys of the chunks handed out last.
pub struct TickState {
    pub stage: TickStage,
    pub tick_time: u32,
    pub load_chunks: bool,
    pub loaders: Vec<(i32, i32)>,
    pub pending: Vec<u32>,
}

/// What the caller reports back for the outside work handed out.
pub enum TickEvent {
    /// Go on: at the start, or once the chunks handed out to save are saved.
    Continue,
    /// For each key handed out to read, in order, its saved pixels and colors, if any.
    Read(Vec<Option<(Vec<MaterialInstance>, Vec<u8>)>>),
    /// For each key handed out to generate, in order, its generated pixels and colors.
    Generated(Vec<(Vec<MaterialInstance>, Vec<u8>)>),
}

/// The outside work the tick needs next.
pub enum TickAction {
    /// Save the chunks under these keys (they may be unloaded next).
    Save(Vec<u32>),
    /// Read the save files of the chunks under these keys.
    Read(Vec<u32>),
    /// Generate the chunks under these keys.
    Generate(Vec<u32>),
    /// The tick is over; these particles were spawned.
    Done(Vec<(MaterialInstance, i64, i64)>),
}

/// The same screen size, save path and generator.
pub open spec fn same_settings(h0: ChunkHandler, h1: ChunkHandler) -> bool {
    &&& h1.screen_size == h0.screen_size
    &&& h1.path == h0.path
    &&& h1.generator == h0.generator
}

/// `h1` is `h0` after queueing the load grids of the loaders' load zones
/// (see `queue_load_zones`) and loading up to 64 chunks from the end of the
/// queue (see `load_queued_chunks`).
pub open spec fn loading_done(h0: ChunkHandler, h1: ChunkHandler, loaders: Seq<(i32, i32)>) -> bool {
    let q = queue_zones(
        h0.loaded_chunks@,
        h0.load_queue@,
        zones_of(h0.screen_size, loaders, load_padding()),
        loaders.len() as int,
    );
    &&& same_settings(h0, h1)
    &&& h1.load_queue@ == q.take(q.len() - popped_count(q.len() as int))
    &&& forall|k: u32|
        #[trigger] h1.loaded_chunks@.contains_key(k) <==> h0.loaded_chunks@.contains_key(k) || popped_index(q, k)
    &&& forall|k: u32|
        h0.loaded_chunks@.contains_key(k) && !popped_index(q, k) ==> #[trigger] h1.loaded_chunks@[k]
            == h0.loaded_chunks@[k]
    &&& forall|k: u32|
        #[trigger] popped_index(q, k) ==> {
            let c = h1.loaded_chunks@[k];
            &&& c.state == ChunkState::NotGenerated
            &&& c.pixels is None
            &&& c.dirty_rect is None
        }
}

/// `h1` is `h0` after loading, where chunks are loaded, or `h0` itself.
pub open spec fn loaded_if(h0: ChunkHandler, h1: ChunkHandler, loaders: Seq<(i32, i32)>, load_chunks: bool) -> bool {
    if load_chunks {
        loading_done(h0, h1, loaders)
    } else {
        h1 == h0
    }
}

/// `h1` is `h0` after switching chunks between cached and active (see
/// `update_chunk_states`), and `r` lists the cached chunks out of range.
pub open spec fn states_switched(h0: ChunkHandler, h1: ChunkHandler, loaders: Seq<(i32, i32)>, r: Seq<u32>) -> bool {
    &&& same_settings(h0, h1)
    &&& h1.load_queue@ == h0.load_queue@
    &&& h1.loaded_chunks@.dom() == h0.loaded_chunks@.dom()
    &&& forall|k: u32|
        #[trigger] h0.loaded_chunks@.contains_key(k) ==> h1.loaded_chunks@[k] == switched(
            h0.loaded_chunks@,
            h0.loaded_chunks@[k],
            zones_of(h0.screen_size, loaders, unload_padding()),
            zones_of(h0.screen_size, loaders, active_padding()),
        )
    &&& r.no_duplicates()
    &&& forall|k: u32|
        #[trigger] r.contains(k) <==> h0.loaded_chunks@.contains_key(k) && cached_out_of_range(
            h0.loaded_chunks@[k],
            zones_of(h0.screen_size, loaders, unload_padding()),
        )
}

/// `h1` is `h0` with the chunks under `keys` unloaded, where chunks are
/// unloaded, or `h0` itself.
pub open spec fn unloaded_if(h0: ChunkHandler, h1: ChunkHandler, keys: Seq<u32>, load_chunks: bool) -> bool {
    if load_chunks {
        &&& same_settings(h0, h1)
        &&& h1.load_queue@ == h0.load_queue@
        &&& h1.loaded_chunks@ == h0.loaded_chunks@.remove_keys(keys.to_set())
    } else {
        h1 == h0
    }
}

/// `r` is what `select_chunks_to_generate` picks in `h`: up to 32 chunks
/// waiting for generation in range, nearest to a loader first.
pub open spec fn selected(h: ChunkHandler, loaders: Seq<(i32, i32)>, r: Seq<u32>) -> bool {
    let m = h.loaded_chunks@;
    let unload = zones_of(h.screen_size, loaders, unload_padding());
    &&& r.len() <= 32
    &&& r.no_duplicates()
    &&& forall|i: int| 0 <= i < r.len() ==> m.contains_key(#[trigger] r[i]) && generation_candidate(m[r[i]], unload)
    &&& forall|i: int, j: int|
        0 <= i < j < r.len() ==> nearest_distance(loaders, m[#[trigger] r[i]].chunk_x as int, m[r[i]].chunk_y as int)
            <= nearest_distance(loaders, m[#[trigger] r[j]].chunk_x as int, m[r[j]].chunk_y as int)
    &&& forall|k: u32|
        m.contains_key(k) && generation_candidate(m[k], unload) && !r.contains(k) ==> r.len() == 32 && forall|i: int|
            0 <= i < r.len() ==> nearest_distance(loaders, m[#[trigger] r[i]].chunk_x as int, m[r[i]].chunk_y as int)
                <= nearest_distance(loaders, m[k].chunk_x as int, m[k].chunk_y as int)
}

/// The saved data read for the `i`-th key handed out, if any.
pub open spec fn read_at(d: Seq<Option<(Vec<MaterialInstance>, Vec<u8>)>>, i: int) -> Option<
    (Vec<MaterialInstance>, Vec<u8>),
> {
    if 0 <= i < d.len() {
        d[i]
    } else {
        None
    }
}

/// Whether the chunk under `k` can be restored from the data read: it waits
/// for generation and the data has one pixel per pixel of a chunk.
pub open spec fn restorable(m: Map<u32, ServerChunk>, k: u32, d: Option<(Vec<MaterialInstance>, Vec<u8>)>) -> bool {
    &&& m.contains_key(k)
    &&& m[k].state == ChunkState::NotGenerated
    &&& d matches Some(p) && p.0@.len() == CHUNK_AREA
}

/// Chunk `c1` is chunk `c0` restored from saved pixels and colors (see `restore_saved_chunk`).
pub open spec fn restored_from(c0: ServerChunk, c1: ServerChunk, d: (Vec<MaterialInstance>, Vec<u8>)) -> bool {
    &&& c1.state == ChunkState::Cached
    &&& c1.pixels == Some(d.0)
    &&& c1.dirty
    &&& c1.pixel_data == (if d.1@.len() == 4 * CHUNK_AREA {
        d.1
    } else {
        c0.pixel_data
    })
    &&& c1.chunk_x == c0.chunk_x
    &&& c1.chunk_y == c0.chunk_y
    &&& c1.dirty_rect == c0.dirty_rect
}

/// `h1` is `h0` with each chunk under `keys` that can be restored from the
/// data read for it restored, and nothing else changed.
pub open spec fn saves_restored(
    h0: ChunkHandler,
    h1: ChunkHandler,
    keys: Seq<u32>,
    d: Seq<Option<(Vec<MaterialInstance>, Vec<u8>)>>,
) -> bool {
    &&& same_settings(h0, h1)
    &&& h1.load_queue@ == h0.load_queue@
    &&& h1.loaded_chunks@.dom() == h0.loaded_chunks@.dom()
    &&& forall|k: u32|
        h0.loaded_chunks@.contains_key(k) && !keys.contains(k) ==> #[trigger] h1.loaded_chunks@[k]
            == h0.loaded_chunks@[k]
    &&& forall|i: int|
        0 <= i < keys.len() && h0.loaded_chunks@.contains_key(keys[i]) ==> if restorable(
            h0.loaded_chunks@,
            keys[i],
            read_at(d, i),
        ) {
            restored_from(h0.loaded_chunks@[keys[i]], h1.loaded_chunks@[#[trigger] keys[i]], read_at(d, i).unwrap())
        } else {
            h1.loaded_chunks@[keys[i]] == h0.loaded_chunks@[keys[i]]
        }
}

/// The first `n` keys whose chunks could not be restored, in order.
pub open spec fn unrestored(
    m: Map<u32, ServerChunk>,
    keys: Seq<u32>,
    d: Seq<Option<(Vec<MaterialInstance>, Vec<u8>)>>,
    n: int,
) -> Seq<u32>
    decreases n,
{
    if n <= 0 {
        Seq::empty()
    } else if restorable(m, keys[n - 1], read_at(d, n - 1)) {
        unrestored(m, keys, d, n - 1)
    } else {
        unrestored(m, keys, d, n - 1).push(keys[n - 1])
    }
}

/// The generated data for the `i`-th key handed out, if any.
pub open spec fn generated_at(d: Seq<(Vec<MaterialInstance>, Vec<u8>)>, i: int) -> Option<
    (Vec<MaterialInstance>, Vec<u8>),
> {
    if 0 <= i < d.len() {
        Some(d[i])
    } else {
        None
    }
}

/// Whether the chunk under `k` can start generating with the data generated:
/// it waits for generation and the data has the sizes of a chunk's pixels and colors.
pub open spec fn generatable(m: Map<u32, ServerChunk>, k: u32, d: Option<(Vec<MaterialInstance>, Vec<u8>)>) -> bool {
    &&& m.contains_key(k)
    &&& m[k].state == ChunkState::NotGenerated
    &&& d matches Some(p) && p.0@.len() == CHUNK_AREA && p.1@.len() == 4 * CHUNK_AREA
}

/// `h1` is `h0` with each chunk under `keys` that can start generating with
/// the data generated for it started (see `begin_generation`), and nothing
/// else changed.
pub open spec fn generation_begun(
    h0: ChunkHandler,
    h1: ChunkHandler,
    keys: Seq<u32>,
    d: Seq<(Vec<MaterialInstance>, Vec<u8>)>,
) -> bool {
    &&& same_settings(h0, h1)
    &&& h1.load_queue@ == h0.load_queue@
    &&& h1.loaded_chunks@.dom() == h0.loaded_chunks@.dom()
    &&& forall|k: u32|
        h0.loaded_chunks@.contains_key(k) && !keys.contains(k) ==> #[trigger] h1.loaded_chunks@[k]
            == h0.loaded_chunks@[k]
    &&& forall|i: int|
        0 <= i < keys.len() && h0.loaded_chunks@.contains_key(keys[i]) ==> #[trigger] h1.loaded_chunks@[keys[i]]
            == if generatable(
            h0.loaded_chunks@,
            keys[i],
            generated_at(d, i),
        ) {
            ServerChunk {
                state: ChunkState::Generating(0),
                pixels: Some(d[i].0),
                pixel_data: d[i].1,
                ..h0.loaded_chunks@[keys[i]]
            }
        } else {
            h0.loaded_chunks@[keys[i]]
        }
}

/// `h1` is `h0` after one generation step (see `advance_generation`), and
/// `r` lists the chunks given up during generation.
pub open spec fn generation_advanced(h0: ChunkHandler, h1: ChunkHandler, loaders: Seq<(i32, i32)>, r: Seq<u32>) -> bool {
    &&& same_settings(h0, h1)
    &&& h1.load_queue@ == h0.load_queue@
    &&& h1.loaded_chunks@.dom() == h0.loaded_chunks@.dom()
    &&& forall|k: u32| #[trigger]
        h0.loaded_chunks@.contains_key(k) ==> generation_stepped(
            h0.loaded_chunks@,
            h0.loaded_chunks@[k],
            h1.loaded_chunks@[k],
        )
    &&& r.no_duplicates()
    &&& forall|k: u32|
        #[trigger] r.contains(k) <==> h0.loaded_chunks@.contains_key(k) && ungenerated_out_of_range(
            h0.loaded_chunks@[k],
            zones_of(h0.screen_size, loaders, unload_padding()),
        )
}

/// `h1` is `h0` after simulating the active chunks (see
/// `simulate_active_chunks`), the tick is over, and `a` hands out the
/// particles spawned.
pub open spec fn finished(h0: ChunkHandler, h1: ChunkHandler, s1: TickState, a: TickAction) -> bool {
    &&& same_settings(h0, h1)
    &&& h1.load_queue@ == h0.load_queue@
    &&& s1.stage == TickStage::Done
    &&& a is Done
    &&& exists|ks: Seq<u32>, trace: Seq<(Map<u32, ServerChunk>, Seq<(MaterialInstance, i64, i64)>)>|
        #[trigger] sim_traced(h0.loaded_chunks@, ks, trace, h1.loaded_chunks@, spawned(a))
    &&& ChunkHandler::sim_framed(h0.loaded_chunks@, h1.loaded_chunks@)
    &&& forall|k: u32|
        h0.loaded_chunks@.contains_key(k) && !near_active(h0.loaded_chunks@, k) ==> #[trigger] h1.loaded_chunks@[k]
            == (ServerChunk { dirty_rect: None, ..h0.loaded_chunks@[k] })
    &&& active_exact(h0.loaded_chunks@) ==> forall|ks: Seq<u32>, t: MaterialInstance|
        ks.no_duplicates() && ks.to_set() == h0.loaded_chunks@.dom() && t.physics != PhysicsType::Air
            ==> #[trigger] keys_mass(h1.loaded_chunks@, ks, t) + spawned_mats(spawned(a)).to_multiset().count(t)
            == keys_mass(h0.loaded_chunks@, ks, t)
}

/// The saved data an event reports as read (none for another event).
pub open spec fn read_data(ev: TickEvent) -> Seq<Option<(Vec<MaterialInstance>, Vec<u8>)>> {
    match ev {
        TickEvent::Read(d) => d@,
        _ => Seq::empty(),
    }
}

/// The data an event reports as generated (none for another event).
pub open spec fn generated_data(ev: TickEvent) -> Seq<(Vec<MaterialInstance>, Vec<u8>)> {
    match ev {
        TickEvent::Generated(d) => d@,
        _ => Seq::empty(),
    }
}

/// The keys a tick hands out for outside work.
pub open spec fn handed_out(a: TickAction) -> Seq<u32> {
    match a {
        TickAction::Save(v) => v@,
        TickAction::Read(v) => v@,
        TickAction::Generate(v) => v@,
        TickAction::Done(_) => Seq::empty(),
    }
}

/// The particles an ended tick hands out.
pub open spec fn spawned(a: TickAction) -> Seq<(MaterialInstance, i64, i64)> {
    match a {
        TickAction::Done(p) => p@,
        _ => Seq::empty(),
    }
}

/// What a tick does once the cached chunks out of range are dealt with:
/// on an even tick with chunk loading it picks chunks to generate and hands
/// them out to read; otherwise it simulates and ends.
pub open spec fn after_cached(h0: ChunkHandler, h1: ChunkHandler, s0: TickState, s1: TickState, a: TickAction) -> bool {
    if s0.load_chunks && s0.tick_time % 2 == 0 {
        &&& h1 == h0
        &&& selected(h0, s0.loaders@, s1.pending@)
        &&& s1.stage == TickStage::Reading
        &&& a is Read && handed_out(a) == s1.pending@
    } else {
        finished(h0, h1, s1, a)
    }
}

/// One step of a tick, from handler `h0` and tick `s0` with event `ev` to
/// handler `h1`, tick `s1` and action `a`:
/// - at the start, chunks are loaded (if chunk loading is on); on an even
///   tick chunk states are switched and the cached chunks out of range are
///   handed out to save; otherwise the tick goes on as `after_cached`;
/// - once those are saved, they are unloaded (if chunk loading is on) and the
///   tick goes on as `after_cached`;
/// - with the save files read, the chunks that can be are restored and the
///   others handed out to generate;
/// - with those generated, they start generating, one generation step runs,
///   and the chunks given up are handed out to save;
/// - once those are saved, they are unloaded (if chunk loading is on), the
///   active chunks are simulated and the tick ends;
/// - an ended tick stays ended and does nothing.
pub open spec fn tick_stepped(
    h0: ChunkHandler,
    s0: TickState,
    ev: TickEvent,
    h1: ChunkHandler,
    s1: TickState,
    a: TickAction,
) -> bool {
    let ld = s0.loaders@;
    match s0.stage {
        TickStage::Start => exists|hl: ChunkHandler|
            {
                &&& #[trigger] loaded_if(h0, hl, ld, s0.load_chunks)
                &&& if s0.tick_time % 2 == 0 {
                    &&& states_switched(hl, h1, ld, s1.pending@)
                    &&& s1.stage == TickStage::SavingCached
                    &&& a is Save && handed_out(a) == s1.pending@
                } else {
                    after_cached(hl, h1, s0, s1, a)
                }
            },
        TickStage::SavingCached => exists|hu: ChunkHandler|
            #[trigger] unloaded_if(h0, hu, s0.pending@, s0.load_chunks) && after_cached(hu, h1, s0, s1, a),
        TickStage::Reading => {
            &&& saves_restored(h0, h1, s0.pending@, read_data(ev))
            &&& s1.pending@ == unrestored(h0.loaded_chunks@, s0.pending@, read_data(ev), s0.pending@.len() as int)
            &&& s1.stage == TickStage::Generating
            &&& a is Generate && handed_out(a) == s1.pending@
        },
        TickStage::Generating => {
            exists|hg: ChunkHandler|
                {
                    &&& #[trigger] generation_begun(h0, hg, s0.pending@, generated_data(ev))
                    &&& generation_advanced(hg, h1, ld, s1.pending@)
                    &&& s1.stage == TickStage::SavingUngenerated
                    &&& a is Save && handed_out(a) == s1.pending@
                }
        },
        TickStage::SavingUngenerated => exists|hu: ChunkHandler|
            #[trigger] unloaded_if(h0, hu, s0.pending@, s0.load_chunks) && finished(hu, h1, s1, a),
        TickStage::Done => {
            &&& h1 == h0
            &&& s1.stage == TickStage::Done
            &&& a is Done && spawned(a).len() == 0
        },
    }
}

/// A prefix one longer holds one more element.
proof fn lemma_take_contains<A>(s: Seq<A>, i: int, x: A)
    requires
        0 <= i < s.len(),
    ensures
        s.take(i + 1).contains(x) <==> s.take(i).contains(x) || x == s[i],
{
    let t1 = s.take(i + 1);
    let t0 = s.take(i);
    if t1.contains(x) {
        let j = choose|j: int| 0 <= j < t1.len() && t1[j] == x;
        if j < i {
            assert(t0[j] == x);
        }
    }
    if t0.contains(x) {
        let j = choose|j: int| 0 <= j < t0.len() && t0[j] == x;
        assert(t1[j] == x);
    }
    if x == s[i] {
        assert(s.take(i + 1)[i] == x);
    }
}

/// Whether a chunk's state may go from `s0` to `s1` within one tick: it stays;
/// or a chunk waiting for generation is restored (cached) or starts generating
/// and may take one step; or a generating chunk takes one step (the last one
/// makes it cached); or a chunk switches between cached and active.
pub open spec fn tick_transition(s0: ChunkState, s1: ChunkState) -> bool {
    ||| s1 == s0
    ||| s0 == ChunkState::NotGenerated && (s1 == ChunkState::Cached || s1 == ChunkState::Generating(0)
        || s1 == ChunkState::Generating(1))
    ||| (s0 matches ChunkState::Generating(g) && if g >= spec_max_gen_stage() {
        s1 == ChunkState::Cached
    } else {
        s1 == ChunkState::Generating((g + 1) as u8)
    })
    ||| s0 == ChunkState::Cached && s1 == ChunkState::Active
    ||| s0 == ChunkState::Active && s1 == ChunkState::Cached
}

/// The state changes a tick can have made when it reaches `stage`.
pub open spec fn stage_transition(stage: TickStage, s0: ChunkState, s1: ChunkState) -> bool {
    let switched = s1 == s0 || (s0 == ChunkState::Cached && s1 == ChunkState::Active) || (s0 == ChunkState::Active
        && s1 == ChunkState::Cached);
    match stage {
        TickStage::Start => s1 == s0,
        TickStage::SavingCached => switched,
        TickStage::Reading => switched,
        TickStage::Generating => switched || (s0 == ChunkState::NotGenerated && s1 == ChunkState::Cached),
        _ => tick_transition(s0, s1),
    }
}

/// Every chunk loaded both in `h0` and in `h` kept its position, changed its
/// state only as far as `stage` allows, and became active only with its
/// whole neighborhood loaded and cached or active in `h0`.
pub open spec fn states_progressed(h0: ChunkHandler, h: ChunkHandler, stage: TickStage) -> bool {
    forall|k: u32|
        h0.loaded_chunks@.contains_key(k) && #[trigger] h.loaded_chunks@.contains_key(k) ==> {
            let c0 = h0.loaded_chunks@[k];
            let c1 = h.loaded_chunks@[k];
            &&& c1.chunk_x == c0.chunk_x
            &&& c1.chunk_y == c0.chunk_y
            &&& stage_transition(stage, c0.state, c1.state)
            &&& (c0.state != ChunkState::Active && c1.state == ChunkState::Active ==> neighborhood_settled(
                h0.loaded_chunks@,
                c0.chunk_x as int,
                c0.chunk_y as int,
            ))
        }
}

/// A run of tick steps from the start: handlers `hs`, tick states `ss`,
/// events `evs` and actions `acts`, each step as `tick_stepped` says.
pub open spec fn tick_run(hs: Seq<ChunkHandler>, ss: Seq<TickState>, evs: Seq<TickEvent>, acts: Seq<TickAction>) -> bool {
    &&& hs.len() == evs.len() + 1
    &&& ss.len() == evs.len() + 1
    &&& acts.len() == evs.len()
    &&& ss[0].stage == TickStage::Start
    &&& forall|i: int| 0 <= i < evs.len() ==> #[trigger] tick_stepped(hs[i], ss[i], evs[i], hs[i + 1], ss[i + 1], acts[i])
}

/// Whether no position in a load queue belongs to a loaded chunk.
pub open spec fn queue_unloaded(m: Map<u32, ServerChunk>, q: Seq<(i32, i32)>) -> bool {
    forall|i: int| 0 <= i < q.len() ==> !m.contains_key(index_of(#[trigger] q[i].0 as int, q[i].1 as int))
}

proof fn lemma_queue_step_unloaded(m: Map<u32, ServerChunk>, q: Seq<(i32, i32)>, p: (i32, i32))
    requires
        queue_unloaded(m, q),
    ensures
        queue_unloaded(m, queue_step(m, q, p)),
{
    let q1 = queue_step(m, q, p);
    assert forall|i: int| 0 <= i < q1.len() implies !m.contains_key(index_of(#[trigger] q1[i].0 as int, q1[i].1 as int)) by {
        if i < q.len() {
            assert(q1[i] == q[i]);
        }
    }
}

proof fn lemma_queue_column_unloaded(m: Map<u32, ServerChunk>, q: Seq<(i32, i32)>, z: Rect<i32>, a: int, b: int)
    requires
        queue_unloaded(m, q),
    ensures
        queue_unloaded(m, queue_column(m, q, z, a, b)),
    decreases b,
{
    if b > 0 {
        lemma_queue_column_unloaded(m, q, z, a, b - 1);
        lemma_queue_step_unloaded(m, queue_column(m, q, z, a, b - 1), grid_chunk(z, a, b - 1));
    }
}

proof fn lemma_queue_columns_unloaded(m: Map<u32, ServerChunk>, q: Seq<(i32, i32)>, z: Rect<i32>, a: int)
    requires
        queue_unloaded(m, q),
    ensures
        queue_unloaded(m, queue_columns(m, q, z, a)),
    decreases a,
{
    if a > 0 {
        lemma_queue_columns_unloaded(m, q, z, a - 1);
        lemma_queue_column_unloaded(m, queue_columns(m, q, z, a - 1), z, a - 1, grid_count(z.y1 as int, z.y2 as int));
    }
}

proof fn lemma_queue_zones_unloaded(m: Map<u32, ServerChunk>, q: Seq<(i32, i32)>, zones: Seq<Rect<i32>>, n: int)
    requires
        queue_unloaded(m, q),
    ensures
        queue_unloaded(m, queue_zones(m, q, zones, n)),
    decreases n,
{
    if n > 0 {
        lemma_queue_zones_unloaded(m, q, zones, n - 1);
        lemma_queue_columns_unloaded(
            m,
            queue_zones(m, q, zones, n - 1),
            zones[n - 1],
            grid_count(zones[n - 1].x1 as int, zones[n - 1].x2 as int),
        );
    }
}

/// Loading keeps every loaded chunk as it was, and neighborhoods settled
/// after loading were settled before.
proof fn lemma_loading_keeps(h0: ChunkHandler, hl: ChunkHandler, loaders: Seq<(i32, i32)>, load_chunks: bool)
    requires
        loaded_if(h0, hl, loaders, load_chunks),
        queue_unloaded(h0.loaded_chunks@, h0.load_queue@),
    ensures
        forall|k: u32| #[trigger] h0.loaded_chunks@.contains_key(k) ==> hl.loaded_chunks@.contains_key(k)
            && hl.loaded_chunks@[k] == h0.loaded_chunks@[k],
        forall|x: int, y: int| #[trigger] settled(hl.loaded_chunks@, x, y) ==> settled(h0.loaded_chunks@, x, y),
{
    if load_chunks {
        let q = queue_zones(
            h0.loaded_chunks@,
            h0.load_queue@,
            zones_of(h0.screen_size, loaders, load_padding()),
            loaders.len() as int,
        );
        lemma_queue_zones_unloaded(
            h0.loaded_chunks@,
            h0.load_queue@,
            zones_of(h0.screen_size, loaders, load_padding()),
            loaders.len() as int,
        );
        assert forall|k: u32| #[trigger] h0.loaded_chunks@.contains_key(k) implies !popped_index(q, k) by {
            if popped_index(q, k) {
                let i = choose|i: int|
                    q.len() - popped_count_upto(q.len() as int, 64) <= i < q.len() && index_of(
                        #[trigger] q[i].0 as int,
                        q[i].1 as int,
                    ) == k;
            }
        }
        assert forall|x: int, y: int| #[trigger] settled(hl.loaded_chunks@, x, y) implies settled(
            h0.loaded_chunks@,
            x,
            y,
        ) by {
            let k = index_of(x, y);
            if popped_index(q, k) {
                assert(hl.loaded_chunks@[k].state == ChunkState::NotGenerated);
            }
        }
    }
}

/// One step of a tick keeps `states_progressed`.
proof fn lemma_step_progress(
    h0: ChunkHandler,
    h: ChunkHandler,
    s: TickState,
    ev: TickEvent,
    h1: ChunkHandler,
    s1: TickState,
    a: TickAction,
)
    requires
        states_progressed(h0, h, s.stage),
        s.stage == TickStage::Start ==> h == h0,
        queue_unloaded(h0.loaded_chunks@, h0.load_queue@),
        tick_stepped(h, s, ev, h1, s1, a),
    ensures
        states_progressed(h0, h1, s1.stage),
        s1.stage != TickStage::Start,
{
    let m0 = h0.loaded_chunks@;
    match s.stage {
        TickStage::Start => {
            let hl = choose|hl: ChunkHandler|
                {
                    &&& #[trigger] loaded_if(h, hl, s.loaders@, s.load_chunks)
                    &&& if s.tick_time % 2 == 0 {
                        &&& states_switched(hl, h1, s.loaders@, s1.pending@)
                        &&& s1.stage == TickStage::SavingCached
                        &&& a is Save && handed_out(a) == s1.pending@
                    } else {
                        after_cached(hl, h1, s, s1, a)
                    }
                };
            lemma_loading_keeps(h0, hl, s.loaders@, s.load_chunks);
            assert forall|k: u32| m0.contains_key(k) && #[trigger] h1.loaded_chunks@.contains_key(k) implies ({
                let c0 = m0[k];
                let c1 = h1.loaded_chunks@[k];
                &&& c1.chunk_x == c0.chunk_x
                &&& c1.chunk_y == c0.chunk_y
                &&& stage_transition(s1.stage, c0.state, c1.state)
                &&& (c0.state != ChunkState::Active && c1.state == ChunkState::Active ==> neighborhood_settled(
                    m0,
                    c0.chunk_x as int,
                    c0.chunk_y as int,
                ))
            }) by {
                assert(hl.loaded_chunks@.contains_key(k));
                assert(hl.loaded_chunks@[k] == m0[k]);
                let (x, y) = (m0[k].chunk_x as int, m0[k].chunk_y as int);
                if s.tick_time % 2 == 0 {
                    if m0[k].state != ChunkState::Active && h1.loaded_chunks@[k].state == ChunkState::Active {
                        assert(neighborhood_settled(hl.loaded_chunks@, x, y));
                        assert(settled(hl.loaded_chunks@, x - 1, y - 1));
                        assert(settled(hl.loaded_chunks@, x, y - 1));
                        assert(settled(hl.loaded_chunks@, x + 1, y - 1));
                        assert(settled(hl.loaded_chunks@, x - 1, y));
                        assert(settled(hl.loaded_chunks@, x, y));
                        assert(settled(hl.loaded_chunks@, x + 1, y));
                        assert(settled(hl.loaded_chunks@, x - 1, y + 1));
                        assert(settled(hl.loaded_chunks@, x, y + 1));
                        assert(settled(hl.loaded_chunks@, x + 1, y + 1));
                    }
                } else if s.load_chunks {
                    assert(sim_frame(hl.loaded_chunks@[k], h1.loaded_chunks@[k]));
                } else {
                    assert(sim_frame(hl.loaded_chunks@[k], h1.loaded_chunks@[k]));
                }
            }
        },
        TickStage::SavingCached => {
            let hu = choose|hu: ChunkHandler|
                #[trigger] unloaded_if(h, hu, s.pending@, s.load_chunks) && after_cached(hu, h1, s, s1, a);
            assert forall|k: u32| m0.contains_key(k) && #[trigger] h1.loaded_chunks@.contains_key(k) implies ({
                let c0 = m0[k];
                let c1 = h1.loaded_chunks@[k];
                &&& c1.chunk_x == c0.chunk_x
                &&& c1.chunk_y == c0.chunk_y
                &&& stage_transition(s1.stage, c0.state, c1.state)
                &&& (c0.state != ChunkState::Active && c1.state == ChunkState::Active ==> neighborhood_settled(
                    m0,
                    c0.chunk_x as int,
                    c0.chunk_y as int,
                ))
            }) by {
                assert(hu.loaded_chunks@.contains_key(k));
                assert(h.loaded_chunks@.contains_key(k));
                assert(hu.loaded_chunks@[k] == h.loaded_chunks@[k]);
                if !(s.load_chunks && s.tick_time % 2 == 0) {
                    assert(sim_frame(hu.loaded_chunks@[k], h1.loaded_chunks@[k]));
                }
            }
        },
        TickStage::Reading => {
            let d = read_data(ev);
            assert forall|k: u32| m0.contains_key(k) && #[trigger] h1.loaded_chunks@.contains_key(k) implies ({
                let c0 = m0[k];
                let c1 = h1.loaded_chunks@[k];
                &&& c1.chunk_x == c0.chunk_x
                &&& c1.chunk_y == c0.chunk_y
                &&& stage_transition(s1.stage, c0.state, c1.state)
                &&& (c0.state != ChunkState::Active && c1.state == ChunkState::Active ==> neighborhood_settled(
                    m0,
                    c0.chunk_x as int,
                    c0.chunk_y as int,
                ))
            }) by {
                assert(h.loaded_chunks@.contains_key(k));
                if s.pending@.contains(k) {
                    let i = choose|i: int| 0 <= i < s.pending@.len() && s.pending@[i] == k;
                    assert(h.loaded_chunks@.contains_key(s.pending@[i]));
                }
            }
        },
        TickStage::Generating => {
            let d = generated_data(ev);
            let hg = choose|hg: ChunkHandler|
                {
                    &&& #[trigger] generation_begun(h, hg, s.pending@, d)
                    &&& generation_advanced(hg, h1, s.loaders@, s1.pending@)
                    &&& s1.stage == TickStage::SavingUngenerated
                    &&& a is Save && handed_out(a) == s1.pending@
                };
            assert forall|k: u32| m0.contains_key(k) && #[trigger] h1.loaded_chunks@.contains_key(k) implies ({
                let c0 = m0[k];
                let c1 = h1.loaded_chunks@[k];
                &&& c1.chunk_x == c0.chunk_x
                &&& c1.chunk_y == c0.chunk_y
                &&& stage_transition(s1.stage, c0.state, c1.state)
                &&& (c0.state != ChunkState::Active && c1.state == ChunkState::Active ==> neighborhood_settled(
                    m0,
                    c0.chunk_x as int,
                    c0.chunk_y as int,
                ))
            }) by {
                assert(hg.loaded_chunks@.contains_key(k));
                assert(h.loaded_chunks@.contains_key(k));
                if s.pending@.contains(k) {
                    let i = choose|i: int| 0 <= i < s.pending@.len() && s.pending@[i] == k;
                    assert(h.loaded_chunks@.contains_key(s.pending@[i]));
                    assert(hg.loaded_chunks@[s.pending@[i]] == hg.loaded_chunks@[k]);
                }
                assert(generation_stepped(hg.loaded_chunks@, hg.loaded_chunks@[k], h1.loaded_chunks@[k]));
            }
        },
        TickStage::SavingUngenerated => {
            let hu = choose|hu: ChunkHandler|
                #[trigger] unloaded_if(h, hu, s.pending@, s.load_chunks) && finished(hu, h1, s1, a);
            assert forall|k: u32| m0.contains_key(k) && #[trigger] h1.loaded_chunks@.contains_key(k) implies ({
                let c0 = m0[k];
                let c1 = h1.loaded_chunks@[k];
                &&& c1.chunk_x == c0.chunk_x
                &&& c1.chunk_y == c0.chunk_y
                &&& stage_transition(s1.stage, c0.state, c1.state)
                &&& (c0.state != ChunkState::Active && c1.state == ChunkState::Active ==> neighborhood_settled(
                    m0,
                    c0.chunk_x as int,
                    c0.chunk_y as int,
                ))
            }) by {
                assert(hu.loaded_chunks@.contains_key(k));
                assert(h.loaded_chunks@.contains_key(k));
                assert(hu.loaded_chunks@[k] == h.loaded_chunks@[k]);
                assert(sim_frame(hu.loaded_chunks@[k], h1.loaded_chunks@[k]));
            }
        },
        TickStage::Done => {},
    }
}

/// Over the steps of a tick, chunk states only change as `tick_transition`
/// allows: a chunk kept loaded through a tick keeps its position; its state
/// stays, or moves from waiting for generation to cached or to an early
/// generation stage, or a generating chunk takes one stage (the last one
/// makes it cached), or it switches between cached and active; and it
/// becomes active only if the nine chunks around it (itself included) were
/// loaded and cached or active when the tick started. This holds where no
/// position waiting in the load queue belongs to a loaded chunk.
pub proof fn lemma_tick_chunk_states(
    hs: Seq<ChunkHandler>,
    ss: Seq<TickState>,
    evs: Seq<TickEvent>,
    acts: Seq<TickAction>,
    k: u32,
)
    requires
        tick_run(hs, ss, evs, acts),
        ss[ss.len() - 1].stage == TickStage::Done,
        queue_unloaded(hs[0].loaded_chunks@, hs[0].load_queue@),
        hs[0].loaded_chunks@.contains_key(k),
        hs[hs.len() - 1].loaded_chunks@.contains_key(k),
    ensures
        ({
            let c0 = hs[0].loaded_chunks@[k];
            let c1 = hs[hs.len() - 1].loaded_chunks@[k];
            &&& c1.chunk_x == c0.chunk_x
            &&& c1.chunk_y == c0.chunk_y
            &&& tick_transition(c0.state, c1.state)
            &&& (c0.state != ChunkState::Active && c1.state == ChunkState::Active ==> neighborhood_settled(
                hs[0].loaded_chunks@,
                c0.chunk_x as int,
                c0.chunk_y as int,
            ))
        }),
{
    lemma_run_progress(hs, ss, evs, acts, evs.len() as int);
    assert(hs[hs.len() - 1].loaded_chunks@.contains_key(k));
}

proof fn lemma_run_progress(hs: Seq<ChunkHandler>, ss: Seq<TickState>, evs: Seq<TickEvent>, acts: Seq<TickAction>, i: int)
    requires
        tick_run(hs, ss, evs, acts),
        queue_unloaded(hs[0].loaded_chunks@, hs[0].load_queue@),
        0 <= i <= evs.len(),
    ensures
        states_progressed(hs[0], hs[i], ss[i].stage),
        i > 0 ==> ss[i].stage != TickStage::Start,
    decreases i,
{
    if i > 0 {
        let j = i - 1;
        lemma_run_progress(hs, ss, evs, acts, j);
        assert(tick_stepped(hs[j], ss[j], evs[j], hs[j + 1], ss[j + 1], acts[j]));
        lemma_step_progress(hs[0], hs[j], ss[j], evs[j], hs[j + 1], ss[j + 1], acts[j]);
    }
}

impl TickState {
    /// A tick about to start.
    pub fn new(tick_time: u32, load_chunks: bool, loaders: Vec<(i32, i32)>) -> (r: Self)
        ensures
            r.stage == TickStage::Start,
            r.tick_time == tick_time,
            r.load_chunks == load_chunks,
            r.loaders == loaders,
            r.pending@.len() == 0,
    {
        TickState { stage: TickStage::Start, tick_time, load_chunks, loaders, pending: Vec::new() }
    }
}

impl ChunkHandler {
    /// Runs a tick up to the next piece of outside work (see `tick_stepped`).
    pub fn tick_step(&mut self, st: &mut TickState, ev: TickEvent) -> (a: TickAction)
        requires
            old(self).wf(),
            loaders_ok(old(self).screen_size, old(st).loaders@),
            old(st).pending@.no_duplicates(),
        ensures
            final(self).wf(),
            final(st).tick_time == old(st).tick_time,
            final(st).load_chunks == old(st).load_chunks,
            final(st).loaders == old(st).loaders,
            final(st).pending@.no_duplicates(),
            tick_stepped(*old(self), *old(st), ev, *final(self), *final(st), a),
    {
        let ghost h0 = *self;
        let ghost s0 = *st;
        match st.stage {
            TickStage::Start => {
                if st.load_chunks {
                    self.queue_load_zones(st.loaders.as_slice());
                    self.load_queued_chunks();
                }
                let ghost hl = *self;
                assert(loaded_if(h0, hl, s0.loaders@, s0.load_chunks));
                if st.tick_time % 2 == 0 {
                    let keys = self.update_chunk_states(st.loaders.as_slice());
                    st.pending = keys.clone();
                    assert(st.pending@ =~= keys@);
                    st.stage = TickStage::SavingCached;
                    let a = TickAction::Save(keys);
                    assert(states_switched(hl, *self, s0.loaders@, st.pending@));
                    assert(handed_out(a) == st.pending@);
                    assert(tick_stepped(h0, s0, ev, *self, *st, a)) by {
                        assert(loaded_if(h0, hl, s0.loaders@, s0.load_chunks) && states_switched(
                            hl,
                            *self,
                            s0.loaders@,
                            st.pending@,
                        ) && st.stage == TickStage::SavingCached && a is Save && handed_out(a) == st.pending@);
                    }
                    a
                } else {
                    let a = self.after_cached_step(st);
                    assert(after_cached(hl, *self, s0, *st, a));
                    assert(tick_stepped(h0, s0, ev, *self, *st, a)) by {
                        assert(loaded_if(h0, hl, s0.loaders@, s0.load_chunks) && after_cached(hl, *self, s0, *st, a));
                    }
                    a
                }
            },
            TickStage::SavingCached => {
                if st.load_chunks {
                    self.unload_keys(&st.pending);
                }
                let ghost hu = *self;
                assert(unloaded_if(h0, hu, s0.pending@, s0.load_chunks));
                let a = self.after_cached_step(st);
                assert(tick_stepped(h0, s0, ev, *self, *st, a));
                a
            },
            TickStage::Reading => {
                let data = match ev {
                    TickEvent::Read(d) => d,
                    _ => Vec::new(),
                };
                let rest = self.restore_keys(&st.pending, data);
                st.pending = rest.clone();
                assert(st.pending@ =~= rest@);
                st.stage = TickStage::Generating;
                let a = TickAction::Generate(rest);
                assert(tick_stepped(h0, s0, ev, *self, *st, a));
                a
            },
            TickStage::Generating => {
                let data = match ev {
                    TickEvent::Generated(d) => d,
                    _ => Vec::new(),
                };
                let ghost d = data@;
                self.generate_keys(&st.pending, data);
                let ghost hg = *self;
                let keys = self.advance_generation(st.loaders.as_slice());
                st.pending = keys.clone();
                assert(st.pending@ =~= keys@);
                st.stage = TickStage::SavingUngenerated;
                let a = TickAction::Save(keys);
                assert(generation_begun(h0, hg, s0.pending@, d));
                assert(generation_advanced(hg, *self, s0.loaders@, st.pending@));
                assert(d == generated_data(ev));
                assert(generation_begun(h0, hg, s0.pending@, generated_data(ev)));
                assert(tick_stepped(h0, s0, ev, *self, *st, a));
                a
            },
            TickStage::SavingUngenerated => {
                if st.load_chunks {
                    self.unload_keys(&st.pending);
                }
                let ghost hu = *self;
                assert(unloaded_if(h0, hu, s0.pending@, s0.load_chunks));
                let a = self.finish_step(st);
                assert(tick_stepped(h0, s0, ev, *self, *st, a));
                a
            },
            TickStage::Done => {
                let a = TickAction::Done(Vec::new());
                assert(tick_stepped(h0, s0, ev, *self, *st, a));
                a
            },
        }
    }

    /// The part of a tick after the cached chunks out of range are dealt with (see `after_cached`).
    fn after_cached_step(&mut self, st: &mut TickState) -> (a: TickAction)
        requires
            old(self).wf(),
            loaders_ok(old(self).screen_size, old(st).loaders@),
        ensures
            final(self).wf(),
            final(st).tick_time == old(st).tick_time,
            final(st).load_chunks == old(st).load_chunks,
            final(st).loaders == old(st).loaders,
            final(st).pending@.no_duplicates(),
            after_cached(*old(self), *final(self), *old(st), *final(st), a),
    {
        if st.load_chunks && st.tick_time % 2 == 0 {
            let keys = self.select_chunks_to_generate(st.loaders.as_slice());
            st.pending = keys.clone();
            assert(st.pending@ =~= keys@);
            st.stage = TickStage::Reading;
            TickAction::Read(keys)
        } else {
            self.finish_step(st)
        }
    }

    /// The end of a tick: the active chunks are simulated (see `finished`).
    fn finish_step(&mut self, st: &mut TickState) -> (a: TickAction)
        requires
            old(self).wf(),
        ensures
            final(self).wf(),
            final(st).tick_time == old(st).tick_time,
            final(st).load_chunks == old(st).load_chunks,
            final(st).loaders == old(st).loaders,
            final(st).pending@.no_duplicates(),
            finished(*old(self), *final(self), *final(st), a),
    {
        let particles = self.simulate_active_chunks();
        let ghost hs = *self;
        self.update_chunk_graphics();
        assert(*self == hs);

        st.stage = TickStage::Done;
        st.pending = Vec::new();
        let ghost pv = particles@;
        let a = TickAction::Done(particles);
        assert(spawned(a) == pv);
        assert(same_settings(*old(self), *self));
        assert(self.load_queue@ == old(self).load_queue@);
        assert(exists|ks: Seq<u32>, trace: Seq<(Map<u32, ServerChunk>, Seq<(MaterialInstance, i64, i64)>)>|
            #[trigger] sim_traced(old(self).loaded_chunks@, ks, trace, self.loaded_chunks@, pv));
        a
    }

    /// Unloads the chunks under the given keys.
    fn unload_keys(&mut self, keys: &Vec<u32>)
        requires
            old(self).wf(),
        ensures
            final(self).wf(),
            unloaded_if(*old(self), *final(self), keys@, true),
    {
        let mut i: usize = 0;
        while i < keys.len()
            invariant
                0 <= i <= keys@.len(),
                self.wf(),
                same_settings(*old(self), *self),
                self.load_queue@ == old(self).load_queue@,
                self.loaded_chunks@ == old(self).loaded_chunks@.remove_keys(keys@.take(i as int).to_set()),
            decreases keys@.len() - i,
        {
            self.unload_chunk(keys[i]);
            assert forall|x: u32| keys@.take(i + 1).to_set().contains(x) == keys@.take(i as int).to_set().insert(
                keys@[i as int],
            ).contains(x) by {
                lemma_take_contains(keys@, i as int, x);
            }
            assert(keys@.take(i + 1).to_set() =~= keys@.take(i as int).to_set().insert(keys@[i as int]));
            assert(self.loaded_chunks@ =~= old(self).loaded_chunks@.remove_keys(keys@.take(i + 1).to_set()));
            i = i + 1;
        }
        assert(keys@.take(keys@.len() as int) =~= keys@);
    }

    /// Restores each chunk under `keys` that can be from the data read for
    /// it, and lists the others.
    fn restore_keys(&mut self, keys: &Vec<u32>, data: Vec<Option<(Vec<MaterialInstance>, Vec<u8>)>>) -> (r: Vec<u32>)
        requires
            old(self).wf(),
            keys@.no_duplicates(),
        ensures
            final(self).wf(),
            saves_restored(*old(self), *final(self), keys@, data@),
            r@ == unrestored(old(self).loaded_chunks@, keys@, data@, keys@.len() as int),
            r@.no_duplicates(),
    {
        let ghost d0 = data@;
        let ghost m0 = self.loaded_chunks@;
        let mut data = data;
        let mut rest: Vec<u32> = Vec::new();
        let mut i: usize = 0;
        while i < keys.len()
            invariant
                0 <= i <= keys@.len(),
                keys@.no_duplicates(),
                self.wf(),
                same_settings(*old(self), *self),
                self.load_queue@ == old(self).load_queue@,
                m0 == old(self).loaded_chunks@,
                self.loaded_chunks@.dom() == m0.dom(),
                data@ == (if i <= d0.len() { d0.subrange(i as int, d0.len() as int) } else { Seq::empty() }),
                forall|k: u32|
                    m0.contains_key(k) && !keys@.take(i as int).contains(k) ==> #[trigger] self.loaded_chunks@[k]
                        == m0[k],
                forall|j: int|
                    0 <= j < i && m0.contains_key(keys@[j]) ==> if restorable(m0, keys@[j], read_at(d0, j)) {
                        restored_from(m0[keys@[j]], self.loaded_chunks@[#[trigger] keys@[j]], read_at(d0, j).unwrap())
                    } else {
                        self.loaded_chunks@[keys@[j]] == m0[keys@[j]]
                    },
                rest@ == unrestored(m0, keys@, d0, i as int),
                rest@.no_duplicates(),
                forall|x: u32| rest@.contains(x) ==> keys@.take(i as int).contains(x),
            decreases keys@.len() - i,
        {
            let k = keys[i];
            let item = if data.len() > 0 {
                data.remove(0)
            } else {
                None
            };
            assert(item == read_at(d0, i as int));
            let ghost before = self.loaded_chunks@;
            proof {
                assert(!keys@.take(i as int).contains(k)) by {
                    if keys@.take(i as int).contains(k) {
                        let j = choose|j: int| 0 <= j < i && keys@.take(i as int)[j] == k;
                        assert(keys@[j] == keys@[i as int]);
                    }
                }
            }
            proof {
                if m0.contains_key(k) {
                    assert(self.loaded_chunks@[k] == m0[k]);
                }
            }
            let waiting = match self.loaded_chunks.get(&k) {
                Some(c) => c.state == ChunkState::NotGenerated,
                None => false,
            };
            let ghost old_rest = rest@;
            let mut restored = false;
            if waiting {
                match item {
                    Some(saved) => {
                        let (pixels, colors) = saved;
                        restored = self.restore_saved_chunk(k, pixels, colors);
                    },
                    None => {},
                }
            }
            proof {
                assert(restored == restorable(m0, k, read_at(d0, i as int)));
                assert forall|k2: u32|
                    m0.contains_key(k2) && !keys@.take(i + 1).contains(k2) implies #[trigger] self.loaded_chunks@[k2]
                        == m0[k2] by {
                    lemma_take_contains(keys@, i as int, k2);
                }
                assert forall|j: int| 0 <= j < i implies keys@[j] != k by {}
            }
            if !restored {
                rest.push(k);
            }
            proof {
                assert forall|x: u32| rest@.contains(x) implies keys@.take(i + 1).contains(x) by {
                    lemma_take_contains(keys@, i as int, x);
                    if x != k {
                        assert(old_rest.contains(x)) by {
                            let j = choose|j: int| 0 <= j < rest@.len() && rest@[j] == x;
                            if !restored {
                                assert(j < old_rest.len());
                            }
                            assert(old_rest[j] == x);
                        }
                    }
                }
                assert(rest@.no_duplicates()) by {
                    if !restored {
                        assert(!old_rest.contains(k));
                        assert forall|p: int, q: int| 0 <= p < q < rest@.len() implies rest@[p] != rest@[q] by {
                            if q == rest@.len() - 1 {
                                assert(old_rest.contains(rest@[p]));
                            } else {
                                assert(old_rest[p] != old_rest[q]);
                            }
                        }
                    }
                }
            }
            i = i + 1;
        }
        rest
    }

    /// Starts generating each chunk under `keys` that can with the data
    /// generated for it.
    fn generate_keys(&mut self, keys: &Vec<u32>, data: Vec<(Vec<MaterialInstance>, Vec<u8>)>)
        requires
            old(self).wf(),
            keys@.no_duplicates(),
        ensures
            final(self).wf(),
            generation_begun(*old(self), *final(self), keys@, data@),
    {
        let ghost d0 = data@;
        let ghost m0 = self.loaded_chunks@;
        let mut data = data;
        let mut i: usize = 0;
        while i < keys.len()
            invariant
                0 <= i <= keys@.len(),
                keys@.no_duplicates(),
                self.wf(),
                same_settings(*old(self), *self),
                self.load_queue@ == old(self).load_queue@,
                m0 == old(self).loaded_chunks@,
                self.loaded_chunks@.dom() == m0.dom(),
                data@ == (if i <= d0.len() { d0.subrange(i as int, d0.len() as int) } else { Seq::empty() }),
                forall|k: u32|
                    m0.contains_key(k) && !keys@.take(i as int).contains(k) ==> #[trigger] self.loaded_chunks@[k]
                        == m0[k],
                forall|j: int|
                    0 <= j < i && m0.contains_key(keys@[j]) ==> #[trigger] self.loaded_chunks@[keys@[j]] == if generatable(
                        m0,
                        keys@[j],
                        generated_at(d0, j),
                    ) {
                        ServerChunk {
                            state: ChunkState::Generating(0),
                            pixels: Some(d0[j].0),
                            pixel_data: d0[j].1,
                            ..m0[keys@[j]]
                        }
                    } else {
                        m0[keys@[j]]
                    },
            decreases keys@.len() - i,
        {
            let k = keys[i];
            let item = if data.len() > 0 {
                Some(data.remove(0))
            } else {
                None
            };
            assert(item == generated_at(d0, i as int));
            proof {
                assert(!keys@.take(i as int).contains(k)) by {
                    if keys@.take(i as int).contains(k) {
                        let j = choose|j: int| 0 <= j < i && keys@.take(i as int)[j] == k;
                        assert(keys@[j] == keys@[i as int]);
                    }
                }
            }
            proof {
                if m0.contains_key(k) {
                    assert(self.loaded_chunks@[k] == m0[k]);
                }
            }
            let waiting = match self.loaded_chunks.get(&k) {
                Some(c) => c.state == ChunkState::NotGenerated,
                None => false,
            };
            if waiting {
                match item {
                    Some(generated) => {
                        let (pixels, colors) = generated;
                        if pixels.len() == 16384 && colors.len() == 65536 {
                            self.begin_generation(k, pixels, colors);
                        }
                    },
                    None => {},
                }
            }
            proof {
                assert forall|k2: u32|
                    m0.contains_key(k2) && !keys@.take(i + 1).contains(k2) implies #[trigger] self.loaded_chunks@[k2]
                        == m0[k2] by {
                    lemma_take_contains(keys@, i as int, k2);
                }
                assert forall|j: int| 0 <= j < i implies keys@[j] != k by {}
            }
            i = i + 1;
        }
        proof {
            assert(keys@.take(keys@.len() as int) =~= keys@);
        }
    }
}

} // verus!
