use vstd::prelude::*;

use std::collections::HashMap;
use vstd::std_specs::iter::IteratorSpec;
use std::path::PathBuf;

use crate::chunk::{full_chunk_rect, in_chunk, lemma_pixel_index_bounds, pixel_index, ChunkState, ServerChunk};
use crate::material::{MaterialInstance, PhysicsType};
use crate::coords::CHUNK_AREA;
use crate::coords::{
    coord_ok, index_exact, index_of, CHUNK_SIZE, int_to_nat, lemma_pair_index_unpair, lemma_tri_root_is,
    lemma_tri_step, pair_index, pixel_to_chunk, tri, unpair, update_order,
};
use crate::gen::{spec_max_gen_stage, TestGenerator};
use crate::rect::{fits_i32, Rect};

verus! {

broadcast use vstd::std_specs::hash::group_hash_axioms;

/// A loaded chunk sits under the index of its own position.
pub open spec fn chunk_at_key(k: u32, c: ServerChunk) -> bool {
    &&& c.wf()
    &&& coord_ok(c.chunk_x as int)
    &&& coord_ok(c.chunk_y as int)
    &&& index_of(c.chunk_x as int, c.chunk_y as int) == k
}

/// Whether the chunk holding pixel `(x, y)` can be indexed.
pub open spec fn pixel_ok(x: int, y: int) -> bool {
    coord_ok(x / (CHUNK_SIZE as int)) && coord_ok(y / (CHUNK_SIZE as int))
}

/// The index of the chunk holding pixel `(x, y)`.
pub open spec fn pixel_key(x: int, y: int) -> u32 {
    index_of(x / (CHUNK_SIZE as int), y / (CHUNK_SIZE as int))
}

/// Where pixel `(x, y)` sits in the pixel array of its chunk.
pub open spec fn local_index(x: int, y: int) -> int {
    pixel_index(x % (CHUNK_SIZE as int), y % (CHUNK_SIZE as int))
}

/// The material at pixel `(x, y)` of a world, if its chunk is loaded and generated.
pub open spec fn world_get(m: Map<u32, ServerChunk>, x: int, y: int) -> Option<MaterialInstance> {
    let k = pixel_key(x, y);
    if m.contains_key(k) && m[k].pixels is Some {
        Some(m[k].pixels.unwrap()@[local_index(x, y)])
    } else {
        None
    }
}

/// `new_c` is `old_c` with pixel `i` set to `mat` and the whole chunk marked for simulation.
pub open spec fn pixel_written(old_c: ServerChunk, new_c: ServerChunk, i: int, mat: MaterialInstance) -> bool {
    &&& old_c.wf()
    &&& new_c.wf()
    &&& new_c.chunk_x == old_c.chunk_x
    &&& new_c.chunk_y == old_c.chunk_y
    &&& new_c.state == old_c.state
    &&& new_c.pixel_data == old_c.pixel_data
    &&& new_c.dirty == old_c.dirty
    &&& old_c.pixels is Some
    &&& new_c.pixels is Some
    &&& new_c.pixels.unwrap()@ == old_c.pixels.unwrap()@.update(i, mat)
    &&& new_c.dirty_rect == Some(full_chunk_rect())
}

/// `new_m` is the world `old_m` with pixel `(x, y)` set to `mat`.
pub open spec fn world_written(
    old_m: Map<u32, ServerChunk>,
    new_m: Map<u32, ServerChunk>,
    x: int,
    y: int,
    mat: MaterialInstance,
) -> bool {
    let k = pixel_key(x, y);
    &&& new_m.dom() == old_m.dom()
    &&& old_m.contains_key(k)
    &&& forall|k2: u32| k2 != k && #[trigger] old_m.contains_key(k2) ==> new_m[k2] == old_m[k2]
    &&& pixel_written(old_m[k], new_m[k], local_index(x, y), mat)
}

/// Offsets scanned by `displace`: a square spiral out from `(0, 0)`, given as
/// `(x, y, dx, dy)` before step `i`.
pub open spec fn spiral(i: nat) -> (int, int, int, int)
    decreases i,
{
    if i == 0 {
        (0, 0, 0, -1)
    } else {
        let p = spiral((i - 1) as nat);
        let (x, y, dx, dy) = p;
        let turn = x == y || (x < 0 && x == -y) || (x > 0 && x == 1 - y);
        let ndx = if turn { -dy } else { dx };
        let ndy = if turn { dx } else { dy };
        (x + ndx, y + ndy, ndx, ndy)
    }
}

/// Whether spiral step `i` lands on an air pixel of a loaded chunk within 16
/// pixels of `(x, y)` on both axes.
pub open spec fn displace_hit(m: Map<u32, ServerChunk>, x: int, y: int, i: nat) -> bool {
    let s = spiral(i);
    &&& -16 <= s.0 <= 16
    &&& -16 <= s.1 <= 16
    &&& world_get(m, x + s.0, y + s.1) matches Some(p)
    &&& p.physics == PhysicsType::Air
}

pub proof fn lemma_spiral_bounds(i: nat)
    ensures
        -(i as int) <= spiral(i).0 <= i,
        -(i as int) <= spiral(i).1 <= i,
        (spiral(i).2 == 0 && (spiral(i).3 == 1 || spiral(i).3 == -1)) || (spiral(i).3 == 0 && (
        spiral(i).2 == 1 || spiral(i).2 == -1)),
    decreases i,
{
    if i > 0 {
        lemma_spiral_bounds((i - 1) as nat);
    }
}

/// The zone of `screen` pixels around `center`, grown by `padding` on every side.
pub open spec fn zone(screen: (u16, u16), center: (i32, i32), padding: int) -> Rect<i32> {
    let w = screen.0 + 2 * padding;
    let h = screen.1 + 2 * padding;
    let x1 = center.0 - w / 2;
    let y1 = center.1 - h / 2;
    Rect { x1: x1 as i32, y1: y1 as i32, x2: (x1 + w) as i32, y2: (y1 + h) as i32 }
}

/// Whether `zone(screen, center, padding)` can be computed without overflow.
pub open spec fn zone_ok(screen: (u16, u16), center: (i32, i32), padding: int) -> bool {
    let w = screen.0 + 2 * padding;
    let h = screen.1 + 2 * padding;
    &&& 0 <= padding
    &&& w <= u16::MAX
    &&& h <= u16::MAX
    &&& fits_i32(center.0 - w / 2)
    &&& fits_i32(center.1 - h / 2)
    &&& fits_i32(center.0 - w / 2 + w)
    &&& fits_i32(center.1 - h / 2 + h)
}

/// Padding of the zone whose chunks are simulated.
pub open spec fn active_padding() -> int {
    128
}

/// Padding of the zone whose chunks get loaded.
pub open spec fn load_padding() -> int {
    640
}

/// Padding of the zone outside which chunks get unloaded.
pub open spec fn unload_padding() -> int {
    1280
}

/// Whether the pixel square of the chunk at `(cx, cy)` overlaps zone `z`
/// (interiors overlap, and neither is empty).
pub open spec fn chunk_in_zone(cx: int, cy: int, z: Rect<i32>) -> bool {
    let x1 = cx * (CHUNK_SIZE as int);
    let y1 = cy * (CHUNK_SIZE as int);
    &&& z.x1 < z.x2
    &&& z.y1 < z.y2
    &&& x1 < z.x2
    &&& z.x1 < x1 + CHUNK_SIZE
    &&& y1 < z.y2
    &&& z.y1 < y1 + CHUNK_SIZE
}

/// Whether the chunk at `(cx, cy)` overlaps any of the zones.
pub open spec fn chunk_in_zones(cx: int, cy: int, zones: Seq<Rect<i32>>) -> bool {
    exists|i: int| 0 <= i < zones.len() && chunk_in_zone(cx, cy, #[trigger] zones[i])
}

/// The zones around each loader with the given padding.
pub open spec fn zones_of(screen: (u16, u16), loaders: Seq<(i32, i32)>, padding: int) -> Seq<Rect<i32>> {
    Seq::new(loaders.len(), |i: int| zone(screen, loaders[i], padding))
}

/// Whether every loader's zones can be computed.
pub open spec fn loaders_ok(screen: (u16, u16), loaders: Seq<(i32, i32)>) -> bool {
    forall|i: int| 0 <= i < loaders.len() ==> zone_ok(screen, #[trigger] loaders[i], unload_padding())
}

/// Whether the chunk at `(x, y)` is loaded and generated (cached or active).
pub open spec fn settled(m: Map<u32, ServerChunk>, x: int, y: int) -> bool {
    &&& coord_ok(x)
    &&& coord_ok(y)
    &&& m.contains_key(index_of(x, y))
    &&& (m[index_of(x, y)].state == ChunkState::Cached || m[index_of(x, y)].state == ChunkState::Active)
}

/// Whether the chunk at `(x, y)` and its eight neighbors are all settled.
pub open spec fn neighborhood_settled(m: Map<u32, ServerChunk>, x: int, y: int) -> bool {
    &&& settled(m, x - 1, y - 1)
    &&& settled(m, x, y - 1)
    &&& settled(m, x + 1, y - 1)
    &&& settled(m, x - 1, y)
    &&& settled(m, x, y)
    &&& settled(m, x + 1, y)
    &&& settled(m, x - 1, y + 1)
    &&& settled(m, x, y + 1)
    &&& settled(m, x + 1, y + 1)
}

/// A chunk after the cached/active switch: a cached chunk in some active
/// zone whose neighborhood is settled becomes active and wholly dirty; an
/// active chunk in no active zone becomes cached.
pub open spec fn switched(
    m: Map<u32, ServerChunk>,
    c: ServerChunk,
    unload: Seq<Rect<i32>>,
    active: Seq<Rect<i32>>,
) -> ServerChunk {
    let (x, y) = (c.chunk_x as int, c.chunk_y as int);
    match c.state {
        ChunkState::Cached => if chunk_in_zones(x, y, unload) && chunk_in_zones(x, y, active)
            && neighborhood_settled(m, x, y) {
            ServerChunk { state: ChunkState::Active, dirty_rect: Some(full_chunk_rect()), ..c }
        } else {
            c
        },
        ChunkState::Active => if !chunk_in_zones(x, y, active) {
            ServerChunk { state: ChunkState::Cached, ..c }
        } else {
            c
        },
        _ => c,
    }
}

/// Whether a loaded chunk is cached and outside every unload zone.
pub open spec fn cached_out_of_range(c: ServerChunk, unload: Seq<Rect<i32>>) -> bool {
    c.state == ChunkState::Cached && !chunk_in_zones(c.chunk_x as int, c.chunk_y as int, unload)
}

/// Whether chunk `(cx, cy)` holds a point of the load grid of zone `z`: the
/// points `(z.x1 + 128 i, z.y1 + 128 j)` inside the zone.
pub open spec fn on_zone_grid(z: Rect<i32>, cx: int, cy: int) -> bool {
    exists|i: int, j: int|
        0 <= i && 0 <= j && z.x1 + 128 * i < z.x2 && z.y1 + 128 * j < z.y2 && #[trigger] pixel_to_chunk(
            z.x1 + 128 * i,
        ) == cx && #[trigger] pixel_to_chunk(z.y1 + 128 * j) == cy
}

/// The load queue after queueing the chunk at `p`, as `queue_load_chunk` does:
/// unchanged if the chunk is loaded or queued already, else with `p` at its end.
pub open spec fn queue_step(m: Map<u32, ServerChunk>, q: Seq<(i32, i32)>, p: (i32, i32)) -> Seq<(i32, i32)> {
    if m.contains_key(index_of(p.0 as int, p.1 as int)) || q.contains(p) {
        q
    } else {
        q.push(p)
    }
}

/// The chunk holding grid point `(a, b)` of zone `z` (one point every 128
/// pixels from the top-left corner).
pub open spec fn grid_chunk(z: Rect<i32>, a: int, b: int) -> (i32, i32) {
    (pixel_to_chunk(z.x1 + 128 * a), pixel_to_chunk(z.y1 + 128 * b))
}

/// How many grid lines, one every 128 pixels from `lo`, lie below `hi`.
pub open spec fn grid_count(lo: int, hi: int) -> int {
    if hi <= lo {
        0
    } else {
        (hi - lo + 127) / 128
    }
}

/// The queue after queueing the chunks of the first `b` grid points of
/// column `a` of zone `z`, from the top down.
pub open spec fn queue_column(m: Map<u32, ServerChunk>, q: Seq<(i32, i32)>, z: Rect<i32>, a: int, b: int) -> Seq<
    (i32, i32),
>
    decreases b,
{
    if b <= 0 {
        q
    } else {
        queue_step(m, queue_column(m, q, z, a, b - 1), grid_chunk(z, a, b - 1))
    }
}

/// The queue after queueing the chunks of the first `a` grid columns of
/// zone `z`, from the left.
pub open spec fn queue_columns(m: Map<u32, ServerChunk>, q: Seq<(i32, i32)>, z: Rect<i32>, a: int) -> Seq<(i32, i32)>
    decreases a,
{
    if a <= 0 {
        q
    } else {
        queue_column(m, queue_columns(m, q, z, a - 1), z, a - 1, grid_count(z.y1 as int, z.y2 as int))
    }
}

/// The queue after queueing the chunks of the grids of the first `n` zones, in order.
pub open spec fn queue_zones(m: Map<u32, ServerChunk>, q: Seq<(i32, i32)>, zones: Seq<Rect<i32>>, n: int) -> Seq<
    (i32, i32),
>
    decreases n,
{
    if n <= 0 {
        q
    } else {
        queue_columns(m, queue_zones(m, q, zones, n - 1), zones[n - 1], grid_count(zones[n - 1].x1 as int, zones[n - 1].x2 as int))
    }
}

/// Whether chunk `(cx, cy)` holds a point of the load grid of some zone.
pub open spec fn on_any_grid(zones: Seq<Rect<i32>>, cx: int, cy: int) -> bool {
    exists|l: int| 0 <= l < zones.len() && on_zone_grid(#[trigger] zones[l], cx, cy)
}

/// How many of the last entries of a load queue of length `len` one round
/// of loading takes.
pub open spec fn popped_count(len: int) -> int {
    if len < 64 { len } else { 64 }
}

/// How many entries `t` pops take from a queue of length `len`.
pub open spec fn popped_count_upto(len: int, t: int) -> int {
    if len < t { len } else { t }
}

/// Whether key `k` is the index of a position among the last `t` entries of the queue.
pub open spec fn popped_index_upto(q: Seq<(i32, i32)>, t: int, k: u32) -> bool {
    exists|i: int|
        q.len() - popped_count_upto(q.len() as int, t) <= i < q.len() && index_of(
            #[trigger] q[i].0 as int,
            q[i].1 as int,
        ) == k
}

/// Whether key `k` is the index of a position that one round of loading takes from the queue.
pub open spec fn popped_index(q: Seq<(i32, i32)>, k: u32) -> bool {
    popped_index_upto(q, 64, k)
}

/// The Manhattan distance from loader `l` to the top-left pixel of chunk `(cx, cy)`.
pub open spec fn loader_distance(l: (i32, i32), cx: int, cy: int) -> int {
    let dx = l.0 - cx * (CHUNK_SIZE as int);
    let dy = l.1 - cy * (CHUNK_SIZE as int);
    (if dx < 0 { -dx } else { dx }) + (if dy < 0 { -dy } else { dy })
}

/// The distance from the nearest of the loaders to chunk `(cx, cy)` (0 with no loaders).
pub open spec fn nearest_distance(loaders: Seq<(i32, i32)>, cx: int, cy: int) -> int
    decreases loaders.len(),
{
    if loaders.len() == 0 {
        0
    } else if loaders.len() == 1 {
        loader_distance(loaders[0], cx, cy)
    } else {
        let rest = nearest_distance(loaders.drop_last(), cx, cy);
        let d = loader_distance(loaders.last(), cx, cy);
        if d < rest { d } else { rest }
    }
}

/// Whether a loaded chunk waits for generation and overlaps some unload zone.
pub open spec fn generation_candidate(c: ServerChunk, unload: Seq<Rect<i32>>) -> bool {
    c.state == ChunkState::NotGenerated && chunk_in_zones(c.chunk_x as int, c.chunk_y as int, unload)
}

/// Whether the chunk at `(x, y)` is far enough along for a neighbor to leave
/// generation stage `cur`: loaded, and cached, active, or generating at stage
/// `cur` or later.
pub open spec fn gen_ready(m: Map<u32, ServerChunk>, x: int, y: int, cur: int) -> bool {
    &&& coord_ok(x)
    &&& coord_ok(y)
    &&& m.contains_key(index_of(x, y))
    &&& match m[index_of(x, y)].state {
        ChunkState::Cached | ChunkState::Active => true,
        ChunkState::Generating(st) => st >= cur,
        ChunkState::NotGenerated => false,
    }
}

/// `gen_ready`, with a neighbor allowed to be one stage behind (it may advance
/// during the same pass).
pub open spec fn gen_ready_loose(m: Map<u32, ServerChunk>, x: int, y: int, cur: int) -> bool {
    &&& coord_ok(x)
    &&& coord_ok(y)
    &&& m.contains_key(index_of(x, y))
    &&& match m[index_of(x, y)].state {
        ChunkState::Cached | ChunkState::Active => true,
        ChunkState::Generating(st) => st + 1 >= cur,
        ChunkState::NotGenerated => false,
    }
}

/// Whether the chunk at `(x, y)` and its eight neighbors are all `gen_ready`.
pub open spec fn neighborhood_gen_ready(m: Map<u32, ServerChunk>, x: int, y: int, cur: int) -> bool {
    &&& gen_ready(m, x - 1, y - 1, cur)
    &&& gen_ready(m, x, y - 1, cur)
    &&& gen_ready(m, x + 1, y - 1, cur)
    &&& gen_ready(m, x - 1, y, cur)
    &&& gen_ready(m, x, y, cur)
    &&& gen_ready(m, x + 1, y, cur)
    &&& gen_ready(m, x - 1, y + 1, cur)
    &&& gen_ready(m, x, y + 1, cur)
    &&& gen_ready(m, x + 1, y + 1, cur)
}

/// Whether the chunk at `(x, y)` and its eight neighbors are all `gen_ready_loose`.
pub open spec fn neighborhood_gen_ready_loose(m: Map<u32, ServerChunk>, x: int, y: int, cur: int) -> bool {
    &&& gen_ready_loose(m, x - 1, y - 1, cur)
    &&& gen_ready_loose(m, x, y - 1, cur)
    &&& gen_ready_loose(m, x + 1, y - 1, cur)
    &&& gen_ready_loose(m, x - 1, y, cur)
    &&& gen_ready_loose(m, x, y, cur)
    &&& gen_ready_loose(m, x + 1, y, cur)
    &&& gen_ready_loose(m, x - 1, y + 1, cur)
    &&& gen_ready_loose(m, x, y + 1, cur)
    &&& gen_ready_loose(m, x + 1, y + 1, cur)
}

/// A chunk one generation step on: past the last stage it is cached; before
/// it, it moves to the next stage when its neighborhood is ready in `m`.
pub open spec fn advanced_in(m: Map<u32, ServerChunk>, c: ServerChunk) -> ServerChunk {
    match c.state {
        ChunkState::Generating(cur) => if cur >= spec_max_gen_stage() {
            ServerChunk { state: ChunkState::Cached, ..c }
        } else if neighborhood_gen_ready(m, c.chunk_x as int, c.chunk_y as int, cur as int) {
            ServerChunk { state: ChunkState::Generating((cur + 1) as u8), ..c }
        } else {
            c
        },
        _ => c,
    }
}

/// Whether `c1` is `c0` or `c0` one generation step on.
pub open spec fn step_or_same(c0: ServerChunk, c1: ServerChunk) -> bool {
    ||| c1 == c0
    ||| (c0.state matches ChunkState::Generating(s) && (if s >= spec_max_gen_stage() {
        c1 == ServerChunk { state: ChunkState::Cached, ..c0 }
    } else {
        c1 == ServerChunk { state: ChunkState::Generating((s + 1) as u8), ..c0 }
    }))
}

/// What a pass of generation steps over all chunks, in whatever order, makes
/// of chunk `c0` of the world `m0`: past the last stage it is cached; before
/// it, it advances by one stage if its neighborhood was ready in `m0`, and
/// only if it was ready allowing neighbors one stage behind.
pub open spec fn generation_stepped(m0: Map<u32, ServerChunk>, c0: ServerChunk, c1: ServerChunk) -> bool {
    match c0.state {
        ChunkState::Generating(cur) => if cur >= spec_max_gen_stage() {
            c1 == ServerChunk { state: ChunkState::Cached, ..c0 }
        } else {
            let next = ServerChunk { state: ChunkState::Generating((cur + 1) as u8), ..c0 };
            &&& (c1 == c0 || c1 == next)
            &&& (neighborhood_gen_ready(m0, c0.chunk_x as int, c0.chunk_y as int, cur as int) ==> c1 == next)
            &&& (c1 == next ==> neighborhood_gen_ready_loose(
                m0,
                c0.chunk_x as int,
                c0.chunk_y as int,
                cur as int,
            ))
        },
        _ => c1 == c0,
    }
}

/// Whether a chunk still waiting for or in generation lies outside every unload zone.
pub open spec fn ungenerated_out_of_range(c: ServerChunk, unload: Seq<Rect<i32>>) -> bool {
    &&& (c.state == ChunkState::NotGenerated || (c.state matches ChunkState::Generating(s) && s
        < spec_max_gen_stage()))
    &&& !chunk_in_zones(c.chunk_x as int, c.chunk_y as int, unload)
}

/// The loaded chunks, keyed by the index of their position, and the chunks
/// queued for loading.
pub struct ChunkHandler {
    pub loaded_chunks: HashMap<u32, ServerChunk>,
    pub load_queue: Vec<(i32, i32)>,
    /// The size of the "presentable" area (not necessarily the current window size).
    pub screen_size: (u16, u16),
    pub generator: TestGenerator,
    pub path: Option<PathBuf>,
}

impl ChunkHandler {
    pub open spec fn chunks(&self) -> Map<u32, ServerChunk> {
        self.loaded_chunks@
    }

    /// Every loaded chunk is well formed and keyed by its own position; the
    /// load queue holds valid positions, none of them twice.
    pub open spec fn wf(&self) -> bool {
        &&& forall|k: u32| #[trigger]
            self.loaded_chunks@.contains_key(k) ==> chunk_at_key(k, self.loaded_chunks@[k])
        &&& self.load_queue@.no_duplicates()
        &&& forall|i: int|
            0 <= i < self.load_queue@.len() ==> coord_ok(#[trigger] self.load_queue@[i].0 as int)
                && coord_ok(self.load_queue@[i].1 as int)
    }

    /// Whether the chunk at a position is loaded or waiting in the load queue.
    pub open spec fn loaded_or_queued(&self, cx: i32, cy: i32) -> bool {
        self.loaded(cx as int, cy as int) || self.load_queue@.contains((cx, cy))
    }

    /// Whether the chunk at a position is loaded.
    pub open spec fn loaded(&self, x: int, y: int) -> bool {
        self.loaded_chunks@.contains_key(index_of(x, y))
    }

    pub fn new(generator: TestGenerator, path: Option<PathBuf>) -> (r: Self)
        ensures
            r.wf(),
            r.loaded_chunks@ == Map::<u32, ServerChunk>::empty(),
            r.load_queue@ == Seq::<(i32, i32)>::empty(),
            r.screen_size == (960u16, 540u16),
            r.path == path,
    {
        ChunkHandler {
            loaded_chunks: HashMap::new(),
            load_queue: Vec::new(),
            screen_size: (1920 / 2, 1080 / 2),
            generator,
            path,
        }
    }

    /// The index under which the chunk at `(chunk_x, chunk_y)` is stored:
    /// Cantor's pairing of the folded coordinates, cut to 32 bits.
    pub fn chunk_index(&self, chunk_x: i32, chunk_y: i32) -> (r: u32)
        requires
            coord_ok(chunk_x as int),
            coord_ok(chunk_y as int),
        ensures
            r == index_of(chunk_x as int, chunk_y as int),
    {
        assert(chunk_x < 0 ==> 0 < -2 * chunk_x - 1 <= 0x7fff_fffd);
        assert(chunk_y < 0 ==> 0 < -2 * chunk_y - 1 <= 0x7fff_fffd);
        let xx: u32 = if chunk_x >= 0 {
            (2 * chunk_x) as u32
        } else {
            (-2 * chunk_x - 1) as u32
        };
        let yy: u32 = if chunk_y >= 0 {
            (2 * chunk_y) as u32
        } else {
            (-2 * chunk_y - 1) as u32
        };
        let s: u64 = (xx + yy) as u64;
        assert(s * (s + 1) <= 0xffff_ffff * 0x1_0000_0000) by (nonlinear_arith)
            requires
                s <= 0xffff_ffff,
        ;
        let v: u64 = (s * (s + 1)) / 2 + yy as u64;
        proof {
            assert(xx as int == int_to_nat(chunk_x as int));
            assert(yy as int == int_to_nat(chunk_y as int));
            assert(v == pair_index(chunk_x as int, chunk_y as int));
            assert(v as u32 == v % 0x1_0000_0000) by (bit_vector);
        }
        v as u32
    }

    /// The chunk position stored under an index.
    pub fn chunk_index_inv(&self, index: u32) -> (r: (i32, i32))
        ensures
            (r.0 as int, r.1 as int) == unpair(index as nat),
            index_exact(r.0 as int, r.1 as int),
    {
        let n: u64 = index as u64;
        let mut lo: u64 = 0;
        let mut hi: u64 = 92682;
        proof {
            assert(92682nat * 92683nat == 8590045806nat);
            assert(tri(92682) == 4295022903);
            assert(tri(0) == 0);
        }
        while hi - lo > 1
            invariant
                lo < hi <= 92682,
                n == index,
                tri(lo as nat) <= n < tri(hi as nat),
            decreases hi - lo,
        {
            let mid: u64 = lo + (hi - lo) / 2;
            assert(mid * (mid + 1) <= 92682 * 92683) by (nonlinear_arith)
                requires
                    mid <= 92682,
            ;
            if mid * (mid + 1) / 2 <= n {
                lo = mid;
            } else {
                hi = mid;
            }
        }
        let w = lo;
        proof {
            lemma_tri_step(w as nat);
            lemma_tri_root_is(w as nat, n as nat);
            assert(w * (w + 1) <= 92682 * 92683) by (nonlinear_arith)
                requires
                    w <= 92682,
            ;
        }
        assert(w * w + w == w * (w + 1) && w * w <= w * (w + 1)) by (nonlinear_arith);
        let t: u64 = (w * w + w) / 2;
        let yy: u64 = n - t;
        let xx: u64 = w - yy;
        let x: i32 = if xx % 2 == 0 {
            (xx / 2) as i32
        } else {
            -((xx / 2 + 1) as i32)
        };
        let y: i32 = if yy % 2 == 0 {
            (yy / 2) as i32
        } else {
            -((yy / 2 + 1) as i32)
        };
        proof {
            lemma_pair_index_unpair(index as nat);
        }
        (x, y)
    }

    /// Whether the chunk at `(chunk_x, chunk_y)` is loaded.
    pub fn is_chunk_loaded(&self, chunk_x: i32, chunk_y: i32) -> (r: bool)
        requires
            coord_ok(chunk_x as int),
            coord_ok(chunk_y as int),
        ensures
            r == self.loaded(chunk_x as int, chunk_y as int),
    {
        self.loaded_chunks.contains_key(&self.chunk_index(chunk_x, chunk_y))
    }

    /// The chunk that holds the pixel at `(x, y)`.
    pub fn pixel_to_chunk_pos(&self, x: i64, y: i64) -> (r: (i32, i32))
        ensures
            r == (pixel_to_chunk(x as int), pixel_to_chunk(y as int)),
    {
        (pixel_to_chunk_coord(x), pixel_to_chunk_coord(y))
    }

    /// Whether the chunk holding the pixel at `(x, y)` is loaded.
    pub fn is_pixel_loaded(&self, x: i64, y: i64) -> (r: bool)
        requires
            coord_ok(pixel_to_chunk(x as int) as int),
            coord_ok(pixel_to_chunk(y as int) as int),
        ensures
            r == self.loaded(pixel_to_chunk(x as int) as int, pixel_to_chunk(y as int) as int),
    {
        let chunk_pos = self.pixel_to_chunk_pos(x, y);
        self.is_chunk_loaded(chunk_pos.0, chunk_pos.1)
    }

    /// Queues the chunk at a position for loading, unless it is loaded or
    /// queued already; says whether it queued it.
    pub fn queue_load_chunk(&mut self, chunk_x: i32, chunk_y: i32) -> (r: bool)
        requires
            old(self).wf(),
            coord_ok(chunk_x as int),
            coord_ok(chunk_y as int),
        ensures
            final(self).wf(),
            r == !(old(self).loaded(chunk_x as int, chunk_y as int) || old(self).load_queue@.contains(
                (chunk_x, chunk_y),
            )),
            r ==> final(self).load_queue@ == old(self).load_queue@.push((chunk_x, chunk_y)),
            !r ==> final(self).load_queue@ == old(self).load_queue@,
            final(self).loaded_chunks@ == old(self).loaded_chunks@,
            final(self).screen_size == old(self).screen_size,
            final(self).path == old(self).path,
            final(self).generator == old(self).generator,
    {
        if self.is_chunk_loaded(chunk_x, chunk_y) {
            return false;
        }
        if queue_contains(&self.load_queue, chunk_x, chunk_y) {
            return false;
        }
        self.load_queue.push((chunk_x, chunk_y));
        assert forall|j: int| 0 <= j < self.load_queue@.len() implies coord_ok(
            #[trigger] self.load_queue@[j].0 as int,
        ) && coord_ok(self.load_queue@[j].1 as int) by {
            if j < old(self).load_queue@.len() {
                assert(self.load_queue@[j] == old(self).load_queue@[j]);
            }
        }
        true
    }

    /// Loads an empty chunk at a position, in place of whatever its index held.
    fn load_chunk(&mut self, chunk_x: i32, chunk_y: i32)
        requires
            old(self).wf(),
            coord_ok(chunk_x as int),
            coord_ok(chunk_y as int),
        ensures
            final(self).wf(),
            final(self).loaded_chunks@.dom() == old(self).loaded_chunks@.dom().insert(
                index_of(chunk_x as int, chunk_y as int),
            ),
            ({
                let c = final(self).loaded_chunks@[index_of(chunk_x as int, chunk_y as int)];
                &&& c.chunk_x == chunk_x
                &&& c.chunk_y == chunk_y
                &&& c.state == ChunkState::NotGenerated
                &&& c.pixels is None
                &&& c.dirty_rect is None
            }),
            forall|k: u32|
                k != index_of(chunk_x as int, chunk_y as int) && #[trigger] old(self).loaded_chunks@.contains_key(k)
                    ==> final(self).loaded_chunks@[k] == old(self).loaded_chunks@[k],
            final(self).load_queue@ == old(self).load_queue@,
            final(self).screen_size == old(self).screen_size,
            final(self).path == old(self).path,
            final(self).generator == old(self).generator,
    {
        let chunk = ServerChunk::new_empty(chunk_x, chunk_y);
        let k = self.chunk_index(chunk_x, chunk_y);
        self.loaded_chunks.insert(k, chunk);
    }

    /// The chunk at a position, if it is loaded.
    pub fn get_chunk(&self, chunk_x: i32, chunk_y: i32) -> (r: Option<&ServerChunk>)
        requires
            coord_ok(chunk_x as int),
            coord_ok(chunk_y as int),
        ensures
            match r {
                Some(c) => self.loaded(chunk_x as int, chunk_y as int) && *c
                    == self.loaded_chunks@[index_of(chunk_x as int, chunk_y as int)],
                None => !self.loaded(chunk_x as int, chunk_y as int),
            },
    {
        self.loaded_chunks.get(&self.chunk_index(chunk_x, chunk_y))
    }

    /// Reads the pixel at world coordinates `(x, y)`; fails when its chunk is
    /// not loaded or not generated yet.
    pub fn get(&self, x: i64, y: i64) -> (r: Result<&MaterialInstance, String>)
        requires
            self.wf(),
            pixel_ok(x as int, y as int),
        ensures
            match r {
                Ok(m) => world_get(self.chunks(), x as int, y as int) == Some(*m),
                Err(e) => world_get(self.chunks(), x as int, y as int) is None && (if self.chunks().contains_key(
                    pixel_key(x as int, y as int),
                ) {
                    e@ == "Chunk is not ready yet."@
                } else {
                    e@ == "Position is not loaded"@
                }),
            },
    {
        let (chunk_x, chunk_y) = self.pixel_to_chunk_pos(x, y);
        let k = self.chunk_index(chunk_x, chunk_y);
        match self.loaded_chunks.get(&k) {
            None => Err("Position is not loaded".to_string()),
            Some(ch) => {
                let lx = (x - chunk_x as i64 * 128) as u16;
                let ly = (y - chunk_y as i64 * 128) as u16;
                proof {
                    assert(lx == x as int % 128);
                    assert(ly == y as int % 128);
                }
                ch.get(lx, ly)
            },
        }
    }

    /// Writes the pixel at world coordinates `(x, y)`; fails when its chunk is
    /// not loaded or not generated yet.
    pub fn set(&mut self, x: i64, y: i64, mat: MaterialInstance) -> (r: Result<(), String>)
        requires
            old(self).wf(),
            pixel_ok(x as int, y as int),
        ensures
            final(self).wf(),
            final(self).load_queue@ == old(self).load_queue@,
            final(self).screen_size == old(self).screen_size,
            final(self).path == old(self).path,
            final(self).generator == old(self).generator,
            match r {
                Ok(_) => world_get(old(self).chunks(), x as int, y as int) is Some && world_written(
                    old(self).chunks(),
                    final(self).chunks(),
                    x as int,
                    y as int,
                    mat,
                ),
                Err(e) => world_get(old(self).chunks(), x as int, y as int) is None && final(self).chunks()
                    == old(self).chunks() && (if old(self).chunks().contains_key(
                    pixel_key(x as int, y as int),
                ) {
                    e@ == "Chunk is not ready yet."@
                } else {
                    e@ == "Position is not loaded"@
                }),
            },
    {
        let (chunk_x, chunk_y) = self.pixel_to_chunk_pos(x, y);
        let k = self.chunk_index(chunk_x, chunk_y);
        match self.loaded_chunks.remove(&k) {
            None => Err("Position is not loaded".to_string()),
            Some(mut ch) => {
                let lx = (x - chunk_x as i64 * 128) as u16;
                let ly = (y - chunk_y as i64 * 128) as u16;
                proof {
                    assert(lx == x as int % 128);
                    assert(ly == y as int % 128);
                    assert(chunk_at_key(k, ch));
                }
                let res = ch.set(lx, ly, mat);
                self.loaded_chunks.insert(k, ch);
                proof {
                    assert forall|k2: u32| #[trigger] self.loaded_chunks@.contains_key(k2) implies chunk_at_key(
                        k2,
                        self.loaded_chunks@[k2],
                    ) by {
                        if k2 != k {
                            assert(old(self).loaded_chunks@.contains_key(k2));
                        }
                    }
                    assert(self.loaded_chunks@ == old(self).loaded_chunks@.remove(k).insert(k, ch));
                    if res is Err {
                        assert(self.loaded_chunks@ =~= old(self).loaded_chunks@);
                    }
                }
                res
            },
        }
    }

    /// Puts a material on the nearest air pixel around `(x, y)`, scanning a
    /// square spiral out to 16 pixels on each axis; says whether it found one.
    pub fn displace(&mut self, x: i64, y: i64, material: MaterialInstance) -> (r: bool)
        requires
            old(self).wf(),
            pixel_ok(x - 16, y - 16),
            pixel_ok(x + 16, y + 16),
        ensures
            final(self).wf(),
            final(self).load_queue@ == old(self).load_queue@,
            final(self).screen_size == old(self).screen_size,
            final(self).path == old(self).path,
            final(self).generator == old(self).generator,
            r == exists|i: nat| i < 1024 && #[trigger] displace_hit(old(self).chunks(), x as int, y as int, i),
            r ==> exists|i: nat|
                {
                    &&& i < 1024
                    &&& #[trigger] displace_hit(old(self).chunks(), x as int, y as int, i)
                    &&& forall|j: nat| j < i ==> !displace_hit(old(self).chunks(), x as int, y as int, j)
                    &&& world_written(
                        old(self).chunks(),
                        final(self).chunks(),
                        x + spiral(i).0,
                        y + spiral(i).1,
                        material,
                    )
                },
            !r ==> final(self).chunks() == old(self).chunks(),
    {
        let scan_w: i32 = 32;
        let scan_h: i32 = 32;
        let mut scan_x: i32 = 0;
        let mut scan_y: i32 = 0;
        let mut scan_dx: i32 = 0;
        let mut scan_dy: i32 = -1;
        let scan_max_i: i32 = 1024;
        let mut i: i32 = 0;
        while i < scan_max_i
            invariant
                0 <= i <= 1024,
                scan_w == 32,
                scan_h == 32,
                scan_max_i == 1024,
                (scan_x as int, scan_y as int, scan_dx as int, scan_dy as int) == spiral(i as nat),
                self.wf(),
                *self == *old(self),
                pixel_ok(x - 16, y - 16),
                pixel_ok(x + 16, y + 16),
                forall|j: nat| j < i ==> !displace_hit(old(self).chunks(), x as int, y as int, j),
            decreases 1024 - i,
        {
            proof {
                lemma_spiral_bounds(i as nat);
            }
            if (scan_x >= -scan_w / 2) && (scan_x <= scan_w / 2) && (scan_y >= -scan_h / 2) && (scan_y
                <= scan_h / 2) {
                let px = x + scan_x as i64;
                let py = y + scan_y as i64;
                proof {
                    lemma_pixel_ok_between(x as int, y as int, px as int, py as int);
                }
                let ok = match self.get(px, py) {
                    Ok(scan_mat) => scan_mat.physics == PhysicsType::Air,
                    Err(_) => false,
                };
                if ok {
                    let res = self.set(px, py, material);
                    assert(displace_hit(old(self).chunks(), x as int, y as int, i as nat));
                    assert(res is Ok);
                    return true;
                }
            }
            if (scan_x == scan_y) || ((scan_x < 0) && (scan_x == -scan_y)) || ((scan_x > 0) && (scan_x
                == 1 - scan_y)) {
                let temp = scan_dx;
                scan_dx = -scan_dy;
                scan_dy = temp;
            }
            scan_x += scan_dx;
            scan_y += scan_dy;
            i = i + 1;
        }
        false
    }

    /// The zone of the screen size around `center`, grown by `padding` on every side.
    pub fn get_zone(&self, center: (i32, i32), padding: u16) -> (r: Rect<i32>)
        requires
            zone_ok(self.screen_size, center, padding as int),
        ensures
            r == zone(self.screen_size, center, padding as int),
    {
        let width: u16 = self.screen_size.0 + padding * 2;
        let height: u16 = self.screen_size.1 + padding * 2;
        let x1: i32 = center.0 - (width / 2) as i32;
        let y1: i32 = center.1 - (height / 2) as i32;
        Rect::new_wh(x1, y1, width as i32, height as i32)
    }

    /// The zone the screen shows around `center`.
    pub fn get_screen_zone(&self, center: (i32, i32)) -> (r: Rect<i32>)
        requires
            zone_ok(self.screen_size, center, 0),
        ensures
            r == zone(self.screen_size, center, 0),
    {
        self.get_zone(center, 0)
    }

    /// The zone whose chunks are simulated around `center`.
    pub fn get_active_zone(&self, center: (i32, i32)) -> (r: Rect<i32>)
        requires
            zone_ok(self.screen_size, center, active_padding()),
        ensures
            r == zone(self.screen_size, center, active_padding()),
    {
        self.get_zone(center, CHUNK_SIZE)
    }

    /// The zone whose chunks get loaded around `center`.
    pub fn get_load_zone(&self, center: (i32, i32)) -> (r: Rect<i32>)
        requires
            zone_ok(self.screen_size, center, load_padding()),
        ensures
            r == zone(self.screen_size, center, load_padding()),
    {
        self.get_zone(center, CHUNK_SIZE * 5)
    }

    /// The zone outside which chunks get unloaded, around `center`.
    pub fn get_unload_zone(&self, center: (i32, i32)) -> (r: Rect<i32>)
        requires
            zone_ok(self.screen_size, center, unload_padding()),
        ensures
            r == zone(self.screen_size, center, unload_padding()),
    {
        self.get_zone(center, CHUNK_SIZE * 10)
    }

    /// The zones with the given padding around each loader.
    fn zones_for(&self, loaders: &[(i32, i32)], padding: u16) -> (r: Vec<Rect<i32>>)
        requires
            loaders_ok(self.screen_size, loaders@),
            padding == 0 || padding == 128 || padding == 640 || padding == 1280,
        ensures
            r@ == zones_of(self.screen_size, loaders@, padding as int),
    {
        let mut r: Vec<Rect<i32>> = Vec::new();
        let mut i: usize = 0;
        while i < loaders.len()
            invariant
                0 <= i <= loaders@.len(),
                loaders_ok(self.screen_size, loaders@),
                padding == 0 || padding == 128 || padding == 640 || padding == 1280,
                r@ == zones_of(self.screen_size, loaders@, padding as int).take(i as int),
            decreases loaders@.len() - i,
        {
            proof {
                lemma_zones_nested(self.screen_size, loaders@[i as int]);
            }
            let z = self.get_zone(loaders[i], padding);
            r.push(z);
            i = i + 1;
        }
        r
    }

    /// Whether the chunk at `(chunk_x, chunk_y)` and its eight neighbors are all
    /// loaded and generated.
    fn neighborhood_is_settled(&self, chunk_x: i32, chunk_y: i32) -> (r: bool)
        ensures
            r == neighborhood_settled(self.loaded_chunks@, chunk_x as int, chunk_y as int),
    {
        let mut dy: i32 = -1;
        while dy <= 1
            invariant
                -1 <= dy <= 2,
                forall|ey: int, ex: int|
                    -1 <= ey < dy && -1 <= ex <= 1 ==> #[trigger] settled(
                        self.loaded_chunks@,
                        chunk_x + ex,
                        chunk_y + ey,
                    ),
            decreases 2 - dy,
        {
            let mut dx: i32 = -1;
            while dx <= 1
                invariant
                    -1 <= dy <= 1,
                    -1 <= dx <= 2,
                    forall|ey: int, ex: int|
                        -1 <= ey < dy && -1 <= ex <= 1 ==> #[trigger] settled(
                            self.loaded_chunks@,
                            chunk_x + ex,
                            chunk_y + ey,
                        ),
                    forall|ex: int|
                        -1 <= ex < dx ==> #[trigger] settled(self.loaded_chunks@, chunk_x + ex, chunk_y + dy),
                decreases 2 - dx,
            {
                let x = chunk_x as i64 + dx as i64;
                let y = chunk_y as i64 + dy as i64;
                if !(-0x3fff_ffff <= x && x <= 0x3fff_ffff && -0x3fff_ffff <= y && y <= 0x3fff_ffff) {
                    assert(!settled(self.loaded_chunks@, chunk_x + dx, chunk_y + dy));
                    return false;
                }
                let ok = match self.get_chunk(x as i32, y as i32) {
                    Some(c) => c.state == ChunkState::Cached || c.state == ChunkState::Active,
                    None => false,
                };
                if !ok {
                    assert(!settled(self.loaded_chunks@, chunk_x + dx, chunk_y + dy));
                    return false;
                }
                dx = dx + 1;
            }
            dy = dy + 1;
        }
        assert(settled(self.loaded_chunks@, chunk_x + -1, chunk_y + -1));
        assert(settled(self.loaded_chunks@, chunk_x + 0, chunk_y + -1));
        assert(settled(self.loaded_chunks@, chunk_x + 1, chunk_y + -1));
        assert(settled(self.loaded_chunks@, chunk_x + -1, chunk_y + 0));
        assert(settled(self.loaded_chunks@, chunk_x + 0, chunk_y + 0));
        assert(settled(self.loaded_chunks@, chunk_x + 1, chunk_y + 0));
        assert(settled(self.loaded_chunks@, chunk_x + -1, chunk_y + 1));
        assert(settled(self.loaded_chunks@, chunk_x + 0, chunk_y + 1));
        assert(settled(self.loaded_chunks@, chunk_x + 1, chunk_y + 1));
        true
    }

    /// Switches chunks between cached and active by the zones around the
    /// loaders (see `switched`), and lists the cached chunks outside every
    /// unload zone, which are to be saved and unloaded.
    pub fn update_chunk_states(&mut self, loaders: &[(i32, i32)]) -> (r: Vec<u32>)
        requires
            old(self).wf(),
            loaders_ok(old(self).screen_size, loaders@),
        ensures
            final(self).wf(),
            final(self).load_queue@ == old(self).load_queue@,
            final(self).screen_size == old(self).screen_size,
            final(self).path == old(self).path,
            final(self).generator == old(self).generator,
            final(self).chunks().dom() == old(self).chunks().dom(),
            forall|k: u32| #[trigger]
                old(self).chunks().contains_key(k) ==> final(self).chunks()[k] == switched(
                    old(self).chunks(),
                    old(self).chunks()[k],
                    zones_of(old(self).screen_size, loaders@, unload_padding()),
                    zones_of(old(self).screen_size, loaders@, active_padding()),
                ),
            r@.no_duplicates(),
            forall|k: u32|
                #[trigger] r@.contains(k) <==> old(self).chunks().contains_key(k) && cached_out_of_range(
                    old(self).chunks()[k],
                    zones_of(old(self).screen_size, loaders@, unload_padding()),
                ),
    {
        let unload = self.zones_for(loaders, 1280);
        let active = self.zones_for(loaders, 128);
        let keys = self.loaded_keys();
        let ghost m0 = self.loaded_chunks@;
        let mut out: Vec<u32> = Vec::new();
        let mut i: usize = 0;
        while i < keys.len()
            invariant
                0 <= i <= keys@.len(),
                keys@.to_set() == m0.dom(),
                keys@.no_duplicates(),
                self.wf(),
                self.load_queue@ == old(self).load_queue@,
                self.screen_size == old(self).screen_size,
                self.path == old(self).path,
                self.generator == old(self).generator,
                m0 == old(self).loaded_chunks@,
                unload@ == zones_of(old(self).screen_size, loaders@, unload_padding()),
                active@ == zones_of(old(self).screen_size, loaders@, active_padding()),
                self.loaded_chunks@.dom() == m0.dom(),
                forall|j: int|
                    0 <= j < i ==> self.loaded_chunks@[#[trigger] keys@[j]] == switched(
                        m0,
                        m0[keys@[j]],
                        unload@,
                        active@,
                    ),
                forall|j: int| i <= j < keys@.len() ==> self.loaded_chunks@[#[trigger] keys@[j]] == m0[keys@[j]],
                out@.no_duplicates(),
                forall|x: u32|
                    #[trigger] out@.contains(x) <==> exists|j: int|
                        0 <= j < i && keys@[j] == x && cached_out_of_range(m0[x], unload@),
            decreases keys@.len() - i,
        {
            let k = keys[i];
            proof {
                assert(keys@.to_set().contains(k));
                lemma_switch_keeps_settled(m0, self.loaded_chunks@, keys@, i as int, unload@, active@);
            }
            let ghost before = self.loaded_chunks@;
            let ghost old_out = out@;
            assert(self.loaded_chunks@[keys@[i as int]] == m0[keys@[i as int]]);
            let pushed = self.switch_chunk(k, &unload, &active);
            proof {
                if old_out.contains(k) {
                    let j = choose|j: int| 0 <= j < i && keys@[j] == k && cached_out_of_range(m0[k], unload@);
                    assert(keys@[j] != keys@[i as int]);
                }
            }
            if pushed {
                proof {
                    assert forall|j: int| i < j < keys@.len() implies keys@[j] != k by {
                        assert(keys@[j] != keys@[i as int]);
                    }
                }
                out.push(k);
            }
            proof {
                assert forall|j: int| 0 <= j < keys@.len() && j != i implies self.loaded_chunks@[
                    #[trigger] keys@[j]] == before[keys@[j]] by {
                    assert(keys@[j] != keys@[i as int]);
                }
                assert(pushed == cached_out_of_range(m0[k], unload@));
                assert(out@ == if pushed { old_out.push(k) } else { old_out });
                assert forall|x: u32| #[trigger] out@.contains(x) <==> exists|j: int|
                    0 <= j < i + 1 && keys@[j] == x && cached_out_of_range(m0[x], unload@) by {
                    if pushed {
                        if old_out.contains(x) {
                            let idx = choose|idx: int| 0 <= idx < old_out.len() && old_out[idx] == x;
                            assert(out@[idx] == x);
                        }
                        if x == k {
                            assert(out@[old_out.len() as int] == x);
                        }
                        if out@.contains(x) {
                            let idx = choose|idx: int| 0 <= idx < out@.len() && out@[idx] == x;
                            if idx < old_out.len() {
                                assert(old_out[idx] == x);
                            }
                        }
                    }
                    if old_out.contains(x) {
                        let j = choose|j: int| 0 <= j < i && keys@[j] == x && cached_out_of_range(m0[x], unload@);
                        assert(0 <= j < i + 1 && keys@[j] == x);
                    }
                    if x == k && pushed {
                        assert(keys@[i as int] == x);
                    }
                    if exists|j: int| 0 <= j < i + 1 && keys@[j] == x && cached_out_of_range(m0[x], unload@) {
                        let j = choose|j: int| 0 <= j < i + 1 && keys@[j] == x && cached_out_of_range(m0[x], unload@);
                        if j < i {
                            assert(old_out.contains(x));
                        } else {
                            assert(x == k);
                        }
                    }
                }
            }
            i = i + 1;
        }
        proof {
            assert forall|k: u32| #[trigger] m0.contains_key(k) implies self.loaded_chunks@[k] == switched(
                m0,
                m0[k],
                unload@,
                active@,
            ) by {
                assert(keys@.to_set().contains(k));
                let j = choose|j: int| 0 <= j < keys@.len() && keys@[j] == k;
            }
        }
        out
    }

    /// Loads up to 64 chunks from the end of the load queue, each as an empty
    /// chunk that has not been generated.
    pub fn load_queued_chunks(&mut self)
        requires
            old(self).wf(),
        ensures
            final(self).wf(),
            final(self).screen_size == old(self).screen_size,
            final(self).path == old(self).path,
            final(self).generator == old(self).generator,
            final(self).load_queue@ == old(self).load_queue@.take(
                old(self).load_queue@.len() - popped_count(old(self).load_queue@.len() as int),
            ),
            forall|k: u32|
                #[trigger] final(self).loaded_chunks@.contains_key(k) <==> old(self).loaded_chunks@.contains_key(k)
                    || popped_index(old(self).load_queue@, k),
            forall|k: u32|
                old(self).loaded_chunks@.contains_key(k) && !popped_index(old(self).load_queue@, k)
                    ==> #[trigger] final(self).loaded_chunks@[k] == old(self).loaded_chunks@[k],
            forall|k: u32|
                #[trigger] popped_index(old(self).load_queue@, k) ==> {
                    let c = final(self).loaded_chunks@[k];
                    &&& c.state == ChunkState::NotGenerated
                    &&& c.pixels is None
                    &&& c.dirty_rect is None
                },
            forall|i: int|
                old(self).load_queue@.len() - popped_count(old(self).load_queue@.len() as int) <= i
                    < old(self).load_queue@.len() ==> final(self).loaded(
                    #[trigger] old(self).load_queue@[i].0 as int,
                    old(self).load_queue@[i].1 as int,
                ),
    {
        let ghost q0 = self.load_queue@;
        let ghost n0 = q0.len() as int;
        let mut t: usize = 0;
        while t < 64
            invariant
                0 <= t <= 64,
                self.wf(),
                self.screen_size == old(self).screen_size,
                self.path == old(self).path,
                self.generator == old(self).generator,
                q0 == old(self).load_queue@,
                n0 == q0.len(),
                self.load_queue@ == q0.take(n0 - popped_count_upto(n0, t as int)),
                forall|k: u32|
                    #[trigger] self.loaded_chunks@.contains_key(k) <==> old(self).loaded_chunks@.contains_key(k)
                        || popped_index_upto(q0, t as int, k),
                forall|k: u32|
                    old(self).loaded_chunks@.contains_key(k) && !popped_index_upto(q0, t as int, k)
                        ==> #[trigger] self.loaded_chunks@[k] == old(self).loaded_chunks@[k],
                forall|k: u32|
                    #[trigger] popped_index_upto(q0, t as int, k) ==> {
                        let c = self.loaded_chunks@[k];
                        &&& c.state == ChunkState::NotGenerated
                        &&& c.pixels is None
                        &&& c.dirty_rect is None
                    },
                forall|i: int|
                    n0 - popped_count_upto(n0, t as int) <= i < n0 ==> self.loaded(
                        #[trigger] q0[i].0 as int,
                        q0[i].1 as int,
                    ),
            decreases 64 - t,
        {
            let ghost before = self.loaded_chunks@;
            match self.load_queue.pop() {
                Some(p) => {
                    proof {
                        let len = self.load_queue@.len() as int;
                        assert(len == n0 - popped_count_upto(n0, t as int) - 1);
                        assert(p == q0[len]);
                        assert(q0.take(len + 1)[len] == p);
                        assert(self.load_queue@ =~= q0.take(len));
                    }
                    self.load_chunk(p.0, p.1);
                    proof {
                        let len = n0 - popped_count_upto(n0, t as int) - 1;
                        assert forall|k: u32| #[trigger] popped_index_upto(q0, t + 1, k) <==> popped_index_upto(q0, t as int, k)
                            || index_of(p.0 as int, p.1 as int) == k by {
                            if popped_index_upto(q0, t + 1, k) {
                                let i = choose|i: int| q0.len() - popped_count_upto(q0.len() as int, t + 1) <= i < q0.len()
                                    && index_of(#[trigger] q0[i].0 as int, q0[i].1 as int) == k;
                                if i != len {
                                    assert(q0.len() - popped_count_upto(q0.len() as int, t as int) <= i);
                                }
                            }
                            if index_of(p.0 as int, p.1 as int) == k {
                                assert(index_of(q0[len].0 as int, q0[len].1 as int) == k);
                            }
                            if popped_index_upto(q0, t as int, k) {
                                let i = choose|i: int| q0.len() - popped_count_upto(q0.len() as int, t as int) <= i < q0.len()
                                    && index_of(#[trigger] q0[i].0 as int, q0[i].1 as int) == k;
                                assert(q0.len() - popped_count_upto(q0.len() as int, t + 1) <= i);
                            }
                        }
                        assert forall|k: u32|
                            old(self).loaded_chunks@.contains_key(k) && !popped_index_upto(q0, t + 1, k)
                                implies #[trigger] self.loaded_chunks@[k] == old(self).loaded_chunks@[k] by {
                            assert(before.contains_key(k));
                            assert(k != index_of(p.0 as int, p.1 as int));
                        }
                    }
                },
                None => {
                    proof {
                        assert forall|k: u32| #[trigger] popped_index_upto(q0, t + 1, k) == popped_index_upto(q0, t as int, k) by {
                            assert(popped_count_upto(n0, t + 1) == popped_count_upto(n0, t as int));
                        }
                    }
                },
            }
            t = t + 1;
        }
    }

    /// Queues for loading every chunk that holds a point of the load grid of
    /// a loader's load zone, unless it is loaded or queued already: loader by
    /// loader, grid column by column from the left, each from the top down
    /// (see `queue_zones`).
    pub fn queue_load_zones(&mut self, loaders: &[(i32, i32)])
        requires
            old(self).wf(),
            loaders_ok(old(self).screen_size, loaders@),
        ensures
            final(self).wf(),
            final(self).loaded_chunks@ == old(self).loaded_chunks@,
            final(self).screen_size == old(self).screen_size,
            final(self).path == old(self).path,
            final(self).generator == old(self).generator,
            final(self).load_queue@.take(old(self).load_queue@.len() as int) == old(self).load_queue@,
            forall|i: int|
                old(self).load_queue@.len() <= i < final(self).load_queue@.len() ==> {
                    let p = #[trigger] final(self).load_queue@[i];
                    &&& on_any_grid(zones_of(old(self).screen_size, loaders@, load_padding()), p.0 as int, p.1 as int)
                    &&& !old(self).loaded(p.0 as int, p.1 as int)
                },
            forall|cx: i32, cy: i32|
                #[trigger] on_any_grid(zones_of(old(self).screen_size, loaders@, load_padding()), cx as int, cy as int)
                    ==> final(self).loaded_or_queued(cx, cy),
            final(self).load_queue@ == queue_zones(
                old(self).loaded_chunks@,
                old(self).load_queue@,
                zones_of(old(self).screen_size, loaders@, load_padding()),
                loaders@.len() as int,
            ),
    {
        let zones = self.zones_for(loaders, 640);
        let ghost q0 = self.load_queue@;
        let mut l: usize = 0;
        while l < zones.len()
            invariant
                0 <= l <= zones@.len(),
                zones@ == zones_of(old(self).screen_size, loaders@, load_padding()),
                self.wf(),
                self.loaded_chunks@ == old(self).loaded_chunks@,
                self.screen_size == old(self).screen_size,
                self.path == old(self).path,
                self.generator == old(self).generator,
                q0 == old(self).load_queue@,
                self.load_queue@.take(q0.len() as int) == q0,
                q0.len() <= self.load_queue@.len(),
                forall|i: int|
                    q0.len() <= i < self.load_queue@.len() ==> {
                        let p = #[trigger] self.load_queue@[i];
                        &&& on_any_grid(zones@, p.0 as int, p.1 as int)
                        &&& !old(self).loaded(p.0 as int, p.1 as int)
                    },
                forall|cx: i32, cy: i32, m: int|
                    0 <= m < l && #[trigger] on_zone_grid(zones@[m], cx as int, cy as int) ==> self.loaded_or_queued(cx, cy),
                self.load_queue@ == queue_zones(old(self).loaded_chunks@, q0, zones@, l as int),
            decreases zones@.len() - l,
        {
            let z = zones[l];
            self.queue_zone_grid(z, Ghost(zones@), Ghost(l as int), Ghost(q0));
            l = l + 1;
        }
        proof {
            assert forall|cx: i32, cy: i32| #[trigger] on_any_grid(zones@, cx as int, cy as int) implies self.loaded_or_queued(
                cx,
                cy,
            ) by {
                let m = choose|m: int| 0 <= m < zones@.len() && on_zone_grid(#[trigger] zones@[m], cx as int, cy as int);
            }
        }
    }

    /// Queues the chunks holding the load grid points of one zone.
    fn queue_zone_grid(
        &mut self,
        z: Rect<i32>,
        Ghost(zones): Ghost<Seq<Rect<i32>>>,
        Ghost(l): Ghost<int>,
        Ghost(q0): Ghost<Seq<(i32, i32)>>,
    )
        requires
            old(self).wf(),
            0 <= l < zones.len(),
            zones[l] == z,
            old(self).load_queue@.take(q0.len() as int) == q0,
            q0.len() <= old(self).load_queue@.len(),
            forall|i: int|
                q0.len() <= i < old(self).load_queue@.len() ==> {
                    let p = #[trigger] old(self).load_queue@[i];
                    &&& on_any_grid(zones, p.0 as int, p.1 as int)
                    &&& !old(self).loaded(p.0 as int, p.1 as int)
                },
        ensures
            final(self).wf(),
            final(self).loaded_chunks@ == old(self).loaded_chunks@,
            final(self).screen_size == old(self).screen_size,
            final(self).path == old(self).path,
            final(self).generator == old(self).generator,
            final(self).load_queue@.take(old(self).load_queue@.len() as int) == old(self).load_queue@,
            old(self).load_queue@.len() <= final(self).load_queue@.len(),
            final(self).load_queue@.take(q0.len() as int) == q0,
            forall|i: int|
                q0.len() <= i < final(self).load_queue@.len() ==> {
                    let p = #[trigger] final(self).load_queue@[i];
                    &&& on_any_grid(zones, p.0 as int, p.1 as int)
                    &&& !old(self).loaded(p.0 as int, p.1 as int)
                },
            forall|cx: i32, cy: i32|
                old(self).loaded_or_queued(cx, cy) ==> #[trigger] final(self).loaded_or_queued(cx, cy),
            forall|cx: i32, cy: i32|
                #[trigger] on_zone_grid(z, cx as int, cy as int) ==> final(self).loaded_or_queued(cx, cy),
            final(self).load_queue@ == queue_columns(
                old(self).loaded_chunks@,
                old(self).load_queue@,
                z,
                grid_count(z.x1 as int, z.x2 as int),
            ),
    {
        let x_end: i64 = z.x2 as i64;
        let y_end: i64 = z.y2 as i64;
        let mut px: i64 = z.x1 as i64;
        let ghost mut a: int = 0;
        while px < x_end
            invariant
                old(self).wf(),
                0 <= l < zones.len(),
                zones[l] == z,
                x_end == z.x2,
                y_end == z.y2,
                0 <= a,
                px == z.x1 + 128 * a,
                self.wf(),
                self.loaded_chunks@ == old(self).loaded_chunks@,
                self.screen_size == old(self).screen_size,
                self.path == old(self).path,
                self.generator == old(self).generator,
                self.load_queue@.take(old(self).load_queue@.len() as int) == old(self).load_queue@,
                old(self).load_queue@.len() <= self.load_queue@.len(),
                q0.len() <= old(self).load_queue@.len(),
                old(self).load_queue@.take(q0.len() as int) == q0,
                forall|i: int|
                    q0.len() <= i < self.load_queue@.len() ==> {
                        let p = #[trigger] self.load_queue@[i];
                        &&& on_any_grid(zones, p.0 as int, p.1 as int)
                        &&& !old(self).loaded(p.0 as int, p.1 as int)
                    },
                forall|cx: i32, cy: i32|
                    old(self).loaded_or_queued(cx, cy) ==> #[trigger] self.loaded_or_queued(cx, cy),
                forall|ai: int, bj: int|
                    0 <= ai < a && 0 <= bj && z.y1 + 128 * bj < z.y2 ==> self.loaded_or_queued(
                        #[trigger] pixel_to_chunk(z.x1 + 128 * ai),
                        #[trigger] pixel_to_chunk(z.y1 + 128 * bj),
                    ),
                a == 0 || z.x1 + 128 * (a - 1) < z.x2,
                self.load_queue@ == queue_columns(old(self).loaded_chunks@, old(self).load_queue@, z, a),
            decreases x_end + 128 - px,
        {
            let mut py: i64 = z.y1 as i64;
            let ghost mut b: int = 0;
            let ghost qa = self.load_queue@;
            while py < y_end
                invariant
                    old(self).wf(),
                    0 <= l < zones.len(),
                    zones[l] == z,
                    x_end == z.x2,
                    y_end == z.y2,
                    0 <= a,
                    px == z.x1 + 128 * a,
                    px < x_end,
                    0 <= b,
                    py == z.y1 + 128 * b,
                    self.wf(),
                    self.loaded_chunks@ == old(self).loaded_chunks@,
                    self.screen_size == old(self).screen_size,
                    self.path == old(self).path,
                    self.generator == old(self).generator,
                    self.load_queue@.take(old(self).load_queue@.len() as int) == old(self).load_queue@,
                    old(self).load_queue@.len() <= self.load_queue@.len(),
                    q0.len() <= old(self).load_queue@.len(),
                    old(self).load_queue@.take(q0.len() as int) == q0,
                    forall|i: int|
                        q0.len() <= i < self.load_queue@.len() ==> {
                            let p = #[trigger] self.load_queue@[i];
                            &&& on_any_grid(zones, p.0 as int, p.1 as int)
                            &&& !old(self).loaded(p.0 as int, p.1 as int)
                        },
                    forall|cx: i32, cy: i32|
                        old(self).loaded_or_queued(cx, cy) ==> #[trigger] self.loaded_or_queued(cx, cy),
                    forall|ai: int, bj: int|
                        0 <= ai < a && 0 <= bj && z.y1 + 128 * bj < z.y2 ==> self.loaded_or_queued(
                            #[trigger] pixel_to_chunk(z.x1 + 128 * ai),
                            #[trigger] pixel_to_chunk(z.y1 + 128 * bj),
                        ),
                    forall|bj: int|
                        0 <= bj < b ==> self.loaded_or_queued(
                            pixel_to_chunk(z.x1 + 128 * a),
                            #[trigger] pixel_to_chunk(z.y1 + 128 * bj),
                        ),
                    b == 0 || z.y1 + 128 * (b - 1) < z.y2,
                    qa == queue_columns(old(self).loaded_chunks@, old(self).load_queue@, z, a),
                    self.load_queue@ == queue_column(old(self).loaded_chunks@, qa, z, a, b),
                decreases y_end + 128 - py,
            {
                let (cx, cy) = self.pixel_to_chunk_pos(px, py);
                let ghost before = *self;
                proof {
                    assert(on_zone_grid(z, cx as int, cy as int));
                    assert(on_any_grid(zones, cx as int, cy as int));
                }
                self.queue_load_chunk(cx, cy);
                proof {
                    assert forall|p: (i32, i32)| before.load_queue@.contains(p) implies self.load_queue@.contains(p) by {
                        let idx = choose|idx: int| 0 <= idx < before.load_queue@.len() && before.load_queue@[idx] == p;
                        assert(self.load_queue@[idx] == p);
                    }
                    assert(self.loaded_or_queued(cx, cy)) by {
                        if !before.loaded(cx as int, cy as int) && !before.load_queue@.contains((cx, cy)) {
                            assert(self.load_queue@[self.load_queue@.len() - 1] == (cx, cy));
                        }
                    }
                    assert(self.load_queue@.take(old(self).load_queue@.len() as int) =~= old(self).load_queue@);
                    assert(self.load_queue@.take(q0.len() as int) =~= q0);
                    assert((cx, cy) == grid_chunk(z, a, b));
                    assert(self.load_queue@ == queue_step(old(self).loaded_chunks@, before.load_queue@, (cx, cy)));
                }
                py = py + 128;
                proof {
                    b = b + 1;
                }
            }
            proof {
                assert(b == grid_count(z.y1 as int, z.y2 as int));
            }
            px = px + 128;
            proof {
                a = a + 1;
            }
        }
        proof {
            assert(a == grid_count(z.x1 as int, z.x2 as int));
        }
        proof {
            assert forall|cx: i32, cy: i32| #[trigger] on_zone_grid(z, cx as int, cy as int) implies self.loaded_or_queued(
                cx,
                cy,
            ) by {
                let (ai, bj) = choose|ai: int, bj: int|
                    0 <= ai && 0 <= bj && z.x1 + 128 * ai < z.x2 && z.y1 + 128 * bj < z.y2
                        && #[trigger] pixel_to_chunk(z.x1 + 128 * ai) == cx && #[trigger] pixel_to_chunk(
                        z.y1 + 128 * bj,
                    ) == cy;
                assert(self.loaded_or_queued(pixel_to_chunk(z.x1 + 128 * ai), pixel_to_chunk(z.y1 + 128 * bj)));
            }
        }
    }

    /// Picks the chunks to generate this tick: the (at most 32) chunks waiting
    /// for generation inside some unload zone that lie nearest to a loader, in
    /// order of distance.
    pub fn select_chunks_to_generate(&self, loaders: &[(i32, i32)]) -> (r: Vec<u32>)
        requires
            self.wf(),
            loaders_ok(self.screen_size, loaders@),
        ensures
            r@.len() <= 32,
            r@.no_duplicates(),
            forall|i: int|
                0 <= i < r@.len() ==> self.chunks().contains_key(#[trigger] r@[i]) && generation_candidate(
                    self.chunks()[r@[i]],
                    zones_of(self.screen_size, loaders@, unload_padding()),
                ),
            forall|i: int, j: int|
                0 <= i < j < r@.len() ==> nearest_distance(
                    loaders@,
                    self.chunks()[#[trigger] r@[i]].chunk_x as int,
                    self.chunks()[r@[i]].chunk_y as int,
                ) <= nearest_distance(
                    loaders@,
                    self.chunks()[#[trigger] r@[j]].chunk_x as int,
                    self.chunks()[r@[j]].chunk_y as int,
                ),
            forall|k: u32|
                self.chunks().contains_key(k) && generation_candidate(
                    self.chunks()[k],
                    zones_of(self.screen_size, loaders@, unload_padding()),
                ) && !r@.contains(k) ==> r@.len() == 32 && forall|i: int|
                    0 <= i < r@.len() ==> nearest_distance(
                        loaders@,
                        self.chunks()[#[trigger] r@[i]].chunk_x as int,
                        self.chunks()[r@[i]].chunk_y as int,
                    ) <= nearest_distance(
                        loaders@,
                        self.chunks()[k].chunk_x as int,
                        self.chunks()[k].chunk_y as int,
                    ),
    {
        let unload = self.zones_for(loaders, 1280);
        let cands = self.generation_candidates(&unload, loaders);
        let ghost m = self.loaded_chunks@;
        let picked = pick_nearest(&cands, 32);
        let mut r: Vec<u32> = Vec::new();
        let mut t: usize = 0;
        while t < picked.len()
            invariant
                0 <= t <= picked@.len(),
                r@.len() == t,
                forall|u: int| 0 <= u < t ==> r@[u] == cands@[#[trigger] picked@[u] as int].0,
                forall|u: int| 0 <= u < picked@.len() ==> #[trigger] picked@[u] < cands@.len(),
            decreases picked@.len() - t,
        {
            r.push(cands[picked[t]].0);
            t = t + 1;
        }
        proof {
            assert forall|a: int, b: int| 0 <= a < b < r@.len() implies r@[a] != r@[b] by {
                assert(picked@[a] != picked@[b]);
            }
            assert forall|i: int| 0 <= i < r@.len() implies m.contains_key(#[trigger] r@[i]) && generation_candidate(
                m[r@[i]],
                unload@,
            ) by {
                assert(cands@[picked@[i] as int].0 == r@[i]);
            }
            assert forall|i: int, j: int| 0 <= i < j < r@.len() implies nearest_distance(
                loaders@,
                m[#[trigger] r@[i]].chunk_x as int,
                m[r@[i]].chunk_y as int,
            ) <= nearest_distance(
                loaders@,
                m[#[trigger] r@[j]].chunk_x as int,
                m[r@[j]].chunk_y as int,
            ) by {
                assert(cands@[picked@[i] as int].1 <= cands@[picked@[j] as int].1);
            }
            assert forall|k: u32|
                m.contains_key(k) && generation_candidate(m[k], unload@) && !r@.contains(k) implies r@.len() == 32
                && forall|i: int|
                0 <= i < r@.len() ==> nearest_distance(
                    loaders@,
                    m[#[trigger] r@[i]].chunk_x as int,
                    m[r@[i]].chunk_y as int,
                ) <= nearest_distance(loaders@, m[k].chunk_x as int, m[k].chunk_y as int) by {
                let c = choose|c: int| 0 <= c < cands@.len() && cands@[c].0 == k;
                if picked@.contains(c as usize) {
                    let t = choose|t: int| 0 <= t < picked@.len() && picked@[t] == c as usize;
                    assert(picked@[t] as int == c);
                    assert(r@[t] == cands@[picked@[t] as int].0);
                    assert(r@[t] == k);
                }
                assert forall|i: int| 0 <= i < r@.len() implies nearest_distance(
                    loaders@,
                    m[#[trigger] r@[i]].chunk_x as int,
                    m[r@[i]].chunk_y as int,
                ) <= nearest_distance(loaders@, m[k].chunk_x as int, m[k].chunk_y as int) by {
                    assert(cands@[picked@[i] as int].1 <= cands@[c].1);
                }
            }
        }
        r
    }

    /// The distance to the nearest loader of the chunk under key `k`, if it is
    /// waiting for generation inside some unload zone.
    fn candidate_distance(&self, k: u32, unload: &Vec<Rect<i32>>, loaders: &[(i32, i32)]) -> (r: Option<i64>)
        requires
            self.loaded_chunks@.contains_key(k),
        ensures
            r is Some <==> generation_candidate(self.chunks()[k], unload@),
            r matches Some(d) ==> d == nearest_distance(
                loaders@,
                self.chunks()[k].chunk_x as int,
                self.chunks()[k].chunk_y as int,
            ),
    {
        let c = self.loaded_chunks.get(&k).unwrap();
        if c.state == ChunkState::NotGenerated && in_any_zone(c.chunk_x, c.chunk_y, unload) {
            Some(nearest_distance_exec(loaders, c.chunk_x, c.chunk_y))
        } else {
            None
        }
    }

    /// The chunks waiting for generation inside some unload zone, each with its
    /// distance to the nearest loader.
    #[verifier::rlimit(60)]
    fn generation_candidates(&self, unload: &Vec<Rect<i32>>, loaders: &[(i32, i32)]) -> (cands: Vec<(u32, i64)>)
        requires
            self.wf(),
        ensures
            forall|j1: int, j2: int|
                0 <= j1 < j2 < cands@.len() ==> #[trigger] cands@[j1].0 != #[trigger] cands@[j2].0,
            forall|j: int|
                0 <= j < cands@.len() ==> self.chunks().contains_key(#[trigger] cands@[j].0) && generation_candidate(
                    self.chunks()[cands@[j].0],
                    unload@,
                ) && cands@[j].1 == nearest_distance(
                    loaders@,
                    self.chunks()[cands@[j].0].chunk_x as int,
                    self.chunks()[cands@[j].0].chunk_y as int,
                ),
            forall|k: u32|
                self.chunks().contains_key(k) && generation_candidate(self.chunks()[k], unload@) ==> exists|c: int|
                    0 <= c < cands@.len() && #[trigger] cands@[c].0 == k,
    {
        let keys = self.loaded_keys();
        let ghost m = self.loaded_chunks@;
        let mut cands: Vec<(u32, i64)> = Vec::new();
        let mut i: usize = 0;
        while i < keys.len()
            invariant
                0 <= i <= keys@.len(),
                keys@.to_set() == m.dom(),
                keys@.no_duplicates(),
                m == self.loaded_chunks@,
                self.wf(),
                forall|j: int|
                    0 <= j < cands@.len() ==> m.contains_key(#[trigger] cands@[j].0) && generation_candidate(
                        m[cands@[j].0],
                        unload@,
                    ) && cands@[j].1 == nearest_distance(
                        loaders@,
                        m[cands@[j].0].chunk_x as int,
                        m[cands@[j].0].chunk_y as int,
                    ),
                forall|j1: int, j2: int|
                    0 <= j1 < j2 < cands@.len() ==> #[trigger] cands@[j1].0 != #[trigger] cands@[j2].0,
                forall|j: int|
                    0 <= j < i && generation_candidate(m[#[trigger] keys@[j]], unload@) ==> exists|c: int|
                        0 <= c < cands@.len() && cands@[c].0 == keys@[j],
                forall|j: int|
                    0 <= j < cands@.len() ==> exists|c: int| 0 <= c < i && keys@[c] == #[trigger] cands@[j].0,
            decreases keys@.len() - i,
        {
            let k = keys[i];
            proof {
                assert(keys@.to_set().contains(k));
            }
            let cd = self.candidate_distance(k, unload, loaders);
            if let Some(d) = cd {
                let ghost old_cands = cands@;
                proof {
                    assert forall|j: int| 0 <= j < cands@.len() implies cands@[j].0 != k by {
                        let c2 = choose|c2: int| 0 <= c2 < i && keys@[c2] == cands@[j].0;
                        assert(keys@[c2] != keys@[i as int]);
                    }
                }
                cands.push((k, d));
                proof {
                    assert forall|j: int| 0 <= j < cands@.len() implies exists|c: int| 0 <= c < i + 1 && keys@[c]
                        == #[trigger] cands@[j].0 by {
                        if j == cands@.len() - 1 {
                            assert(keys@[i as int] == cands@[j].0);
                        } else {
                            assert(cands@[j] == old_cands[j]);
                        }
                    }
                    assert forall|j: int|
                        0 <= j < i + 1 && generation_candidate(m[#[trigger] keys@[j]], unload@) implies exists|c: int|
                        0 <= c < cands@.len() && cands@[c].0 == keys@[j] by {
                        if j == i {
                            assert(cands@[cands@.len() - 1].0 == keys@[j]);
                        } else {
                            let c = choose|c: int| 0 <= c < old_cands.len() && old_cands[c].0 == keys@[j];
                            assert(cands@[c].0 == keys@[j]);
                        }
                    }
                }
            }
            i = i + 1;
        }
        proof {
            assert forall|k: u32| m.contains_key(k) && generation_candidate(m[k], unload@) implies exists|c: int|
                0 <= c < cands@.len() && #[trigger] cands@[c].0 == k by {
                assert(keys@.to_set().contains(k));
                let j = choose|j: int| 0 <= j < keys@.len() && keys@[j] == k;
                assert(generation_candidate(m[keys@[j]], unload@));
            }
        }
        cands
    }

    /// Takes a chunk from the store, returning it.
    pub fn unload_chunk(&mut self, index: u32) -> (r: Option<ServerChunk>)
        requires
            old(self).wf(),
        ensures
            final(self).wf(),
            final(self).loaded_chunks@ == old(self).loaded_chunks@.remove(index),
            final(self).load_queue@ == old(self).load_queue@,
            final(self).screen_size == old(self).screen_size,
            final(self).path == old(self).path,
            final(self).generator == old(self).generator,
            match r {
                Some(c) => old(self).loaded_chunks@.contains_key(index) && c == old(self).loaded_chunks@[index],
                None => !old(self).loaded_chunks@.contains_key(index),
            },
    {
        self.loaded_chunks.remove(&index)
    }

    /// Takes every chunk from the store.
    pub fn unload_all_chunks(&mut self) -> (r: Result<(), String>)
        requires
            old(self).wf(),
        ensures
            final(self).wf(),
            final(self).loaded_chunks@ == Map::<u32, ServerChunk>::empty(),
            final(self).load_queue@ == old(self).load_queue@,
            final(self).screen_size == old(self).screen_size,
            final(self).path == old(self).path,
            final(self).generator == old(self).generator,
            r is Ok,
    {
        self.loaded_chunks.clear();
        assert forall|k: u32| #[trigger] self.loaded_chunks@.contains_key(k) implies chunk_at_key(
            k,
            self.loaded_chunks@[k],
        ) by {
            assert(!Map::<u32, ServerChunk>::empty().contains_key(k));
        }
        Ok(())
    }

    /// Takes a saved chunk's pixels and colors for the chunk under key `k`.
    /// With the right number of pixels the chunk becomes cached with those
    /// pixels (and with the colors, if there are the right number of them),
    /// and the call says so; otherwise nothing changes and the chunk is
    /// still to be generated.
    pub fn restore_saved_chunk(&mut self, k: u32, pixels: Vec<MaterialInstance>, colors: Vec<u8>) -> (r: bool)
        requires
            old(self).wf(),
            old(self).loaded_chunks@.contains_key(k),
            old(self).loaded_chunks@[k].state == ChunkState::NotGenerated,
        ensures
            final(self).wf(),
            final(self).load_queue@ == old(self).load_queue@,
            final(self).screen_size == old(self).screen_size,
            final(self).path == old(self).path,
            final(self).generator == old(self).generator,
            final(self).loaded_chunks@.dom() == old(self).loaded_chunks@.dom(),
            forall|k2: u32|
                k2 != k && #[trigger] old(self).loaded_chunks@.contains_key(k2) ==> final(self).loaded_chunks@[k2]
                    == old(self).loaded_chunks@[k2],
            r == (pixels@.len() == CHUNK_AREA),
            !r ==> final(self).loaded_chunks@ == old(self).loaded_chunks@,
            r ==> {
                let c0 = old(self).loaded_chunks@[k];
                let c = final(self).loaded_chunks@[k];
                &&& c.state == ChunkState::Cached
                &&& c.pixels == Some(pixels)
                &&& c.dirty
                &&& c.pixel_data == (if colors@.len() == 4 * CHUNK_AREA { colors } else { c0.pixel_data })
                &&& c.chunk_x == c0.chunk_x
                &&& c.chunk_y == c0.chunk_y
                &&& c.dirty_rect == c0.dirty_rect
            },
    {
        if pixels.len() != 16384 {
            return false;
        }
        let mut c = self.loaded_chunks.remove(&k).unwrap();
        c.set_state(ChunkState::Cached);
        c.set_pixels(pixels);
        c.mark_dirty();
        if colors.len() == 65536 {
            c.set_pixel_colors(colors);
        } else {
            c.refresh();
        }
        self.loaded_chunks.insert(k, c);
        proof {
            lemma_store_keeps_keys(old(self).loaded_chunks@.remove(k), k, c);
            assert(old(self).loaded_chunks@.remove(k).insert(k, c) =~= self.loaded_chunks@);
        }
        true
    }

    /// Starts generating the chunk under key `k` with the generator's pixels and colors.
    pub fn begin_generation(&mut self, k: u32, pixels: Vec<MaterialInstance>, colors: Vec<u8>)
        requires
            old(self).wf(),
            old(self).loaded_chunks@.contains_key(k),
            old(self).loaded_chunks@[k].state == ChunkState::NotGenerated,
            pixels@.len() == CHUNK_AREA,
            colors@.len() == 4 * CHUNK_AREA,
        ensures
            final(self).wf(),
            final(self).load_queue@ == old(self).load_queue@,
            final(self).screen_size == old(self).screen_size,
            final(self).path == old(self).path,
            final(self).generator == old(self).generator,
            final(self).loaded_chunks@ == old(self).loaded_chunks@.insert(
                k,
                ServerChunk {
                    state: ChunkState::Generating(0),
                    pixels: Some(pixels),
                    pixel_data: colors,
                    ..old(self).loaded_chunks@[k]
                },
            ),
    {
        let mut c = self.loaded_chunks.remove(&k).unwrap();
        c.set_state(ChunkState::Generating(0));
        c.set_pixels(pixels);
        c.set_pixel_colors(colors);
        self.loaded_chunks.insert(k, c);
        proof {
            lemma_store_keeps_keys(old(self).loaded_chunks@.remove(k), k, c);
            assert(old(self).loaded_chunks@.remove(k).insert(k, c) =~= self.loaded_chunks@);
            assert(old(self).loaded_chunks@.remove(k).insert(k, c) =~= old(self).loaded_chunks@.insert(k, c));
        }
    }

    /// Runs one generation step over all chunks (see `generation_stepped`) and
    /// lists the chunks still waiting for or in generation that lie outside
    /// every unload zone, which are to be saved and unloaded.
    pub fn advance_generation(&mut self, loaders: &[(i32, i32)]) -> (r: Vec<u32>)
        requires
            old(self).wf(),
            loaders_ok(old(self).screen_size, loaders@),
        ensures
            final(self).wf(),
            final(self).load_queue@ == old(self).load_queue@,
            final(self).screen_size == old(self).screen_size,
            final(self).path == old(self).path,
            final(self).generator == old(self).generator,
            final(self).chunks().dom() == old(self).chunks().dom(),
            forall|k: u32| #[trigger]
                old(self).chunks().contains_key(k) ==> generation_stepped(
                    old(self).chunks(),
                    old(self).chunks()[k],
                    final(self).chunks()[k],
                ),
            r@.no_duplicates(),
            forall|k: u32|
                #[trigger] r@.contains(k) <==> old(self).chunks().contains_key(k) && ungenerated_out_of_range(
                    old(self).chunks()[k],
                    zones_of(old(self).screen_size, loaders@, unload_padding()),
                ),
    {
        let unload = self.zones_for(loaders, 1280);
        let keys = self.loaded_keys();
        let ghost m0 = self.loaded_chunks@;
        let mut out: Vec<u32> = Vec::new();
        let mut i: usize = 0;
        while i < keys.len()
            invariant
                0 <= i <= keys@.len(),
                keys@.to_set() == m0.dom(),
                keys@.no_duplicates(),
                self.wf(),
                self.load_queue@ == old(self).load_queue@,
                self.screen_size == old(self).screen_size,
                self.path == old(self).path,
                self.generator == old(self).generator,
                m0 == old(self).loaded_chunks@,
                unload@ == zones_of(old(self).screen_size, loaders@, unload_padding()),
                self.loaded_chunks@.dom() == m0.dom(),
                forall|j: int|
                    0 <= j < i ==> generation_stepped(m0, m0[#[trigger] keys@[j]], self.loaded_chunks@[keys@[j]]),
                forall|j: int| i <= j < keys@.len() ==> self.loaded_chunks@[#[trigger] keys@[j]] == m0[keys@[j]],
                out@.no_duplicates(),
                forall|x: u32|
                    #[trigger] out@.contains(x) <==> exists|j: int|
                        0 <= j < i && keys@[j] == x && ungenerated_out_of_range(m0[x], unload@),
            decreases keys@.len() - i,
        {
            let k = keys[i];
            proof {
                assert(keys@.to_set().contains(k));
                lemma_pass_bounds_readiness(m0, self.loaded_chunks@, keys@, i as int);
            }
            let ghost before = self.loaded_chunks@;
            let ghost old_out = out@;
            assert(self.loaded_chunks@[keys@[i as int]] == m0[keys@[i as int]]);
            let pushed = self.advance_chunk(k, &unload);
            proof {
                let c0 = m0[k];
                if let ChunkState::Generating(cur) = c0.state {
                    if cur < spec_max_gen_stage() {
                        let (x, y) = (c0.chunk_x as int, c0.chunk_y as int);
                        assert(neighborhood_gen_ready(m0, x, y, cur as int) ==> neighborhood_gen_ready(
                            before,
                            x,
                            y,
                            cur as int,
                        ));
                        assert(neighborhood_gen_ready(before, x, y, cur as int) ==> neighborhood_gen_ready_loose(
                            m0,
                            x,
                            y,
                            cur as int,
                        ));
                    }
                }
                assert(generation_stepped(m0, m0[keys@[i as int]], self.loaded_chunks@[keys@[i as int]]));
                if old_out.contains(k) {
                    let j = choose|j: int| 0 <= j < i && keys@[j] == k && ungenerated_out_of_range(m0[k], unload@);
                    assert(keys@[j] != keys@[i as int]);
                }
            }
            if pushed {
                out.push(k);
            }
            proof {
                assert forall|j: int| 0 <= j < keys@.len() && j != i implies self.loaded_chunks@[
                    #[trigger] keys@[j]] == before[keys@[j]] by {
                    assert(keys@[j] != keys@[i as int]);
                }
                assert(out@ == if pushed { old_out.push(k) } else { old_out });
                assert forall|x: u32| #[trigger] out@.contains(x) <==> exists|j: int|
                    0 <= j < i + 1 && keys@[j] == x && ungenerated_out_of_range(m0[x], unload@) by {
                    if pushed {
                        if old_out.contains(x) {
                            let idx = choose|idx: int| 0 <= idx < old_out.len() && old_out[idx] == x;
                            assert(out@[idx] == x);
                        }
                        if x == k {
                            assert(out@[old_out.len() as int] == x);
                        }
                        if out@.contains(x) {
                            let idx = choose|idx: int| 0 <= idx < out@.len() && out@[idx] == x;
                            if idx < old_out.len() {
                                assert(old_out[idx] == x);
                            }
                        }
                    }
                    if old_out.contains(x) {
                        let j = choose|j: int| 0 <= j < i && keys@[j] == x && ungenerated_out_of_range(m0[x], unload@);
                        assert(0 <= j < i + 1 && keys@[j] == x);
                    }
                    if x == k && pushed {
                        assert(keys@[i as int] == x);
                    }
                    if exists|j: int| 0 <= j < i + 1 && keys@[j] == x && ungenerated_out_of_range(m0[x], unload@) {
                        let j = choose|j: int| 0 <= j < i + 1 && keys@[j] == x && ungenerated_out_of_range(m0[x], unload@);
                        if j < i {
                            assert(old_out.contains(x));
                        } else {
                            assert(x == k);
                        }
                    }
                }
            }
            i = i + 1;
        }
        proof {
            assert forall|k: u32| #[trigger] m0.contains_key(k) implies generation_stepped(
                m0,
                m0[k],
                self.loaded_chunks@[k],
            ) by {
                assert(keys@.to_set().contains(k));
                let j = choose|j: int| 0 <= j < keys@.len() && keys@[j] == k;
            }
        }
        out
    }

    /// One generation step for the chunk under key `k`, judged on the world as
    /// it is now; says whether the chunk is still waiting for or in generation
    /// outside every unload zone.
    fn advance_chunk(&mut self, k: u32, unload: &Vec<Rect<i32>>) -> (r: bool)
        requires
            old(self).wf(),
            old(self).loaded_chunks@.contains_key(k),
        ensures
            final(self).wf(),
            final(self).load_queue@ == old(self).load_queue@,
            final(self).screen_size == old(self).screen_size,
            final(self).path == old(self).path,
            final(self).generator == old(self).generator,
            final(self).loaded_chunks@ == old(self).loaded_chunks@.insert(
                k,
                advanced_in(old(self).loaded_chunks@, old(self).loaded_chunks@[k]),
            ),
            r == ungenerated_out_of_range(old(self).loaded_chunks@[k], unload@),
    {
        let c = self.loaded_chunks.get(&k).unwrap();
        let cx = c.chunk_x;
        let cy = c.chunk_y;
        let st = c.state;
        let max_stage = self.generator.max_gen_stage();
        let in_unload = in_any_zone(cx, cy, unload);
        match st {
            ChunkState::NotGenerated => {
                proof {
                    assert(old(self).loaded_chunks@.insert(k, old(self).loaded_chunks@[k]) =~= old(self).loaded_chunks@);
                }
                !in_unload
            },
            ChunkState::Generating(cur_stage) => {
                if cur_stage >= max_stage {
                    let mut c2 = self.loaded_chunks.remove(&k).unwrap();
                    c2.state = ChunkState::Cached;
                    self.loaded_chunks.insert(k, c2);
                    proof {
                        lemma_store_keeps_keys(old(self).loaded_chunks@, k, c2);
                        assert(self.loaded_chunks@ =~= old(self).loaded_chunks@.insert(k, c2));
                    }
                    false
                } else {
                    if self.neighborhood_is_gen_ready(cx, cy, cur_stage) {
                        let mut c2 = self.loaded_chunks.remove(&k).unwrap();
                        c2.state = ChunkState::Generating(cur_stage + 1);
                        self.loaded_chunks.insert(k, c2);
                        proof {
                            lemma_store_keeps_keys(old(self).loaded_chunks@, k, c2);
                            assert(self.loaded_chunks@ =~= old(self).loaded_chunks@.insert(k, c2));
                        }
                    } else {
                        proof {
                            assert(old(self).loaded_chunks@.insert(k, old(self).loaded_chunks@[k])
                                =~= old(self).loaded_chunks@);
                        }
                    }
                    !in_unload
                }
            },
            _ => {
                proof {
                    assert(old(self).loaded_chunks@.insert(k, old(self).loaded_chunks@[k]) =~= old(self).loaded_chunks@);
                }
                false
            },
        }
    }

    /// Whether the chunk at `(chunk_x, chunk_y)` and its eight neighbors are
    /// all ready for it to leave generation stage `cur`.
    fn neighborhood_is_gen_ready(&self, chunk_x: i32, chunk_y: i32, cur: u8) -> (r: bool)
        ensures
            r == neighborhood_gen_ready(self.loaded_chunks@, chunk_x as int, chunk_y as int, cur as int),
    {
        let mut dy: i32 = -1;
        while dy <= 1
            invariant
                -1 <= dy <= 2,
                forall|ey: int, ex: int|
                    -1 <= ey < dy && -1 <= ex <= 1 ==> #[trigger] gen_ready(
                        self.loaded_chunks@,
                        chunk_x + ex,
                        chunk_y + ey,
                        cur as int,
                    ),
            decreases 2 - dy,
        {
            let mut dx: i32 = -1;
            while dx <= 1
                invariant
                    -1 <= dy <= 1,
                    -1 <= dx <= 2,
                    forall|ey: int, ex: int|
                        -1 <= ey < dy && -1 <= ex <= 1 ==> #[trigger] gen_ready(
                            self.loaded_chunks@,
                            chunk_x + ex,
                            chunk_y + ey,
                            cur as int,
                        ),
                    forall|ex: int|
                        -1 <= ex < dx ==> #[trigger] gen_ready(
                            self.loaded_chunks@,
                            chunk_x + ex,
                            chunk_y + dy,
                            cur as int,
                        ),
                decreases 2 - dx,
            {
                let x = chunk_x as i64 + dx as i64;
                let y = chunk_y as i64 + dy as i64;
                if !(-0x3fff_ffff <= x && x <= 0x3fff_ffff && -0x3fff_ffff <= y && y <= 0x3fff_ffff) {
                    assert(!gen_ready(self.loaded_chunks@, chunk_x + dx, chunk_y + dy, cur as int));
                    return false;
                }
                let ok = match self.get_chunk(x as i32, y as i32) {
                    Some(c) => match c.state {
                        ChunkState::Cached | ChunkState::Active => true,
                        ChunkState::Generating(st) => st >= cur,
                        ChunkState::NotGenerated => false,
                    },
                    None => false,
                };
                if !ok {
                    assert(!gen_ready(self.loaded_chunks@, chunk_x + dx, chunk_y + dy, cur as int));
                    return false;
                }
                dx = dx + 1;
            }
            dy = dy + 1;
        }
        assert(gen_ready(self.loaded_chunks@, chunk_x + -1, chunk_y + -1, cur as int));
        assert(gen_ready(self.loaded_chunks@, chunk_x + 0, chunk_y + -1, cur as int));
        assert(gen_ready(self.loaded_chunks@, chunk_x + 1, chunk_y + -1, cur as int));
        assert(gen_ready(self.loaded_chunks@, chunk_x + -1, chunk_y + 0, cur as int));
        assert(gen_ready(self.loaded_chunks@, chunk_x + 0, chunk_y + 0, cur as int));
        assert(gen_ready(self.loaded_chunks@, chunk_x + 1, chunk_y + 0, cur as int));
        assert(gen_ready(self.loaded_chunks@, chunk_x + -1, chunk_y + 1, cur as int));
        assert(gen_ready(self.loaded_chunks@, chunk_x + 0, chunk_y + 1, cur as int));
        assert(gen_ready(self.loaded_chunks@, chunk_x + 1, chunk_y + 1, cur as int));
        true
    }

    /// Applies the cached/active switch to the chunk under key `k`; says
    /// whether it is cached and outside every unload zone.
    fn switch_chunk(&mut self, k: u32, unload: &Vec<Rect<i32>>, active: &Vec<Rect<i32>>) -> (r: bool)
        requires
            old(self).wf(),
            old(self).loaded_chunks@.contains_key(k),
        ensures
            final(self).wf(),
            final(self).load_queue@ == old(self).load_queue@,
            final(self).screen_size == old(self).screen_size,
            final(self).path == old(self).path,
            final(self).generator == old(self).generator,
            final(self).loaded_chunks@ == old(self).loaded_chunks@.insert(
                k,
                switched(old(self).loaded_chunks@, old(self).loaded_chunks@[k], unload@, active@),
            ),
            r == cached_out_of_range(old(self).loaded_chunks@[k], unload@),
    {
        let c = self.loaded_chunks.get(&k).unwrap();
        let cx = c.chunk_x;
        let cy = c.chunk_y;
        let st = c.state;
        let in_unload = in_any_zone(cx, cy, unload);
        let in_active = in_any_zone(cx, cy, active);
        let to_active = st == ChunkState::Cached && in_unload && in_active && self.neighborhood_is_settled(cx, cy);
        let to_cached = st == ChunkState::Active && !in_active;
        if to_active || to_cached {
            let mut c2 = self.loaded_chunks.remove(&k).unwrap();
            if to_active {
                c2.state = ChunkState::Active;
                c2.dirty_rect = Some(Rect::new(0, 0, 128, 128));
            } else {
                c2.state = ChunkState::Cached;
            }
            self.loaded_chunks.insert(k, c2);
            proof {
                lemma_store_keeps_keys(old(self).loaded_chunks@, k, c2);
                assert(self.loaded_chunks@ =~= old(self).loaded_chunks@.insert(k, c2));
            }
        } else {
            proof {
                assert(old(self).loaded_chunks@.insert(k, old(self).loaded_chunks@[k]) =~= old(self).loaded_chunks@);
            }
        }
        st == ChunkState::Cached && !in_unload
    }

    /// The keys of all loaded chunks, each once.
    pub(crate) fn loaded_keys(&self) -> (r: Vec<u32>)
        ensures
            r@.to_set() == self.loaded_chunks@.dom(),
            r@.no_duplicates(),
    {
        let ghost rem = vstd::std_specs::hash::spec_keys_iter(&self.loaded_chunks).remaining();
        let mut v: Vec<u32> = Vec::new();
        for k in it: self.loaded_chunks.keys()
            invariant
                it.seq() == rem,
                v@.len() == it.index(),
                forall|j: int| 0 <= j < it.index() ==> v@[j] == *rem[j],
        {
            v.push(*k);
        }
        assert(v@ =~= rem.map_values(|r: &u32| *r));
        assert(rem.unref() == rem.map_values(|r: &u32| *r));
        v
    }

    /// The phase (0 to 3) in which the chunk at a position is simulated; no two
    /// neighboring chunks share a phase.
    pub fn chunk_update_order(&self, chunk_x: i32, chunk_y: i32) -> (r: u8)
        requires
            chunk_y != i32::MIN,
        ensures
            r == update_order(chunk_x as int, chunk_y as int),
            r < 4,
    {
        let ny: i32 = -chunk_y;
        let yy: u8 = if ny % 2 == 0 { 0 } else { 1 };
        let xx: u8 = if chunk_x % 2 == 0 { 0 } else { 1 };
        yy * 2 + xx
    }
}

/// The zones are nested: each of screen, active, load and unload zone lies
/// within the next, with the last three strictly wider and taller.
pub proof fn lemma_zones_nested(screen: (u16, u16), center: (i32, i32))
    requires
        zone_ok(screen, center, unload_padding()),
    ensures
        zone_ok(screen, center, 0),
        zone_ok(screen, center, active_padding()),
        zone_ok(screen, center, load_padding()),
        zone_nested(zone(screen, center, 0), zone(screen, center, active_padding())),
        zone_strictly_nested(zone(screen, center, active_padding()), zone(screen, center, load_padding())),
        zone_strictly_nested(zone(screen, center, load_padding()), zone(screen, center, unload_padding())),
{
}

/// `a` lies within `b` and is no wider or taller.
pub open spec fn zone_nested(a: Rect<i32>, b: Rect<i32>) -> bool {
    &&& b.x1 <= a.x1 && a.x2 <= b.x2 && b.y1 <= a.y1 && a.y2 <= b.y2
    &&& a.x2 - a.x1 <= b.x2 - b.x1 && a.y2 - a.y1 <= b.y2 - b.y1
}

/// `a` lies within `b` and is strictly narrower and shorter.
pub open spec fn zone_strictly_nested(a: Rect<i32>, b: Rect<i32>) -> bool {
    &&& b.x1 <= a.x1 && a.x2 <= b.x2 && b.y1 <= a.y1 && a.y2 <= b.y2
    &&& a.x2 - a.x1 < b.x2 - b.x1 && a.y2 - a.y1 < b.y2 - b.y1
}

/// Reading a pixel just written gives the written material.
pub proof fn lemma_get_after_set(
    old_m: Map<u32, ServerChunk>,
    new_m: Map<u32, ServerChunk>,
    x: int,
    y: int,
    mat: MaterialInstance,
)
    requires
        world_written(old_m, new_m, x, y, mat),
    ensures
        world_get(new_m, x, y) == Some(mat),
{
    lemma_pixel_index_bounds(x % 128, y % 128);
}

/// Writing a pixel leaves every pixel stored elsewhere unchanged.
pub proof fn lemma_set_keeps_others(
    old_m: Map<u32, ServerChunk>,
    new_m: Map<u32, ServerChunk>,
    x: int,
    y: int,
    mat: MaterialInstance,
    x2: int,
    y2: int,
)
    requires
        world_written(old_m, new_m, x, y, mat),
        pixel_key(x2, y2) != pixel_key(x, y) || local_index(x2, y2) != local_index(x, y),
    ensures
        world_get(new_m, x2, y2) == world_get(old_m, x2, y2),
{
    lemma_pixel_index_bounds(x % 128, y % 128);
    lemma_pixel_index_bounds(x2 % 128, y2 % 128);
    let k2 = pixel_key(x2, y2);
    if k2 != pixel_key(x, y) && old_m.contains_key(k2) {
        assert(new_m[k2] == old_m[k2]);
    }
}

proof fn lemma_pixel_ok_between(x: int, y: int, px: int, py: int)
    requires
        pixel_ok(x - 16, y - 16),
        pixel_ok(x + 16, y + 16),
        x - 16 <= px <= x + 16,
        y - 16 <= py <= y + 16,
    ensures
        pixel_ok(px, py),
{
    vstd::arithmetic::div_mod::lemma_div_is_ordered(x - 16, px, 128);
    vstd::arithmetic::div_mod::lemma_div_is_ordered(px, x + 16, 128);
    vstd::arithmetic::div_mod::lemma_div_is_ordered(y - 16, py, 128);
    vstd::arithmetic::div_mod::lemma_div_is_ordered(py, y + 16, 128);
}

/// During a generation pass, readiness in the world at the start of the pass implies
/// readiness now, and readiness now implies loose readiness at the start.
proof fn lemma_pass_bounds_readiness(m0: Map<u32, ServerChunk>, m1: Map<u32, ServerChunk>, keys: Seq<u32>, i: int)
    requires
        keys.to_set() == m0.dom(),
        m1.dom() == m0.dom(),
        0 <= i <= keys.len(),
        forall|j: int| 0 <= j < i ==> generation_stepped(m0, m0[#[trigger] keys[j]], m1[keys[j]]),
        forall|j: int| i <= j < keys.len() ==> m1[#[trigger] keys[j]] == m0[keys[j]],
    ensures
        forall|x: int, y: int, cur: int|
            0 <= cur < spec_max_gen_stage() ==> (#[trigger] neighborhood_gen_ready(m0, x, y, cur) ==> neighborhood_gen_ready(
                m1,
                x,
                y,
                cur,
            )),
        forall|x: int, y: int, cur: int|
            0 <= cur < spec_max_gen_stage() ==> (#[trigger] neighborhood_gen_ready(m1, x, y, cur) ==> neighborhood_gen_ready_loose(
                m0,
                x,
                y,
                cur,
            )),
{
    assert forall|x: int, y: int, cur: int| 0 <= cur < spec_max_gen_stage() implies (gen_ready(m0, x, y, cur)
        ==> #[trigger] gen_ready(m1, x, y, cur)) && (gen_ready(m1, x, y, cur) ==> gen_ready_loose(m0, x, y, cur)) by {
        if coord_ok(x) && coord_ok(y) && m0.contains_key(index_of(x, y)) {
            let k = index_of(x, y);
            assert(keys.to_set().contains(k));
            let j = choose|j: int| 0 <= j < keys.len() && keys[j] == k;
            if j < i {
                assert(generation_stepped(m0, m0[keys[j]], m1[keys[j]]));
            } else {
                assert(m1[keys[j]] == m0[keys[j]]);
            }
        }
    }
    assert forall|x: int, y: int, cur: int| 0 <= cur < spec_max_gen_stage() implies (#[trigger] neighborhood_gen_ready(
        m0,
        x,
        y,
        cur,
    ) ==> neighborhood_gen_ready(m1, x, y, cur)) && (neighborhood_gen_ready(m1, x, y, cur)
        ==> neighborhood_gen_ready_loose(m0, x, y, cur)) by {
        assert(gen_ready(m0, x - 1, y - 1, cur) ==> gen_ready(m1, x - 1, y - 1, cur));
        assert(gen_ready(m0, x, y - 1, cur) ==> gen_ready(m1, x, y - 1, cur));
        assert(gen_ready(m0, x + 1, y - 1, cur) ==> gen_ready(m1, x + 1, y - 1, cur));
        assert(gen_ready(m0, x - 1, y, cur) ==> gen_ready(m1, x - 1, y, cur));
        assert(gen_ready(m0, x, y, cur) ==> gen_ready(m1, x, y, cur));
        assert(gen_ready(m0, x + 1, y, cur) ==> gen_ready(m1, x + 1, y, cur));
        assert(gen_ready(m0, x - 1, y + 1, cur) ==> gen_ready(m1, x - 1, y + 1, cur));
        assert(gen_ready(m0, x, y + 1, cur) ==> gen_ready(m1, x, y + 1, cur));
        assert(gen_ready(m0, x + 1, y + 1, cur) ==> gen_ready(m1, x + 1, y + 1, cur));
        assert(gen_ready(m1, x - 1, y - 1, cur) ==> gen_ready_loose(m0, x - 1, y - 1, cur));
        assert(gen_ready(m1, x, y - 1, cur) ==> gen_ready_loose(m0, x, y - 1, cur));
        assert(gen_ready(m1, x + 1, y - 1, cur) ==> gen_ready_loose(m0, x + 1, y - 1, cur));
        assert(gen_ready(m1, x - 1, y, cur) ==> gen_ready_loose(m0, x - 1, y, cur));
        assert(gen_ready(m1, x, y, cur) ==> gen_ready_loose(m0, x, y, cur));
        assert(gen_ready(m1, x + 1, y, cur) ==> gen_ready_loose(m0, x + 1, y, cur));
        assert(gen_ready(m1, x - 1, y + 1, cur) ==> gen_ready_loose(m0, x - 1, y + 1, cur));
        assert(gen_ready(m1, x, y + 1, cur) ==> gen_ready_loose(m0, x, y + 1, cur));
        assert(gen_ready(m1, x + 1, y + 1, cur) ==> gen_ready_loose(m0, x + 1, y + 1, cur));
    }
}

/// Storing a chunk under the index of its own position keeps every chunk
/// keyed by its position.
proof fn lemma_store_keeps_keys(m: Map<u32, ServerChunk>, k: u32, c: ServerChunk)
    requires
        forall|k2: u32| #[trigger] m.contains_key(k2) ==> chunk_at_key(k2, m[k2]),
        chunk_at_key(k, c),
    ensures
        forall|k2: u32| #[trigger] m.insert(k, c).contains_key(k2) ==> chunk_at_key(k2, m.insert(k, c)[k2]),
{
}

/// While the cached/active switch runs over the keys, every chunk is settled
/// exactly when it was before, and the chunk store stays well formed.
proof fn lemma_switch_keeps_settled(
    m0: Map<u32, ServerChunk>,
    m1: Map<u32, ServerChunk>,
    keys: Seq<u32>,
    i: int,
    unload: Seq<Rect<i32>>,
    active: Seq<Rect<i32>>,
)
    requires
        keys.to_set() == m0.dom(),
        m1.dom() == m0.dom(),
        0 <= i <= keys.len(),
        forall|j: int| 0 <= j < i ==> m1[#[trigger] keys[j]] == switched(m0, m0[keys[j]], unload, active),
        forall|j: int| i <= j < keys.len() ==> m1[#[trigger] keys[j]] == m0[keys[j]],
    ensures
        forall|x: int, y: int| #[trigger] settled(m1, x, y) == settled(m0, x, y),
        forall|x: int, y: int| #[trigger] neighborhood_settled(m1, x, y) == neighborhood_settled(m0, x, y),
{
    assert forall|x: int, y: int| #[trigger] settled(m1, x, y) == settled(m0, x, y) by {
        if coord_ok(x) && coord_ok(y) && m0.contains_key(index_of(x, y)) {
            let k = index_of(x, y);
            assert(keys.to_set().contains(k));
            let j = choose|j: int| 0 <= j < keys.len() && keys[j] == k;
            if j < i {
                assert(m1[keys[j]] == switched(m0, m0[keys[j]], unload, active));
            } else {
                assert(m1[keys[j]] == m0[keys[j]]);
            }
        }
    }
    assert forall|x: int, y: int| #[trigger] neighborhood_settled(m1, x, y) == neighborhood_settled(m0, x, y) by {
        assert(settled(m1, x - 1, y - 1) == settled(m0, x - 1, y - 1));
        assert(settled(m1, x, y - 1) == settled(m0, x, y - 1));
        assert(settled(m1, x + 1, y - 1) == settled(m0, x + 1, y - 1));
        assert(settled(m1, x - 1, y) == settled(m0, x - 1, y));
        assert(settled(m1, x, y) == settled(m0, x, y));
        assert(settled(m1, x + 1, y) == settled(m0, x + 1, y));
        assert(settled(m1, x - 1, y + 1) == settled(m0, x - 1, y + 1));
        assert(settled(m1, x, y + 1) == settled(m0, x, y + 1));
        assert(settled(m1, x + 1, y + 1) == settled(m0, x + 1, y + 1));
    }
}

/// Whether the chunk at `(cx, cy)` overlaps any of the zones.
fn in_any_zone(cx: i32, cy: i32, zones: &Vec<Rect<i32>>) -> (r: bool)
    ensures
        r == chunk_in_zones(cx as int, cy as int, zones@),
{
    let x1: i64 = cx as i64 * 128;
    let y1: i64 = cy as i64 * 128;
    let mut i: usize = 0;
    while i < zones.len()
        invariant
            0 <= i <= zones@.len(),
            x1 == cx * 128,
            y1 == cy * 128,
            forall|j: int| 0 <= j < i ==> !chunk_in_zone(cx as int, cy as int, #[trigger] zones@[j]),
        decreases zones@.len() - i,
    {
        let z = zones[i];
        if (z.x1 as i64) < (z.x2 as i64) && (z.y1 as i64) < (z.y2 as i64) && x1 < z.x2 as i64 && (z.x1
            as i64) < x1 + 128 && y1 < z.y2 as i64 && (z.y1 as i64) < y1 + 128 {
            assert(chunk_in_zone(cx as int, cy as int, zones@[i as int]));
            return true;
        }
        i = i + 1;
    }
    false
}

/// Picks, up to `n` times, the first entry with the smallest distance among
/// those not picked yet; gives the picked positions in order.
fn pick_nearest(cands: &Vec<(u32, i64)>, n: usize) -> (picked: Vec<usize>)
    ensures
        picked@.len() <= n,
        forall|t: int| 0 <= t < picked@.len() ==> #[trigger] picked@[t] < cands@.len(),
        forall|t1: int, t2: int| 0 <= t1 < t2 < picked@.len() ==> #[trigger] picked@[t1] != #[trigger] picked@[t2],
        forall|t1: int, t2: int|
            0 <= t1 < t2 < picked@.len() ==> cands@[#[trigger] picked@[t1] as int].1 <= cands@[
                #[trigger] picked@[t2] as int].1,
        forall|t: int, c: int|
            0 <= t < picked@.len() && 0 <= c < cands@.len() && !picked@.contains(c as usize) ==> cands@[
                #[trigger] picked@[t] as int].1 <= #[trigger] cands@[c].1,
        picked@.len() < n ==> forall|c: int| 0 <= c < cands@.len() ==> #[trigger] picked@.contains(c as usize),
{
    let mut taken: Vec<bool> = vec![false; cands.len()];
    let mut picked: Vec<usize> = Vec::new();
    loop
        invariant
            taken@.len() == cands@.len(),
            picked@.len() <= n,
            forall|t: int| 0 <= t < picked@.len() ==> #[trigger] picked@[t] < cands@.len(),
            forall|c: int| 0 <= c < cands@.len() ==> (#[trigger] taken@[c] <==> picked@.contains(c as usize)),
            forall|t1: int, t2: int| 0 <= t1 < t2 < picked@.len() ==> #[trigger] picked@[t1] != #[trigger] picked@[t2],
            forall|t1: int, t2: int|
                0 <= t1 < t2 < picked@.len() ==> cands@[#[trigger] picked@[t1] as int].1 <= cands@[
                    #[trigger] picked@[t2] as int].1,
            forall|t: int, c: int|
                0 <= t < picked@.len() && 0 <= c < cands@.len() && !taken@[c] ==> cands@[
                    #[trigger] picked@[t] as int].1 <= #[trigger] cands@[c].1,
        ensures
            picked@.len() <= n,
            forall|t: int| 0 <= t < picked@.len() ==> #[trigger] picked@[t] < cands@.len(),
            forall|t1: int, t2: int| 0 <= t1 < t2 < picked@.len() ==> #[trigger] picked@[t1] != #[trigger] picked@[t2],
            forall|t1: int, t2: int|
                0 <= t1 < t2 < picked@.len() ==> cands@[#[trigger] picked@[t1] as int].1 <= cands@[
                    #[trigger] picked@[t2] as int].1,
            forall|t: int, c: int|
                0 <= t < picked@.len() && 0 <= c < cands@.len() && !picked@.contains(c as usize) ==> cands@[
                    #[trigger] picked@[t] as int].1 <= #[trigger] cands@[c].1,
            picked@.len() < n ==> forall|c: int| 0 <= c < cands@.len() ==> #[trigger] picked@.contains(c as usize),
        decreases n - picked@.len(),
    {
        if picked.len() >= n {
            return picked;
        }
        let mut best: usize = cands.len();
        let mut j: usize = 0;
        while j < cands.len()
            invariant
                taken@.len() == cands@.len(),
                0 <= j <= cands@.len(),
                best == cands@.len() || (best < j && !taken@[best as int]),
                best == cands@.len() ==> forall|c: int| 0 <= c < j ==> #[trigger] taken@[c],
                best < cands@.len() ==> forall|c: int|
                    0 <= c < j && !taken@[c] ==> cands@[best as int].1 <= #[trigger] cands@[c].1,
            decreases cands@.len() - j,
        {
            if !taken[j] && (best == cands.len() || cands[j].1 < cands[best].1) {
                best = j;
            }
            j = j + 1;
        }
        if best == cands.len() {
            assert forall|c: int| 0 <= c < cands@.len() implies #[trigger] picked@.contains(c as usize) by {
                assert(taken@[c]);
            }
            return picked;
        }
        let ghost old_picked = picked@;
        let ghost old_taken = taken@;
        taken.set(best, true);
        picked.push(best);
        proof {
            assert forall|c: int| 0 <= c < cands@.len() implies (#[trigger] taken@[c] <==> picked@.contains(
                c as usize,
            )) by {
                if c == best as int {
                    assert(picked@[picked@.len() - 1] == best);
                } else {
                    assert(taken@[c] == old_taken[c]);
                    if old_picked.contains(c as usize) {
                        let t = choose|t: int| 0 <= t < old_picked.len() && old_picked[t] == c as usize;
                        assert(picked@[t] == c as usize);
                    }
                    if picked@.contains(c as usize) {
                        let t = choose|t: int| 0 <= t < picked@.len() && picked@[t] == c as usize;
                        assert(old_picked[t] == c as usize);
                    }
                }
            }
            assert forall|t: int| 0 <= t < old_picked.len() implies #[trigger] picked@[t] != best by {
                assert(old_taken[picked@[t] as int]);
            }
        }
    }
}

/// The distance from the nearest loader to chunk `(cx, cy)`.
fn nearest_distance_exec(loaders: &[(i32, i32)], cx: i32, cy: i32) -> (r: i64)
    ensures
        r == nearest_distance(loaders@, cx as int, cy as int),
{
    let x1: i64 = cx as i64 * 128;
    let y1: i64 = cy as i64 * 128;
    let mut best: i64 = 0;
    let mut i: usize = 0;
    while i < loaders.len()
        invariant
            0 <= i <= loaders@.len(),
            x1 == cx * 128,
            y1 == cy * 128,
            best == nearest_distance(loaders@.take(i as int), cx as int, cy as int),
            0 <= best <= 0x4_0000_0000_0000,
        decreases loaders@.len() - i,
    {
        let l = loaders[i];
        let dx: i64 = l.0 as i64 - x1;
        let dy: i64 = l.1 as i64 - y1;
        let ax: i64 = if dx < 0 { -dx } else { dx };
        let ay: i64 = if dy < 0 { -dy } else { dy };
        let d: i64 = ax + ay;
        proof {
            assert(loaders@.take(i + 1).drop_last() == loaders@.take(i as int));
            assert(loaders@.take(i + 1).last() == l);
        }
        if i == 0 || d < best {
            best = d;
        }
        i = i + 1;
    }
    assert(loaders@.take(loaders@.len() as int) == loaders@);
    best
}

/// Whether a position is in a load queue.
fn queue_contains(queue: &Vec<(i32, i32)>, chunk_x: i32, chunk_y: i32) -> (r: bool)
    ensures
        r == queue@.contains((chunk_x, chunk_y)),
{
    let mut i: usize = 0;
    while i < queue.len()
        invariant
            0 <= i <= queue@.len(),
            forall|j: int| 0 <= j < i ==> queue@[j] != (chunk_x, chunk_y),
        decreases queue@.len() - i,
    {
        let q = queue[i];
        if q.0 == chunk_x && q.1 == chunk_y {
            assert(queue@[i as int] == (chunk_x, chunk_y));
            return true;
        }
        i = i + 1;
    }
    false
}

/// The chunk coordinate of a pixel coordinate: floor division by the chunk
/// size, clamped to `i32`.
fn pixel_to_chunk_coord(v: i64) -> (r: i32)
    ensures
        r == pixel_to_chunk(v as int),
{
    let q: i64 = if v >= 0 {
        v / 128
    } else {
        -((-(v + 1)) / 128) - 1
    };
    assert(q == v as int / 128);
    if q < i32::MIN as i64 {
        i32::MIN
    } else if q > i32::MAX as i64 {
        i32::MAX
    } else {
        q as i32
    }
}

} // verus!
