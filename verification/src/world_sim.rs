use vstd::prelude::*;

use crate::chunk::{full_chunk_rect, rect_in_chunk, ChunkState, ServerChunk};
use crate::chunk_handler::{chunk_at_key, ChunkHandler};
use crate::coords::{coord_ok, index_exact, index_of, lemma_index_injective, update_order};
use crate::material::{MaterialInstance, PhysicsType};
use crate::rect::Rect;
use crate::simulator::{
    particles_view, rect_area, sim_pass, spawned_mats, start_model, written_rect, SimModel, Simulator,
};

verus! {

broadcast use vstd::std_specs::hash::group_hash_axioms;

/// What simulation may change of a chunk: its pixels, colors, dirty flag
/// and dirty rectangle; its position and state stay, and it keeps pixels iff
/// it had them.
pub open spec fn sim_frame(c0: ServerChunk, c1: ServerChunk) -> bool {
    &&& c1.chunk_x == c0.chunk_x
    &&& c1.chunk_y == c0.chunk_y
    &&& c1.state == c0.state
    &&& (c1.pixels is Some) == (c0.pixels is Some)
}

/// The 3x3 neighborhood positions around `(x, y)`, row by row from the top-left.
pub open spec fn nb_pos(x: int, y: int, i: int) -> (int, int) {
    (x + (i % 3) - 1, y + (i / 3) - 1)
}

/// How many pixels of a chunk hold exactly `t` (none, before it has pixels).
pub open spec fn chunk_mass(c: ServerChunk, t: MaterialInstance) -> int {
    match c.pixels {
        Some(p) => p@.to_multiset().count(t) as int,
        None => 0,
    }
}

/// How many pixels of the chunks under the keys `ks` hold exactly `t`.
pub open spec fn keys_mass(m: Map<u32, ServerChunk>, ks: Seq<u32>, t: MaterialInstance) -> int
    decreases ks.len(),
{
    if ks.len() == 0 {
        0
    } else {
        keys_mass(m, ks.drop_last(), t) + chunk_mass(m[ks.last()], t)
    }
}

/// Whether position `i` of the 3x3 neighborhood around chunk `c` has an index of its own.
pub open spec fn nb_exact(c: ServerChunk, i: int) -> bool {
    index_exact(nb_pos(c.chunk_x as int, c.chunk_y as int, i).0, nb_pos(c.chunk_x as int, c.chunk_y as int, i).1)
}

/// Whether every active chunk lies, with its eight neighbors, where chunk
/// indices are exact, so that no two chunks of its neighborhood share a key.
pub open spec fn active_exact(m: Map<u32, ServerChunk>) -> bool {
    forall|k: u32, i: int|
        m.contains_key(k) && m[k].state == ChunkState::Active && 0 <= i < 9 ==> #[trigger] nb_exact(m[k], i)
}

/// Replacing the chunk under one key changes the count over a key list that
/// holds it once by the difference between the two chunks.
proof fn lemma_keys_mass_insert(m: Map<u32, ServerChunk>, ks: Seq<u32>, k: u32, c: ServerChunk, t: MaterialInstance)
    requires
        ks.no_duplicates(),
    ensures
        keys_mass(m.insert(k, c), ks, t) == keys_mass(m, ks, t) + (if ks.contains(k) {
            chunk_mass(c, t) - chunk_mass(m[k], t)
        } else {
            0
        }),
    decreases ks.len(),
{
    if ks.len() > 0 {
        let init = ks.drop_last();
        assert(init.no_duplicates());
        lemma_keys_mass_insert(m, init, k, c, t);
        if ks.last() == k {
            assert(ks.contains(k));
            if init.contains(k) {
                let j = choose|j: int| 0 <= j < init.len() && init[j] == k;
                assert(ks[j] == ks[ks.len() - 1]);
            }
        } else if ks.contains(k) {
            let j = choose|j: int| 0 <= j < ks.len() && ks[j] == k;
            assert(init[j] == k);
        } else {
            if init.contains(k) {
                let j = choose|j: int| 0 <= j < init.len() && init[j] == k;
                assert(ks[j] == k);
            }
        }
    }
}

/// Taking one key out of a key list takes its chunk's count out of the total.
proof fn lemma_keys_mass_remove(m: Map<u32, ServerChunk>, s: Seq<u32>, j: int, t: MaterialInstance)
    requires
        0 <= j < s.len(),
    ensures
        keys_mass(m, s, t) == keys_mass(m, s.remove(j), t) + chunk_mass(m[s[j]], t),
    decreases s.len(),
{
    if j == s.len() - 1 {
        assert(s.remove(j) =~= s.drop_last());
    } else {
        lemma_keys_mass_remove(m, s.drop_last(), j, t);
        assert(s.remove(j).drop_last() =~= s.drop_last().remove(j));
        assert(s.remove(j).last() == s.last());
    }
}

/// The count over a key list does not depend on the order of the keys.
proof fn lemma_keys_mass_perm(m: Map<u32, ServerChunk>, a: Seq<u32>, b: Seq<u32>, t: MaterialInstance)
    requires
        a.no_duplicates(),
        b.no_duplicates(),
        a.to_set() == b.to_set(),
    ensures
        keys_mass(m, a, t) == keys_mass(m, b, t),
    decreases a.len(),
{
    if a.len() == 0 {
        if b.len() > 0 {
            assert(b.to_set().contains(b[0]));
        }
    } else {
        let x = a.last();
        assert(a.to_set().contains(x));
        assert(b.contains(x));
        let j = choose|j: int| 0 <= j < b.len() && b[j] == x;
        lemma_keys_mass_remove(m, b, j, t);
        let a1 = a.drop_last();
        let b1 = b.remove(j);
        assert(a1.no_duplicates());
        assert(b1.no_duplicates()) by {
            assert forall|p: int, q: int| 0 <= p < b1.len() && 0 <= q < b1.len() && p != q implies b1[p] != b1[q] by {
                let pp = if p < j { p } else { p + 1 };
                let qq = if q < j { q } else { q + 1 };
                assert(b1[p] == b[pp]);
                assert(b1[q] == b[qq]);
            }
        }
        assert forall|y: u32| a1.to_set().contains(y) <==> b1.to_set().contains(y) by {
            if a1.contains(y) {
                let i = choose|i: int| 0 <= i < a1.len() && a1[i] == y;
                assert(a[i] == y);
                assert(y != x);
                assert(a.to_set().contains(y));
                assert(b.contains(y));
                let q = choose|q: int| 0 <= q < b.len() && b[q] == y;
                assert(q != j);
                let qq = if q < j { q } else { q - 1 };
                assert(b1[qq] == y);
            }
            if b1.contains(y) {
                let q = choose|q: int| 0 <= q < b1.len() && b1[q] == y;
                let qq = if q < j { q } else { q + 1 };
                assert(b[qq] == y);
                assert(y != x);
                assert(b.to_set().contains(y));
                assert(a.contains(y));
                let i = choose|i: int| 0 <= i < a.len() && a[i] == y;
                assert(i != a.len() - 1);
                assert(a1[i] == y);
            }
        }
        assert(a1.to_set() =~= b1.to_set());
        lemma_keys_mass_perm(m, a1, b1, t);
    }
}

/// The pixels of the chunks under the first `i` keys, one chunk after the other.
pub open spec fn gathered(m: Map<u32, ServerChunk>, ks: Seq<u32>, i: int) -> Seq<MaterialInstance>
    decreases i,
{
    if i <= 0 {
        Seq::empty()
    } else {
        gathered(m, ks, i - 1) + m[ks[i - 1]].pixels.unwrap()@
    }
}

/// Gathering the pixels of chunks gathers their counts.
proof fn lemma_gathered_count(m: Map<u32, ServerChunk>, ks: Seq<u32>, i: int, t: MaterialInstance)
    requires
        0 <= i <= ks.len(),
        forall|j: int| 0 <= j < i ==> (m[#[trigger] ks[j]].pixels is Some),
    ensures
        gathered(m, ks, i).to_multiset().count(t) == keys_mass(m, ks.take(i), t),
    decreases i,
{
    broadcast use vstd::multiset::group_multiset_axioms, vstd::seq_lib::group_to_multiset_ensures;

    if i > 0 {
        lemma_gathered_count(m, ks, i - 1, t);
        let p = m[ks[i - 1]].pixels.unwrap()@;
        vstd::seq_lib::lemma_multiset_commutative(gathered(m, ks, i - 1), p);
        assert(ks.take(i).drop_last() =~= ks.take(i - 1));
        assert(ks.take(i).last() == ks[i - 1]);
        assert(chunk_mass(m[ks[i - 1]], t) == p.to_multiset().count(t));
    } else {
        assert(gathered(m, ks, i).to_multiset() =~= vstd::multiset::Multiset::empty());
    }
}

/// The nine chunks of a neighborhood whose positions have exact indices have
/// nine different keys.
proof fn lemma_nb_keys_distinct(cx: int, cy: int, nkeys: Seq<u32>)
    requires
        nkeys.len() == 9,
        forall|j: int| 0 <= j < 9 ==> #[trigger] nkeys[j] == index_of(nb_pos(cx, cy, j).0, nb_pos(cx, cy, j).1),
        forall|j: int| 0 <= j < 9 ==> index_exact(#[trigger] nb_pos(cx, cy, j).0, nb_pos(cx, cy, j).1),
    ensures
        nkeys.no_duplicates(),
{
    assert forall|p: int, q: int| 0 <= p < nkeys.len() && 0 <= q < nkeys.len() && p != q implies nkeys[p]
        != nkeys[q] by {
        if nkeys[p] == nkeys[q] {
            let a = nb_pos(cx, cy, p);
            let b = nb_pos(cx, cy, q);
            lemma_index_injective(a.0, a.1, b.0, b.1);
        }
    }
}

/// The key of position `i` of the 3x3 neighborhood around chunk `c`.
pub open spec fn nb_index(c: ServerChunk, i: int) -> u32 {
    index_of(nb_pos(c.chunk_x as int, c.chunk_y as int, i).0, nb_pos(c.chunk_x as int, c.chunk_y as int, i).1)
}

/// Whether key `k` is the key of a position in the 3x3 neighborhood of an active chunk.
pub open spec fn near_active(m: Map<u32, ServerChunk>, k: u32) -> bool {
    exists|k1: u32, i: int|
        m.contains_key(k1) && m[k1].state == ChunkState::Active && 0 <= i < 9 && k == #[trigger] nb_index(m[k1], i)
}

/// Whether all nine positions of the neighborhood around `(cx, cy)` have exact indices.
pub open spec fn nb_all_exact(cx: int, cy: int) -> bool {
    forall|i: int| 0 <= i < 9 ==> index_exact(#[trigger] nb_pos(cx, cy, i).0, nb_pos(cx, cy, i).1)
}

/// The key of position `j` of the 3x3 neighborhood around `(cx, cy)`.
pub open spec fn nb_key(cx: int, cy: int, j: int) -> u32 {
    index_of(nb_pos(cx, cy, j).0, nb_pos(cx, cy, j).1)
}

/// The nine keys of the 3x3 neighborhood around `(cx, cy)`, row by row from the top-left.
pub open spec fn nb_keys(cx: int, cy: int) -> Seq<u32> {
    Seq::new(9, |j: int| nb_key(cx, cy, j))
}

/// Whether the neighborhood around `(cx, cy)` lies where chunk positions can be indexed.
pub open spec fn nb_in_range(cx: int, cy: int) -> bool {
    -0x3fff_fffe <= cx <= 0x3fff_fffe && -0x3fff_fffe <= cy <= 0x3fff_fffe
}

/// Whether all nine chunks of the neighborhood around `(cx, cy)` are loaded and have pixels.
pub open spec fn nb_loaded(m: Map<u32, ServerChunk>, cx: int, cy: int) -> bool {
    forall|j: int|
        0 <= j < 9 ==> m.contains_key(#[trigger] nb_key(cx, cy, j)) && (m[nb_key(cx, cy, j)].pixels is Some)
}

/// The colors of the chunks under the first `i` keys, one chunk after the other.
pub open spec fn gathered_colors(m: Map<u32, ServerChunk>, ks: Seq<u32>, i: int) -> Seq<u8>
    decreases i,
{
    if i <= 0 {
        Seq::empty()
    } else {
        gathered_colors(m, ks, i - 1) + m[ks[i - 1]].pixel_data@
    }
}

/// The dirty rectangle taken at the start of the tick for the chunk under `k`
/// (none if `k` is not among the keys).
pub open spec fn rect_of(keys: Seq<u32>, rects: Seq<Option<Rect<i32>>>, k: u32) -> Option<Rect<i32>> {
    if exists|j: int| 0 <= j < keys.len() && keys[j] == k {
        rects[choose|j: int| 0 <= j < keys.len() && keys[j] == k]
    } else {
        None
    }
}

/// The simulation model of the neighborhood around `(cx, cy)` before simulating:
/// its nine chunks' pixels and colors, no colors changed yet, and the particles so far.
pub open spec fn nb_start(
    m: Map<u32, ServerChunk>,
    cx: int,
    cy: int,
    particles: Seq<(MaterialInstance, i64, i64)>,
) -> SimModel {
    start_model(
        gathered(m, nb_keys(cx, cy), 9),
        gathered_colors(m, nb_keys(cx, cy), 9),
        Seq::new(9, |j: int| false),
        particles,
    )
}

/// The model after simulating rectangle `r` of the center chunk with the
/// given rolls; without a rectangle nothing is simulated.
pub open spec fn sim_outcome(m0: SimModel, r: Option<Rect<i32>>, cx: int, cy: int, rolls: Seq<(bool, bool)>) -> SimModel {
    match r {
        Some(q) => sim_pass(m0, q, cx, cy, rolls),
        None => m0,
    }
}

/// A dirty rectangle grown to cover another one, if there is another one.
pub open spec fn merge_rect(a: Option<Rect<i32>>, b: Option<Rect<i32>>) -> Option<Rect<i32>> {
    match b {
        None => a,
        Some(y) => match a {
            Some(x) => Some(x.spec_union(y)),
            None => Some(y),
        },
    }
}

/// Chunk `c1` is chunk `c0` after taking back slot `j` of a simulated
/// neighborhood `m`: its pixels and colors are those of the slot, it is marked
/// dirty if the slot's colors changed, and its dirty rectangle grows by the
/// whole chunk (for a neighbor of a center that had pixels written) and by
/// the pixels written in it.
pub open spec fn scattered_chunk(c0: ServerChunk, c1: ServerChunk, m: SimModel, j: int) -> bool {
    &&& c1.chunk_x == c0.chunk_x
    &&& c1.chunk_y == c0.chunk_y
    &&& c1.state == c0.state
    &&& c1.pixels matches Some(p) && p@ == m.pixels.subrange(j * 16384, j * 16384 + 16384)
    &&& c1.pixel_data@ == m.colors.subrange(j * 65536, j * 65536 + 65536)
    &&& c1.dirty == (c0.dirty || m.dirty[j])
    &&& c1.dirty_rect == merge_rect(
        merge_rect(
            c0.dirty_rect,
            if j != 4 && written_rect(m, 4) is Some {
                Some(full_chunk_rect())
            } else {
                None
            },
        ),
        written_rect(m, j),
    )
}

/// The dirty rectangle the chunk under `k` had when the tick started, if it is loaded.
pub open spec fn taken_rect(m: Map<u32, ServerChunk>, k: u32) -> Option<Rect<i32>> {
    if m.contains_key(k) {
        m[k].dirty_rect
    } else {
        None
    }
}

/// The chunks with their dirty rectangles cleared.
pub open spec fn rects_cleared(m: Map<u32, ServerChunk>) -> Map<u32, ServerChunk> {
    m.map_values(|c: ServerChunk| ServerChunk { dirty_rect: None, ..c })
}

/// World `b` with particles `pb` is world `a` with particles `pa` after
/// simulating the neighborhood around `(cx, cy)`, with the dirty rectangles
/// the chunks of `m0` had when the tick started: if the neighborhood is loaded
/// and generated, its nine chunks are simulated together (see `sim_outcome`
/// and `scattered_chunk`) for some draws of the random rolls and nothing else
/// changes; otherwise nothing changes at all.
pub open spec fn neighborhood_simulated(
    m0: Map<u32, ServerChunk>,
    a: Map<u32, ServerChunk>,
    pa: Seq<(MaterialInstance, i64, i64)>,
    b: Map<u32, ServerChunk>,
    pb: Seq<(MaterialInstance, i64, i64)>,
    cx: int,
    cy: int,
) -> bool {
    if nb_in_range(cx, cy) && nb_loaded(a, cx, cy) {
        &&& ChunkHandler::sim_framed(a, b)
        &&& forall|k2: u32|
            a.contains_key(k2) && (forall|i: int| 0 <= i < 9 ==> k2 != #[trigger] nb_key(cx, cy, i)) ==> #[trigger] b[k2]
                == a[k2]
        &&& exists|rolls: Seq<(bool, bool)>|
            {
                let m = #[trigger] sim_outcome(nb_start(a, cx, cy, pa), taken_rect(m0, nb_key(cx, cy, 4)), cx, cy, rolls);
                &&& (taken_rect(m0, nb_key(cx, cy, 4)) matches Some(q) ==> rolls.len() == rect_area(q))
                &&& particles_view(pb) == m.particles
                &&& nb_keys(cx, cy).no_duplicates() ==> forall|j: int|
                    0 <= j < 9 ==> #[trigger] scattered_chunk(a[nb_key(cx, cy, j)], b[nb_key(cx, cy, j)], m, j)
            }
    } else {
        b == a && pb == pa
    }
}

/// Step `n` of the simulation passes over the keys `ks`: in phase `n / ks.len()`,
/// the chunk under key `ks[n % ks.len()]` has its neighborhood simulated if it
/// is active and of that phase; otherwise the step changes nothing.
pub open spec fn sim_step_ok(
    m0: Map<u32, ServerChunk>,
    ks: Seq<u32>,
    trace: Seq<(Map<u32, ServerChunk>, Seq<(MaterialInstance, i64, i64)>)>,
    n: int,
) -> bool {
    let c = m0[ks[n % (ks.len() as int)]];
    if c.state == ChunkState::Active && c.chunk_y != i32::MIN && update_order(c.chunk_x as int, c.chunk_y as int)
        == n / (ks.len() as int) {
        neighborhood_simulated(
            m0,
            trace[n].0,
            trace[n].1,
            trace[n + 1].0,
            trace[n + 1].1,
            c.chunk_x as int,
            c.chunk_y as int,
        )
    } else {
        trace[n + 1] == trace[n]
    }
}

/// The simulation of a tick, from world `m0` to world `m1` with particles
/// `parts` spawned, taken over the loaded keys in the order `ks`: the dirty
/// rectangles are cleared, then four phases each go over all keys in that
/// order (see `sim_step_ok`), passing through the states of `trace`.
pub open spec fn sim_traced(
    m0: Map<u32, ServerChunk>,
    ks: Seq<u32>,
    trace: Seq<(Map<u32, ServerChunk>, Seq<(MaterialInstance, i64, i64)>)>,
    m1: Map<u32, ServerChunk>,
    parts: Seq<(MaterialInstance, i64, i64)>,
) -> bool {
    &&& ks.no_duplicates()
    &&& ks.to_set() == m0.dom()
    &&& trace.len() == 4 * ks.len() + 1
    &&& trace[0] == (rects_cleared(m0), Seq::<(MaterialInstance, i64, i64)>::empty())
    &&& trace[4 * ks.len() as int] == (m1, parts)
    &&& forall|n: int| 0 <= n < 4 * ks.len() ==> #[trigger] sim_step_ok(m0, ks, trace, n)
}

/// The dirty rectangles taken at the start of the tick, listed by key, are
/// the ones `taken_rect` gives.
proof fn lemma_rect_of_taken(keys: Seq<u32>, rects: Seq<Option<Rect<i32>>>, m0: Map<u32, ServerChunk>, k: u32)
    requires
        keys.no_duplicates(),
        keys.to_set() == m0.dom(),
        rects.len() == keys.len(),
        forall|j: int| 0 <= j < keys.len() ==> #[trigger] rects[j] == m0[keys[j]].dirty_rect,
    ensures
        rect_of(keys, rects, k) == taken_rect(m0, k),
{
    if exists|j: int| 0 <= j < keys.len() && keys[j] == k {
        let j = choose|j: int| 0 <= j < keys.len() && keys[j] == k;
        assert(keys.to_set().contains(k));
    } else {
        if m0.contains_key(k) {
            assert(keys.to_set().contains(k));
            assert(keys.contains(k));
        }
    }
}

/// What `simulate_one` ensures, with the rectangles it was given being those
/// the chunks of `m0` had, is one neighborhood simulation.
proof fn lemma_neighborhood_simulated(
    m0: Map<u32, ServerChunk>,
    keys: Seq<u32>,
    rects: Seq<Option<Rect<i32>>>,
    a: Map<u32, ServerChunk>,
    pa: Seq<(MaterialInstance, i64, i64)>,
    b: Map<u32, ServerChunk>,
    pb: Seq<(MaterialInstance, i64, i64)>,
    cx: int,
    cy: int,
)
    requires
        keys.no_duplicates(),
        keys.to_set() == m0.dom(),
        rects.len() == keys.len(),
        forall|j: int| 0 <= j < keys.len() ==> #[trigger] rects[j] == m0[keys[j]].dirty_rect,
        ChunkHandler::sim_framed(m0, a),
        ChunkHandler::sim_framed(m0, b),
        forall|k2: u32|
            a.contains_key(k2) && (forall|i: int|
                0 <= i < 9 ==> k2 != #[trigger] index_of(nb_pos(cx, cy, i).0, nb_pos(cx, cy, i).1)) ==> #[trigger] b[k2]
                == a[k2],
        !(nb_in_range(cx, cy) && nb_loaded(a, cx, cy)) ==> b == a && pb == pa,
        nb_in_range(cx, cy) && nb_loaded(a, cx, cy) ==> exists|rolls: Seq<(bool, bool)>|
            {
                let r = rect_of(keys, rects, nb_key(cx, cy, 4));
                let m = #[trigger] sim_outcome(nb_start(a, cx, cy, pa), rect_of(keys, rects, nb_key(cx, cy, 4)), cx, cy, rolls);
                &&& (r matches Some(q) ==> rolls.len() == rect_area(q))
                &&& particles_view(pb) == m.particles
                &&& nb_keys(cx, cy).no_duplicates() ==> forall|j: int|
                    0 <= j < 9 ==> #[trigger] scattered_chunk(a[nb_key(cx, cy, j)], b[nb_key(cx, cy, j)], m, j)
            },
    ensures
        neighborhood_simulated(m0, a, pa, b, pb, cx, cy),
{
    lemma_rect_of_taken(keys, rects, m0, nb_key(cx, cy, 4));
    assert(ChunkHandler::sim_framed(a, b)) by {
        assert forall|k2: u32| #[trigger] a.contains_key(k2) implies sim_frame(a[k2], b[k2]) by {
            assert(sim_frame(m0[k2], a[k2]));
            assert(sim_frame(m0[k2], b[k2]));
        }
    }
    if nb_in_range(cx, cy) && nb_loaded(a, cx, cy) {
        let rolls = choose|rolls: Seq<(bool, bool)>|
            {
                let r = rect_of(keys, rects, nb_key(cx, cy, 4));
                let m = #[trigger] sim_outcome(nb_start(a, cx, cy, pa), rect_of(keys, rects, nb_key(cx, cy, 4)), cx, cy, rolls);
                &&& (r matches Some(q) ==> rolls.len() == rect_area(q))
                &&& particles_view(pb) == m.particles
                &&& nb_keys(cx, cy).no_duplicates() ==> forall|j: int|
                    0 <= j < 9 ==> #[trigger] scattered_chunk(a[nb_key(cx, cy, j)], b[nb_key(cx, cy, j)], m, j)
            };
        let m = sim_outcome(nb_start(a, cx, cy, pa), taken_rect(m0, nb_key(cx, cy, 4)), cx, cy, rolls);
        assert(m == sim_outcome(nb_start(a, cx, cy, pa), rect_of(keys, rects, nb_key(cx, cy, 4)), cx, cy, rolls));
        assert(taken_rect(m0, nb_key(cx, cy, 4)) matches Some(q) ==> rolls.len() == rect_area(q));
        assert(particles_view(pb) == m.particles);
        assert(nb_keys(cx, cy).no_duplicates() ==> forall|j: int|
            0 <= j < 9 ==> #[trigger] scattered_chunk(a[nb_key(cx, cy, j)], b[nb_key(cx, cy, j)], m, j));
        assert forall|k2: u32|
            a.contains_key(k2) && (forall|i: int| 0 <= i < 9 ==> k2 != #[trigger] nb_key(cx, cy, i)) implies #[trigger] b[k2]
                == a[k2] by {
            assert forall|i: int| 0 <= i < 9 implies k2 != #[trigger] index_of(nb_pos(cx, cy, i).0, nb_pos(cx, cy, i).1) by {
                assert(k2 != nb_key(cx, cy, i));
            }
        }
    }
}

/// Adding a state at the end of a trace keeps its steps.
proof fn lemma_trace_push(
    m0: Map<u32, ServerChunk>,
    ks: Seq<u32>,
    trace: Seq<(Map<u32, ServerChunk>, Seq<(MaterialInstance, i64, i64)>)>,
    x: (Map<u32, ServerChunk>, Seq<(MaterialInstance, i64, i64)>),
)
    requires
        forall|n: int| 0 <= n < trace.len() - 1 ==> #[trigger] sim_step_ok(m0, ks, trace, n),
    ensures
        forall|n: int| 0 <= n < trace.len() - 1 ==> #[trigger] sim_step_ok(m0, ks, trace.push(x), n),
{
    assert forall|n: int| 0 <= n < trace.len() - 1 implies #[trigger] sim_step_ok(m0, ks, trace.push(x), n) by {
        assert(sim_step_ok(m0, ks, trace, n));
        assert(trace.push(x)[n] == trace[n]);
        assert(trace.push(x)[n + 1] == trace[n + 1]);
    }
}

impl ChunkHandler {
    /// Whether every chunk changed from `m0` to `m1` only as simulation may.
    pub open spec fn sim_framed(m0: Map<u32, ServerChunk>, m1: Map<u32, ServerChunk>) -> bool {
        &&& m1.dom() == m0.dom()
        &&& forall|k: u32| #[trigger] m0.contains_key(k) ==> sim_frame(m0[k], m1[k])
    }

    /// Runs the sand simulation on every active chunk: each chunk's dirty
    /// rectangle is taken and cleared first; then, in four phases (no two
    /// neighbors share one), every active chunk of the phase whose eight
    /// neighbors are loaded and generated is simulated over its 3x3
    /// neighborhood (`Simulator::simulate_chunk`) with the dirty rectangles
    /// taken at the start, and the rectangles written in each neighbor (all of
    /// it, when the center had something to simulate) join that neighbor's new
    /// dirty rectangle. Gives the particles spawned. A chunk whose key is not
    /// that of a position next to or at an active chunk only loses its dirty
    /// rectangle. Where every active chunk
    /// and its neighbors lie where chunk indices are exact, no material is
    /// created or destroyed: for each non-air material, the pixels holding it
    /// over all loaded chunks plus the particles spawned with it stay as many.
    /// In full: for some order of the loaded keys, the world and the particles
    /// pass through the states that `sim_traced` describes.
    pub fn simulate_active_chunks(&mut self) -> (r: Vec<(MaterialInstance, i64, i64)>)
        requires
            old(self).wf(),
        ensures
            final(self).wf(),
            final(self).load_queue@ == old(self).load_queue@,
            final(self).screen_size == old(self).screen_size,
            final(self).path == old(self).path,
            final(self).generator == old(self).generator,
            Self::sim_framed(old(self).loaded_chunks@, final(self).loaded_chunks@),
            forall|k: u32|
                old(self).loaded_chunks@.contains_key(k) && !near_active(old(self).loaded_chunks@, k)
                    ==> #[trigger] final(self).loaded_chunks@[k] == (ServerChunk {
                    dirty_rect: None,
                    ..old(self).loaded_chunks@[k]
                }),
            active_exact(old(self).loaded_chunks@) ==> forall|ks: Seq<u32>, t: MaterialInstance|
                ks.no_duplicates() && ks.to_set() == old(self).loaded_chunks@.dom() && t.physics
                    != PhysicsType::Air ==> #[trigger] keys_mass(final(self).loaded_chunks@, ks, t) + spawned_mats(
                    r@,
                ).to_multiset().count(t) == keys_mass(old(self).loaded_chunks@, ks, t),
            exists|ks: Seq<u32>, trace: Seq<(Map<u32, ServerChunk>, Seq<(MaterialInstance, i64, i64)>)>|
                #[trigger] sim_traced(old(self).loaded_chunks@, ks, trace, final(self).loaded_chunks@, r@),
    {
        let keys = self.loaded_keys();
        let ghost m0 = self.loaded_chunks@;
        // take the dirty rectangles
        let mut old_rects: Vec<Option<Rect<i32>>> = Vec::new();
        let mut i: usize = 0;
        while i < keys.len()
            invariant
                0 <= i <= keys@.len(),
                keys@.to_set() == m0.dom(),
                self.wf(),
                self.load_queue@ == old(self).load_queue@,
                self.screen_size == old(self).screen_size,
                self.path == old(self).path,
                self.generator == old(self).generator,
                Self::sim_framed(m0, self.loaded_chunks@),
                old_rects@.len() == i,
                forall|j: int| 0 <= j < i ==> (#[trigger] old_rects@[j] matches Some(q) ==> rect_in_chunk(q)),
                keys@.no_duplicates(),
                forall|t: MaterialInstance| #[trigger] keys_mass(self.loaded_chunks@, keys@, t) == keys_mass(m0, keys@, t),
                forall|j: int|
                    0 <= j < i ==> self.loaded_chunks@[#[trigger] keys@[j]] == (ServerChunk {
                        dirty_rect: None,
                        ..m0[keys@[j]]
                    }),
                forall|j: int| i <= j < keys@.len() ==> self.loaded_chunks@[#[trigger] keys@[j]] == m0[keys@[j]],
                forall|j: int| 0 <= j < i ==> #[trigger] old_rects@[j] == m0[keys@[j]].dirty_rect,
            decreases keys@.len() - i,
        {
            let k = keys[i];
            proof {
                assert(keys@.to_set().contains(k));
            }
            let ghost before = self.loaded_chunks@;
            let rect = self.take_dirty_rect(k, Ghost(m0));
            proof {
                assert forall|t: MaterialInstance| #[trigger] keys_mass(self.loaded_chunks@, keys@, t) == keys_mass(
                    m0,
                    keys@,
                    t,
                ) by {
                    lemma_keys_mass_insert(before, keys@, k, ServerChunk { dirty_rect: None, ..before[k] }, t);
                }
                assert forall|j: int| 0 <= j < keys@.len() && j != i implies keys@[j] != k by {}
            }
            old_rects.push(rect);
            i = i + 1;
        }
        let mut particles: Vec<(MaterialInstance, i64, i64)> = Vec::new();
        proof {
            broadcast use vstd::seq_lib::group_to_multiset_ensures;

            assert forall|k2: u32| #[trigger] m0.contains_key(k2) implies self.loaded_chunks@[k2] == (ServerChunk {
                dirty_rect: None,
                ..m0[k2]
            }) by {
                assert(keys@.to_set().contains(k2));
                let j = choose|j: int| 0 <= j < keys@.len() && keys@[j] == k2;
            }

            assert(spawned_mats(particles@).to_multiset() =~= vstd::multiset::Multiset::empty());
            assert(self.loaded_chunks@ =~= rects_cleared(m0));
        }
        let ghost mut trace: Seq<(Map<u32, ServerChunk>, Seq<(MaterialInstance, i64, i64)>)> = seq![
            (self.loaded_chunks@, particles@),
        ];
        let ghost len = keys@.len() as int;
        let mut phase: u8 = 0;
        while phase < 4
            invariant
                keys@.no_duplicates(),
                active_exact(m0) ==> forall|t: MaterialInstance|
                    t.physics != PhysicsType::Air ==> #[trigger] keys_mass(self.loaded_chunks@, keys@, t) + spawned_mats(
                        particles@,
                    ).to_multiset().count(t) == keys_mass(m0, keys@, t),
                forall|k2: u32|
                    m0.contains_key(k2) && !near_active(m0, k2) ==> #[trigger] self.loaded_chunks@[k2] == (ServerChunk {
                        dirty_rect: None,
                        ..m0[k2]
                    }),
                keys@.to_set() == m0.dom(),
                old_rects@.len() == keys@.len(),
                forall|j: int| 0 <= j < old_rects@.len() ==> (#[trigger] old_rects@[j] matches Some(q) ==> rect_in_chunk(q)),
                self.wf(),
                self.load_queue@ == old(self).load_queue@,
                self.screen_size == old(self).screen_size,
                self.path == old(self).path,
                self.generator == old(self).generator,
                Self::sim_framed(m0, self.loaded_chunks@),
                phase <= 4,
                trace.len() == 1 + phase * len,
                len == keys@.len(),
                trace.len() >= 1,
                trace[0] == (rects_cleared(m0), Seq::<(MaterialInstance, i64, i64)>::empty()),
                trace[trace.len() - 1] == (self.loaded_chunks@, particles@),
                forall|n: int| 0 <= n < trace.len() - 1 ==> #[trigger] sim_step_ok(m0, keys@, trace, n),
                forall|j: int| 0 <= j < keys@.len() ==> #[trigger] old_rects@[j] == m0[keys@[j]].dirty_rect,
            decreases 4 - phase,
        {
            let mut i: usize = 0;
            while i < keys.len()
                invariant
                    0 <= i <= keys@.len(),
                    keys@.no_duplicates(),
                    active_exact(m0) ==> forall|t: MaterialInstance|
                        t.physics != PhysicsType::Air ==> #[trigger] keys_mass(self.loaded_chunks@, keys@, t)
                            + spawned_mats(particles@).to_multiset().count(t) == keys_mass(m0, keys@, t),
                    forall|k2: u32|
                        m0.contains_key(k2) && !near_active(m0, k2) ==> #[trigger] self.loaded_chunks@[k2]
                            == (ServerChunk { dirty_rect: None, ..m0[k2] }),
                    keys@.to_set() == m0.dom(),
                    old_rects@.len() == keys@.len(),
                    forall|j: int| 0 <= j < old_rects@.len() ==> (#[trigger] old_rects@[j] matches Some(q) ==> rect_in_chunk(q)),
                    self.wf(),
                    self.load_queue@ == old(self).load_queue@,
                    self.screen_size == old(self).screen_size,
                    self.path == old(self).path,
                    self.generator == old(self).generator,
                    Self::sim_framed(m0, self.loaded_chunks@),
                    phase < 4,
                    trace.len() == 1 + phase * len + i,
                    len == keys@.len(),
                    trace.len() >= 1,
                    trace[0] == (rects_cleared(m0), Seq::<(MaterialInstance, i64, i64)>::empty()),
                    trace[trace.len() - 1] == (self.loaded_chunks@, particles@),
                    forall|n: int| 0 <= n < trace.len() - 1 ==> #[trigger] sim_step_ok(m0, keys@, trace, n),
                    forall|j: int| 0 <= j < keys@.len() ==> #[trigger] old_rects@[j] == m0[keys@[j]].dirty_rect,
                decreases keys@.len() - i,
            {
                let k = keys[i];
                proof {
                    assert(keys@.to_set().contains(k));
                }
                let ghost prev = (self.loaded_chunks@, particles@);
                let c = self.loaded_chunks.get(&k).unwrap();
                let cx = c.chunk_x;
                let cy = c.chunk_y;
                proof {
                    assert(sim_frame(m0[k], self.loaded_chunks@[k]));
                }
                if c.state == ChunkState::Active && cy != i32::MIN && self.chunk_update_order(cx, cy) == phase {
                    proof {
                        if active_exact(m0) {
                            assert(sim_frame(m0[k], self.loaded_chunks@[k]));
                            assert forall|j: int| 0 <= j < 9 implies index_exact(
                                #[trigger] nb_pos(cx as int, cy as int, j).0,
                                nb_pos(cx as int, cy as int, j).1,
                            ) by {
                                assert(nb_exact(m0[k], j));
                            }
                        }
                    }
                    let ghost before = self.loaded_chunks@;
                    self.simulate_one(cx, cy, &keys, &old_rects, &mut particles, Ghost(m0));
                    proof {
                        assert(sim_frame(m0[k], before[k]));
                        assert forall|k2: u32| m0.contains_key(k2) && !near_active(m0, k2) implies #[trigger]
                            self.loaded_chunks@[k2] == (ServerChunk { dirty_rect: None, ..m0[k2] }) by {
                            assert forall|j: int| 0 <= j < 9 implies k2 != #[trigger] index_of(
                                nb_pos(cx as int, cy as int, j).0,
                                nb_pos(cx as int, cy as int, j).1,
                            ) by {
                                assert(k2 != nb_index(m0[k], j));
                            }
                            assert(before.contains_key(k2));
                        }
                        lemma_neighborhood_simulated(
                            m0,
                            keys@,
                            old_rects@,
                            before,
                            prev.1,
                            self.loaded_chunks@,
                            particles@,
                            cx as int,
                            cy as int,
                        );
                        assert(neighborhood_simulated(m0, prev.0, prev.1, self.loaded_chunks@, particles@, cx as int, cy as int));
                    }
                }
                proof {
                    let n = phase * len + i;
                    vstd::arithmetic::div_mod::lemma_fundamental_div_mod_converse(n, len, phase as int, i as int);
                    assert(keys@[n % len] == k);
                    lemma_trace_push(m0, keys@, trace, (self.loaded_chunks@, particles@));
                    trace = trace.push((self.loaded_chunks@, particles@));
                    assert(trace[n] == prev);
                    assert(sim_step_ok(m0, keys@, trace, n));
                }
                i = i + 1;
            }
            proof {
                assert(phase * len + len == (phase + 1) * len) by (nonlinear_arith);
            }
            phase = phase + 1;
        }
        proof {
            assert(trace.len() == 1 + 4 * len);
            assert(sim_traced(m0, keys@, trace, self.loaded_chunks@, particles@));
        }
        proof {
            if active_exact(m0) {
                assert forall|ks: Seq<u32>, t: MaterialInstance|
                    ks.no_duplicates() && ks.to_set() == m0.dom() && t.physics != PhysicsType::Air implies #[trigger]
                    keys_mass(self.loaded_chunks@, ks, t) + spawned_mats(particles@).to_multiset().count(t)
                        == keys_mass(m0, ks, t) by {
                    lemma_keys_mass_perm(self.loaded_chunks@, ks, keys@, t);
                    lemma_keys_mass_perm(m0, ks, keys@, t);
                }
            }
        }
        particles
    }

    /// Clears the dirty rectangle of the chunk under `k`, giving it.
    fn take_dirty_rect(&mut self, k: u32, Ghost(m0): Ghost<Map<u32, ServerChunk>>) -> (r: Option<Rect<i32>>)
        requires
            old(self).wf(),
            old(self).loaded_chunks@.contains_key(k),
            Self::sim_framed(m0, old(self).loaded_chunks@),
        ensures
            final(self).wf(),
            final(self).load_queue@ == old(self).load_queue@,
            final(self).screen_size == old(self).screen_size,
            final(self).path == old(self).path,
            final(self).generator == old(self).generator,
            Self::sim_framed(m0, final(self).loaded_chunks@),
            r == old(self).loaded_chunks@[k].dirty_rect,
            r matches Some(q) ==> rect_in_chunk(q),
            final(self).loaded_chunks@ == old(self).loaded_chunks@.insert(
                k,
                (ServerChunk { dirty_rect: None, ..old(self).loaded_chunks@[k] }),
            ),
    {
        let mut c = self.loaded_chunks.remove(&k).unwrap();
        let r = c.dirty_rect;
        c.dirty_rect = None;
        proof {
            assert(chunk_at_key(k, old(self).loaded_chunks@[k]));
        }
        self.loaded_chunks.insert(k, c);
        proof {
            assert forall|k2: u32| #[trigger] self.loaded_chunks@.contains_key(k2) implies chunk_at_key(
                k2,
                self.loaded_chunks@[k2],
            ) by {
                if k2 != k {
                    assert(old(self).loaded_chunks@.contains_key(k2));
                }
            }
            assert forall|k2: u32| #[trigger] m0.contains_key(k2) implies sim_frame(m0[k2], self.loaded_chunks@[k2]) by {
                assert(sim_frame(m0[k2], old(self).loaded_chunks@[k2]));
            }
        }
        r
    }

    /// Simulates the active chunk at `(cx, cy)` over its neighborhood, if all
    /// nine chunks of it are loaded and generated: their pixels and colors are
    /// gathered, simulated by `Simulator::simulate_chunk` with the dirty
    /// rectangles taken at the start of the tick, and handed back (see
    /// `scattered_chunk`); otherwise nothing changes. Where the nine positions
    /// have exact indices, no material is created or destroyed: for each
    /// non-air material, the pixels holding it over all chunks plus the
    /// particles spawned with it stay as many.
    #[verifier::rlimit(100)]
    fn simulate_one(
        &mut self,
        cx: i32,
        cy: i32,
        keys: &Vec<u32>,
        old_rects: &Vec<Option<Rect<i32>>>,
        particles: &mut Vec<(MaterialInstance, i64, i64)>,
        Ghost(m0): Ghost<Map<u32, ServerChunk>>,
    )
        requires
            old(self).wf(),
            keys@.to_set() == m0.dom(),
            keys@.no_duplicates(),
            old_rects@.len() == keys@.len(),
            forall|j: int| 0 <= j < old_rects@.len() ==> (#[trigger] old_rects@[j] matches Some(q) ==> rect_in_chunk(q)),
            Self::sim_framed(m0, old(self).loaded_chunks@),
        ensures
            final(self).wf(),
            final(self).load_queue@ == old(self).load_queue@,
            final(self).screen_size == old(self).screen_size,
            final(self).path == old(self).path,
            final(self).generator == old(self).generator,
            Self::sim_framed(m0, final(self).loaded_chunks@),
            forall|k2: u32|
                old(self).loaded_chunks@.contains_key(k2) && (forall|i: int|
                    0 <= i < 9 ==> k2 != #[trigger] index_of(
                        nb_pos(cx as int, cy as int, i).0,
                        nb_pos(cx as int, cy as int, i).1,
                    )) ==> #[trigger] final(self).loaded_chunks@[k2] == old(self).loaded_chunks@[k2],
            nb_all_exact(cx as int, cy as int) ==> forall|t: MaterialInstance|
                t.physics != PhysicsType::Air ==> #[trigger] keys_mass(final(self).loaded_chunks@, keys@, t)
                    + spawned_mats(final(particles)@).to_multiset().count(t) == keys_mass(
                    old(self).loaded_chunks@,
                    keys@,
                    t,
                ) + spawned_mats(old(particles)@).to_multiset().count(t),
            !(nb_in_range(cx as int, cy as int) && nb_loaded(old(self).loaded_chunks@, cx as int, cy as int))
                ==> final(self).loaded_chunks@ == old(self).loaded_chunks@ && final(particles)@ == old(particles)@,
            nb_in_range(cx as int, cy as int) && nb_loaded(old(self).loaded_chunks@, cx as int, cy as int)
                ==> exists|rolls: Seq<(bool, bool)>|
                {
                    let r = rect_of(keys@, old_rects@, nb_key(cx as int, cy as int, 4));
                    let m = #[trigger] sim_outcome(
                        nb_start(old(self).loaded_chunks@, cx as int, cy as int, old(particles)@),
                        rect_of(keys@, old_rects@, nb_key(cx as int, cy as int, 4)),
                        cx as int,
                        cy as int,
                        rolls,
                    );
                    &&& (r matches Some(q) ==> rolls.len() == rect_area(q))
                    &&& particles_view(final(particles)@) == m.particles
                    &&& nb_keys(cx as int, cy as int).no_duplicates() ==> forall|j: int|
                        0 <= j < 9 ==> #[trigger] scattered_chunk(
                            old(self).loaded_chunks@[nb_key(cx as int, cy as int, j)],
                            final(self).loaded_chunks@[nb_key(cx as int, cy as int, j)],
                            m,
                            j,
                        )
                },
    {
        if !(-0x3fff_fffe <= cx && cx <= 0x3fff_fffe && -0x3fff_fffe <= cy && cy <= 0x3fff_fffe) {
            return ;
        }
        let ghost exact = nb_all_exact(cx as int, cy as int);
        let ghost ms = self.loaded_chunks@;
        let ghost parts0 = particles@;
        // the nine keys, with the dirty rectangles taken at the start of the tick
        let mut nkeys: Vec<u32> = Vec::new();
        let mut rects: Vec<Option<Rect<i32>>> = Vec::new();
        let mut i: i32 = 0;
        while i < 9
            invariant
                0 <= i <= 9,
                -0x3fff_fffe <= cx <= 0x3fff_fffe,
                -0x3fff_fffe <= cy <= 0x3fff_fffe,
                nkeys@.len() == i,
                rects@.len() == i,
                forall|j: int| 0 <= j < i ==> self.loaded_chunks@.contains_key(#[trigger] nkeys@[j]),
                forall|j: int|
                    0 <= j < i ==> (self.loaded_chunks@[#[trigger] nkeys@[j]].pixels is Some),
                forall|j: int|
                    0 <= j < i ==> #[trigger] nkeys@[j] == index_of(
                        nb_pos(cx as int, cy as int, j).0,
                        nb_pos(cx as int, cy as int, j).1,
                    ),
                forall|j: int| 0 <= j < i ==> (#[trigger] rects@[j] matches Some(q) ==> rect_in_chunk(q)),
                keys@.to_set() == m0.dom(),
                old_rects@.len() == keys@.len(),
                forall|j: int| 0 <= j < old_rects@.len() ==> (#[trigger] old_rects@[j] matches Some(q) ==> rect_in_chunk(q)),
                Self::sim_framed(m0, self.loaded_chunks@),
                self.wf(),
                self.loaded_chunks@ == ms,
                ms == old(self).loaded_chunks@,
                particles@ == old(particles)@,
                parts0 == old(particles)@,
                keys@.no_duplicates(),
                forall|j: int| 0 <= j < i ==> #[trigger] rects@[j] == rect_of(keys@, old_rects@, nkeys@[j]),
            decreases 9 - i,
        {
            let x = cx + (i % 3) - 1;
            let y = cy + (i / 3) - 1;
            let k = self.chunk_index(x, y);
            let has_pixels = match self.loaded_chunks.get(&k) {
                Some(c) => c.pixels.is_some(),
                None => false,
            };
            if !has_pixels {
                proof {
                    assert(k == nb_key(cx as int, cy as int, i as int));
                    assert(!nb_loaded(old(self).loaded_chunks@, cx as int, cy as int));
                }
                return ;
            }
            let mut j: usize = 0;
            let mut found: Option<Rect<i32>> = None;
            while j < keys.len()
                invariant_except_break
                    found is None,
                    forall|j2: int| 0 <= j2 < j ==> keys@[j2] != k,
                invariant
                    0 <= j <= keys@.len(),
                    old_rects@.len() == keys@.len(),
                    forall|j2: int| 0 <= j2 < old_rects@.len() ==> (#[trigger] old_rects@[j2] matches Some(q) ==> rect_in_chunk(q)),
                    found matches Some(q) ==> rect_in_chunk(q),
                    keys@.no_duplicates(),
                ensures
                    found == rect_of(keys@, old_rects@, k),
                    found matches Some(q) ==> rect_in_chunk(q),
                decreases keys@.len() - j,
            {
                if keys[j] == k {
                    found = old_rects[j];
                    proof {
                        let c = choose|j2: int| 0 <= j2 < keys@.len() && keys@[j2] == k;
                        assert(keys@[j as int] == k);
                        assert(c == j);
                    }
                    break;
                }
                j = j + 1;
            }
            nkeys.push(k);
            rects.push(found);
            assert(rects@[i as int] == rect_of(keys@, old_rects@, nkeys@[i as int]));
            assert(nkeys@[i as int] == index_of(nb_pos(cx as int, cy as int, i as int).0, nb_pos(cx as int, cy as int, i as int).1));
            i = i + 1;
        }
        assert(nb_loaded(ms, cx as int, cy as int)) by {
            assert forall|j: int| 0 <= j < 9 implies ms.contains_key(#[trigger] nb_key(cx as int, cy as int, j))
                && (ms[nb_key(cx as int, cy as int, j)].pixels is Some) by {
                assert(nkeys@[j] == nb_key(cx as int, cy as int, j));
            }
        }
        // gather the nine chunks
        let mut pixels: Vec<MaterialInstance> = Vec::new();
        let mut colors: Vec<u8> = Vec::new();
        let mut i: usize = 0;
        while i < 9
            invariant
                0 <= i <= 9,
                nkeys@.len() == 9,
                forall|j: int| 0 <= j < 9 ==> self.loaded_chunks@.contains_key(#[trigger] nkeys@[j]),
                forall|j: int| 0 <= j < 9 ==> (self.loaded_chunks@[#[trigger] nkeys@[j]].pixels is Some),
                self.wf(),
                self.loaded_chunks@ == ms,
                pixels@ == gathered(ms, nkeys@, i as int),
                colors@ == gathered_colors(ms, nkeys@, i as int),
                pixels@.len() == i * 16384,
                colors@.len() == i * 65536,
            decreases 9 - i,
        {
            let c = self.loaded_chunks.get(&nkeys[i]).unwrap();
            assert(chunk_at_key(nkeys@[i as int], *c));
            pixels.extend_from_slice(c.pixels.as_ref().unwrap().as_slice());
            colors.extend_from_slice(c.pixel_data.as_slice());
            assert(pixels@ =~= gathered(ms, nkeys@, i as int + 1));
            assert(colors@ =~= gathered_colors(ms, nkeys@, i as int + 1));
            i = i + 1;
        }
        let mut dirty: Vec<bool> = Vec::new();
        let mut i: usize = 0;
        while i < 9
            invariant
                0 <= i <= 9,
                dirty@.len() == i,
                forall|j: int| 0 <= j < i ==> dirty@[j] == false,
            decreases 9 - i,
        {
            dirty.push(false);
            i = i + 1;
        }
        let ghost pixels1 = pixels@;
        let ghost m0s = start_model(pixels@, colors@, dirty@, particles@);
        proof {
            assert(nkeys@ =~= nb_keys(cx as int, cy as int));
            assert(dirty@ =~= Seq::new(9, |j: int| false));
            assert(m0s == nb_start(ms, cx as int, cy as int, parts0));
            assert forall|t: MaterialInstance| #[trigger] pixels1.to_multiset().count(t) == keys_mass(ms, nkeys@, t) by {
                lemma_gathered_count(ms, nkeys@, 9, t);
                assert(nkeys@.take(9) =~= nkeys@);
            }
            if exact {
                lemma_nb_keys_distinct(cx as int, cy as int, nkeys@);
            }
            assert forall|j: int| 0 <= j < 9 implies keys@.contains(#[trigger] nkeys@[j]) by {
                assert(m0.dom().contains(nkeys@[j]));
                assert(keys@.to_set().contains(nkeys@[j]));
            }
        }
        let mut new_rects = rects;
        Simulator::simulate_chunk(cx, cy, &mut pixels, &mut colors, &mut dirty, &mut new_rects, particles);
        let ghost pixels2 = pixels@;
        let ghost r_opt = rects@[4];
        let ghost mut rolls_w: Seq<(bool, bool)> = Seq::empty();
        proof {
            if r_opt is Some {
                let r = r_opt.unwrap();
                rolls_w = choose|rolls: Seq<(bool, bool)>|
                    {
                        let mm = #[trigger] sim_pass(m0s, r, cx as int, cy as int, rolls);
                        &&& rolls.len() == rect_area(r)
                        &&& pixels@ == mm.pixels
                        &&& colors@ == mm.colors
                        &&& dirty@ == mm.dirty
                        &&& particles_view(particles@) == mm.particles
                        &&& forall|i: int| 0 <= i < 9 ==> #[trigger] new_rects@[i] == written_rect(mm, i)
                    };
            } else {
                assert forall|i: int| 0 <= i < 9 implies #[trigger] new_rects@[i] == written_rect(m0s, i) by {}
                assert(particles_view(particles@) =~= m0s.particles);
            }
        }
        let ghost m = sim_outcome(m0s, r_opt, cx as int, cy as int, rolls_w);
        proof {
            broadcast use vstd::seq_lib::group_to_multiset_ensures;

            assert forall|t: MaterialInstance| #[trigger]
                keys_mass(self.loaded_chunks@, keys@, t) == keys_mass(ms, keys@, t) - keys_mass(ms, nkeys@.take(0), t)
                    + pixels2.subrange(0, 0).to_multiset().count(t) by {
                assert(pixels2.subrange(0, 0).to_multiset() =~= vstd::multiset::Multiset::empty());
            }
        }
        // scatter the results back
        let mut i: usize = 0;
        while i < 9
            invariant
                0 <= i <= 9,
                nkeys@.len() == 9,
                forall|j: int| 0 <= j < 9 ==> self.loaded_chunks@.contains_key(#[trigger] nkeys@[j]),
                forall|j: int| 0 <= j < 9 ==> (self.loaded_chunks@[#[trigger] nkeys@[j]].pixels is Some),
                forall|j: int| 0 <= j < 9 ==> keys@.contains(#[trigger] nkeys@[j]),
                forall|j: int|
                    0 <= j < 9 ==> #[trigger] nkeys@[j] == index_of(
                        nb_pos(cx as int, cy as int, j).0,
                        nb_pos(cx as int, cy as int, j).1,
                    ),
                forall|k2: u32|
                    ms.contains_key(k2) && !nkeys@.contains(k2) ==> #[trigger] self.loaded_chunks@[k2] == ms[k2],
                self.loaded_chunks@.dom() == ms.dom(),
                keys@.no_duplicates(),
                exact ==> nkeys@.no_duplicates(),
                nkeys@.no_duplicates() ==> forall|j: int|
                    i <= j < 9 ==> self.loaded_chunks@[#[trigger] nkeys@[j]] == ms[nkeys@[j]],
                nkeys@.no_duplicates() ==> forall|j: int|
                    0 <= j < i ==> #[trigger] scattered_chunk(ms[nkeys@[j]], self.loaded_chunks@[nkeys@[j]], m, j),
                ms == old(self).loaded_chunks@,
                nkeys@ == nb_keys(cx as int, cy as int),
                pixels@ == m.pixels,
                colors@ == m.colors,
                dirty@ == m.dirty,
                forall|j: int| 0 <= j < 9 ==> #[trigger] new_rects@[j] == written_rect(m, j),
                exact ==> forall|t: MaterialInstance| #[trigger]
                    keys_mass(self.loaded_chunks@, keys@, t) == keys_mass(ms, keys@, t) - keys_mass(
                        ms,
                        nkeys@.take(i as int),
                        t,
                    ) + pixels2.subrange(0, i * 16384).to_multiset().count(t),
                self.wf(),
                self.load_queue@ == old(self).load_queue@,
                self.screen_size == old(self).screen_size,
                self.path == old(self).path,
                self.generator == old(self).generator,
                Self::sim_framed(m0, self.loaded_chunks@),
                pixels@ == pixels2,
                pixels@.len() == 9 * 16384,
                colors@.len() == 9 * 65536,
                dirty@.len() == 9,
                new_rects@.len() == 9,
                forall|j: int| 0 <= j < 9 ==> (#[trigger] new_rects@[j] matches Some(q) ==> rect_in_chunk(q)),
            decreases 9 - i,
        {
            let k = nkeys[i];
            let ghost before = self.loaded_chunks@;
            let ghost old_c = self.loaded_chunks@[k];
            let mut c = self.loaded_chunks.remove(&k).unwrap();
            let mut px: Vec<MaterialInstance> = Vec::new();
            let mut j: usize = 0;
            while j < 16384
                invariant
                    0 <= i < 9,
                    0 <= j <= 16384,
                    px@.len() == j,
                    pixels@.len() == 9 * 16384,
                    px@ =~= pixels@.subrange(i * 16384, i * 16384 + j),
                decreases 16384 - j,
            {
                px.push(pixels[i * 16384 + j]);
                j = j + 1;
            }
            let mut col: Vec<u8> = Vec::new();
            let mut j: usize = 0;
            while j < 65536
                invariant
                    0 <= i < 9,
                    0 <= j <= 65536,
                    col@.len() == j,
                    colors@.len() == 9 * 65536,
                    col@ =~= colors@.subrange(i * 65536, i * 65536 + j),
                decreases 65536 - j,
            {
                col.push(colors[i * 65536 + j]);
                j = j + 1;
            }
            let ghost new_px = px@;
            c.pixels = Some(px);
            c.pixel_data = col;
            if dirty[i] {
                c.dirty = true;
            }
            proof {
                assert(chunk_at_key(k, old_c));
            }
            if i != 4 && new_rects[4].is_some() {
                let full = Rect::new(0, 0, 128, 128);
                c.dirty_rect = match c.dirty_rect {
                    Some(current) => Some(current.union(full)),
                    None => Some(full),
                };
                assert(c.dirty_rect matches Some(q) && rect_in_chunk(q));
            }
            if let Some(nr) = new_rects[i] {
                assert(rect_in_chunk(nr));
                c.dirty_rect = match c.dirty_rect {
                    Some(current) => Some(current.union(nr)),
                    None => Some(nr),
                };
                assert(c.dirty_rect matches Some(q) && rect_in_chunk(q));
            }
            proof {
                assert(chunk_at_key(k, old_c));
            }
            self.loaded_chunks.insert(k, c);
            proof {
                assert(self.loaded_chunks@ == before.insert(k, c));
                assert forall|k2: u32| #[trigger] self.loaded_chunks@.contains_key(k2) implies chunk_at_key(
                    k2,
                    self.loaded_chunks@[k2],
                ) by {
                    if k2 != k {
                        assert(before.contains_key(k2));
                    }
                }
                assert forall|k2: u32| #[trigger] m0.contains_key(k2) implies sim_frame(m0[k2], self.loaded_chunks@[k2]) by {
                    assert(sim_frame(m0[k2], before[k2]));
                }
                assert forall|j: int| 0 <= j < 9 implies self.loaded_chunks@.contains_key(#[trigger] nkeys@[j])
                    && (self.loaded_chunks@[nkeys@[j]].pixels is Some) by {
                    assert(before.contains_key(nkeys@[j]));
                }
                assert forall|k2: u32| ms.contains_key(k2) && !nkeys@.contains(k2) implies #[trigger]
                    self.loaded_chunks@[k2] == ms[k2] by {
                    if k2 == k {
                        assert(nkeys@.contains(nkeys@[i as int]));
                    }
                }
                assert(self.loaded_chunks@.dom() =~= ms.dom());
                if nkeys@.no_duplicates() {
                    assert(before[k] == ms[k]);
                    assert forall|j: int| i + 1 <= j < 9 implies self.loaded_chunks@[#[trigger] nkeys@[j]]
                        == ms[nkeys@[j]] by {
                        assert(nkeys@[j] != nkeys@[i as int]);
                    }
                    assert(scattered_chunk(ms[k], c, m, i as int));
                    assert forall|j: int| 0 <= j < i + 1 implies #[trigger] scattered_chunk(
                        ms[nkeys@[j]],
                        self.loaded_chunks@[nkeys@[j]],
                        m,
                        j,
                    ) by {
                        if j < i {
                            assert(nkeys@[j] != nkeys@[i as int]);
                        }
                    }
                }
                if exact {
                    assert(before[k] == ms[k]);
                    assert forall|t: MaterialInstance| #[trigger]
                        keys_mass(self.loaded_chunks@, keys@, t) == keys_mass(ms, keys@, t) - keys_mass(
                            ms,
                            nkeys@.take(i + 1),
                            t,
                        ) + pixels2.subrange(0, (i + 1) * 16384).to_multiset().count(t) by {
                        lemma_keys_mass_insert(before, keys@, k, c, t);
                        assert(nkeys@.take(i + 1).drop_last() =~= nkeys@.take(i as int));
                        assert(nkeys@.take(i + 1).last() == k);
                        vstd::seq_lib::lemma_multiset_commutative(
                            pixels2.subrange(0, i * 16384),
                            pixels2.subrange(i * 16384, (i + 1) * 16384),
                        );
                        assert(pixels2.subrange(0, i * 16384) + pixels2.subrange(i * 16384, (i + 1) * 16384)
                            =~= pixels2.subrange(0, (i + 1) * 16384));
                        assert(chunk_mass(c, t) == new_px.to_multiset().count(t));
                    }
                }
            }
            i = i + 1;
        }
        proof {
            if exact {
                assert(nkeys@.take(9) =~= nkeys@);
                assert(pixels2.subrange(0, 9 * 16384int) =~= pixels2);
            }
            assert(r_opt == rect_of(keys@, old_rects@, nb_key(cx as int, cy as int, 4)));
            assert(m == sim_outcome(
                nb_start(old(self).loaded_chunks@, cx as int, cy as int, old(particles)@),
                rect_of(keys@, old_rects@, nb_key(cx as int, cy as int, 4)),
                cx as int,
                cy as int,
                rolls_w,
            ));
            if nb_keys(cx as int, cy as int).no_duplicates() {
                assert forall|j: int| 0 <= j < 9 implies #[trigger] scattered_chunk(
                    old(self).loaded_chunks@[nb_key(cx as int, cy as int, j)],
                    self.loaded_chunks@[nb_key(cx as int, cy as int, j)],
                    m,
                    j,
                ) by {
                    assert(nkeys@[j] == nb_key(cx as int, cy as int, j));
                }
            }
            assert forall|k2: u32|
                old(self).loaded_chunks@.contains_key(k2) && (forall|i: int|
                    0 <= i < 9 ==> k2 != #[trigger] index_of(
                        nb_pos(cx as int, cy as int, i).0,
                        nb_pos(cx as int, cy as int, i).1,
                    )) implies #[trigger] self.loaded_chunks@[k2] == old(self).loaded_chunks@[k2] by {
                if nkeys@.contains(k2) {
                    let j = choose|j: int| 0 <= j < nkeys@.len() && nkeys@[j] == k2;
                    assert(nkeys@[j] == index_of(nb_pos(cx as int, cy as int, j).0, nb_pos(cx as int, cy as int, j).1));
                }
            }
        }
    }
}

} // verus!
