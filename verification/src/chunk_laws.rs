//! Laws of the chunk handler's decisions: which loader is nearest, how
//! chunks switch between cached and active, and when generation may advance.

use vstd::prelude::*;

use crate::chunk::{full_chunk_rect, ChunkState, ServerChunk};
use crate::chunk_handler::{
    chunk_in_zones, displace_hit, generation_stepped, loader_distance, nearest_distance, neighborhood_settled, spiral,
    switched, world_get,
};
use crate::material::{MaterialInstance, PhysicsType};
use crate::coords::index_of;
use crate::gen::spec_max_gen_stage;
use crate::rect::Rect;

verus! {

/// The distance used to rank chunks for generation is the distance to the
/// nearest loader: it is at most the distance to every loader, and it is
/// the distance to one of them.
pub proof fn lemma_nearest_distance_is_min(loaders: Seq<(i32, i32)>, cx: int, cy: int)
    requires
        loaders.len() > 0,
    ensures
        forall|i: int|
            0 <= i < loaders.len() ==> nearest_distance(loaders, cx, cy) <= loader_distance(
                #[trigger] loaders[i],
                cx,
                cy,
            ),
        exists|i: int|
            0 <= i < loaders.len() && nearest_distance(loaders, cx, cy) == loader_distance(
                #[trigger] loaders[i],
                cx,
                cy,
            ),
    decreases loaders.len(),
{
    if loaders.len() == 1 {
        assert(nearest_distance(loaders, cx, cy) == loader_distance(loaders[0], cx, cy));
    } else {
        let rest = loaders.drop_last();
        lemma_nearest_distance_is_min(rest, cx, cy);
        let n = loaders.len() - 1;
        assert forall|i: int| 0 <= i < loaders.len() implies nearest_distance(loaders, cx, cy) <= loader_distance(
            #[trigger] loaders[i],
            cx,
            cy,
        ) by {
            if i < n {
                assert(loaders[i] == rest[i]);
            }
        }
        let j = choose|j: int|
            0 <= j < rest.len() && nearest_distance(rest, cx, cy) == loader_distance(#[trigger] rest[j], cx, cy);
        assert(loaders[j] == rest[j]);
        if loader_distance(loaders[n], cx, cy) < nearest_distance(rest, cx, cy) {
            assert(nearest_distance(loaders, cx, cy) == loader_distance(loaders[n], cx, cy));
        } else {
            assert(nearest_distance(loaders, cx, cy) == loader_distance(loaders[j], cx, cy));
        }
    }
}

/// The cached/active switch of one chunk, with unload zones `unload` and
/// active zones `active`: afterwards an active chunk overlaps some active
/// zone; an active chunk that overlaps none becomes cached; a chunk becomes
/// active only from cached, inside both an unload and an active zone, with
/// its whole neighborhood loaded and generated; a cached chunk meeting all
/// of that becomes active, with the whole chunk marked for simulation; a
/// chunk neither cached nor active keeps its state; and nothing but the
/// state and the dirty rectangle changes.
pub proof fn lemma_switch_law(m: Map<u32, ServerChunk>, c: ServerChunk, unload: Seq<Rect<i32>>, active: Seq<Rect<i32>>)
    ensures
        ({
            let c1 = switched(m, c, unload, active);
            let (x, y) = (c.chunk_x as int, c.chunk_y as int);
            &&& c1.state == ChunkState::Active ==> chunk_in_zones(x, y, active)
            &&& c.state == ChunkState::Active && !chunk_in_zones(x, y, active) ==> c1.state == ChunkState::Cached
            &&& c.state == ChunkState::Active && chunk_in_zones(x, y, active) ==> c1.state == ChunkState::Active
            &&& c.state != ChunkState::Active && c1.state == ChunkState::Active ==> {
                &&& c.state == ChunkState::Cached
                &&& chunk_in_zones(x, y, unload)
                &&& neighborhood_settled(m, x, y)
            }
            &&& c.state == ChunkState::Cached && chunk_in_zones(x, y, unload) && chunk_in_zones(x, y, active)
                && neighborhood_settled(m, x, y) ==> c1.state == ChunkState::Active
            &&& c.state == ChunkState::Cached && c1.state != ChunkState::Active ==> c1 == c
            &&& c.state != ChunkState::Cached && c.state != ChunkState::Active ==> c1 == c
            &&& c.state != ChunkState::Active && c1.state == ChunkState::Active ==> c1.dirty_rect == Some(
                full_chunk_rect(),
            )
            &&& c.state == ChunkState::Active ==> c1.dirty_rect == c.dirty_rect
            &&& c1.chunk_x == c.chunk_x && c1.chunk_y == c.chunk_y
            &&& c1.pixels == c.pixels && c1.pixel_data == c.pixel_data && c1.dirty == c.dirty
        }),
{
}

/// Whether a neighbor in state `s` lets a chunk leave generation stage `cur`
/// in a pass that started with that state: it is generated, or generating at
/// stage `cur` or later, or one stage behind (it may catch up earlier in the
/// same pass); a chunk still waiting for generation never does.
pub open spec fn may_neighbor_advance(s: ChunkState, cur: int) -> bool {
    match s {
        ChunkState::NotGenerated => false,
        ChunkState::Generating(st) => st + 1 >= cur,
        _ => true,
    }
}

/// A generation pass moves a chunk from stage `cur` (before the last stage)
/// only to stage `cur + 1`, and only if each of the nine chunks of its
/// neighborhood was loaded and past waiting for generation, at stage
/// `cur - 1` or later, when the pass started. If all nine were loaded and
/// cached, active, or at stage `cur` or later, it does move. Past the last
/// stage a chunk becomes cached; chunks in no generation stage keep their state.
pub proof fn lemma_generation_gated(m0: Map<u32, ServerChunk>, c0: ServerChunk, c1: ServerChunk)
    requires
        generation_stepped(m0, c0, c1),
    ensures
        c1.chunk_x == c0.chunk_x && c1.chunk_y == c0.chunk_y,
        !(c0.state is Generating) ==> c1 == c0,
        c0.state matches ChunkState::Generating(cur) && cur >= spec_max_gen_stage() ==> c1.state
            == ChunkState::Cached,
        c0.state matches ChunkState::Generating(cur) ==> (cur < spec_max_gen_stage() && c1.state != c0.state ==> {
            &&& c1.state == ChunkState::Generating((cur + 1) as u8)
            &&& forall|a: int, b: int|
                c0.chunk_x - 1 <= a <= c0.chunk_x + 1 && c0.chunk_y - 1 <= b <= c0.chunk_y + 1 ==> {
                    &&& m0.contains_key(#[trigger] index_of(a, b))
                    &&& m0[index_of(a, b)].state != ChunkState::NotGenerated
                    &&& may_neighbor_advance(m0[index_of(a, b)].state, cur as int)
                }
        }),
        c0.state matches ChunkState::Generating(cur) ==> (cur < spec_max_gen_stage() && (forall|a: int, b: int|
            #![trigger index_of(a, b)]
            c0.chunk_x - 1 <= a <= c0.chunk_x + 1 && c0.chunk_y - 1 <= b <= c0.chunk_y + 1 ==> {
                &&& -0x3fff_ffff <= a <= 0x3fff_ffff
                &&& -0x3fff_ffff <= b <= 0x3fff_ffff
                &&& m0.contains_key(index_of(a, b))
                &&& match m0[index_of(a, b)].state {
                    ChunkState::Cached | ChunkState::Active => true,
                    ChunkState::Generating(st) => st >= cur,
                    ChunkState::NotGenerated => false,
                }
            }) ==> c1.state == ChunkState::Generating((cur + 1) as u8)),
{
    if let ChunkState::Generating(cur) = c0.state {
        let (x, y) = (c0.chunk_x as int, c0.chunk_y as int);
        if cur < spec_max_gen_stage() {
            if c1.state != c0.state {
                assert forall|a: int, b: int|
                    x - 1 <= a <= x + 1 && y - 1 <= b <= y + 1 implies {
                        &&& m0.contains_key(#[trigger] index_of(a, b))
                        &&& m0[index_of(a, b)].state != ChunkState::NotGenerated
                        &&& may_neighbor_advance(m0[index_of(a, b)].state, cur as int)
                    } by {
                    assert(a == x - 1 || a == x || a == x + 1);
                    assert(b == y - 1 || b == y || b == y + 1);
                }
            }
        }
    }
}

/// Where the `n`-th pair of spiral legs starts (`n >= 1`): the spiral walks
/// legs of lengths 1, 1, 2, 2, 3, 3, ..., so pair `n` starts after
/// `2 * (1 + ... + (n - 1))` steps.
spec fn pair_start(n: nat) -> nat
    decreases n,
{
    if n <= 1 {
        0
    } else {
        pair_start((n - 1) as nat) + 2 * ((n - 1) as nat)
    }
}

proof fn lemma_pair_start_value(n: nat)
    requires
        n >= 1,
    ensures
        pair_start(n) == n * (n - 1),
    decreases n,
{
    if n > 1 {
        let p = (n - 1) as nat;
        lemma_pair_start_value(p);
        assert(pair_start(n) == pair_start(p) + 2 * p);
        assert(p * (p - 1) + 2 * p == n * (n - 1)) by (nonlinear_arith)
            requires
                n == p + 1,
        ;
        assert(pair_start(n) == n * (n - 1));
    } else {
        assert(n == 1);
        assert(pair_start(n) == 0);
        assert(n * (n - 1) == 0) by (nonlinear_arith)
            requires
                n == 1,
        ;
    }
}

proof fn lemma_right_leg(k: int, s: nat, t: int)
    requires
        k >= 0,
        spiral(s) == (-k, -k, 0int, -1int),
        1 <= t <= 2 * k + 1,
    ensures
        spiral((s + t) as nat) == (-k + t, -k, 1int, 0int),
    decreases t,
{
    if t > 1 {
        lemma_right_leg(k, s, t - 1);
    }
    assert(spiral((s + t) as nat) == {
        let p = spiral((s + t - 1) as nat);
        let (x, y, dx, dy) = p;
        let turn = x == y || (x < 0 && x == -y) || (x > 0 && x == 1 - y);
        let ndx = if turn { -dy } else { dx };
        let ndy = if turn { dx } else { dy };
        (x + ndx, y + ndy, ndx, ndy)
    });
}

proof fn lemma_down_leg(k: int, e: nat, t: int)
    requires
        k >= 0,
        spiral(e) == (k + 1, -k, 1int, 0int),
        1 <= t <= 2 * k + 1,
    ensures
        spiral((e + t) as nat) == (k + 1, -k + t, 0int, 1int),
    decreases t,
{
    if t > 1 {
        lemma_down_leg(k, e, t - 1);
    }
    assert(spiral((e + t) as nat) == {
        let p = spiral((e + t - 1) as nat);
        let (x, y, dx, dy) = p;
        let turn = x == y || (x < 0 && x == -y) || (x > 0 && x == 1 - y);
        let ndx = if turn { -dy } else { dx };
        let ndy = if turn { dx } else { dy };
        (x + ndx, y + ndy, ndx, ndy)
    });
}

proof fn lemma_left_leg(m: int, s: nat, t: int)
    requires
        m >= 1,
        spiral(s) == (m, m, 0int, 1int),
        1 <= t <= 2 * m,
    ensures
        spiral((s + t) as nat) == (m - t, m, -1int, 0int),
    decreases t,
{
    if t > 1 {
        lemma_left_leg(m, s, t - 1);
    }
    assert(spiral((s + t) as nat) == {
        let p = spiral((s + t - 1) as nat);
        let (x, y, dx, dy) = p;
        let turn = x == y || (x < 0 && x == -y) || (x > 0 && x == 1 - y);
        let ndx = if turn { -dy } else { dx };
        let ndy = if turn { dx } else { dy };
        (x + ndx, y + ndy, ndx, ndy)
    });
}

proof fn lemma_up_leg(m: int, e: nat, t: int)
    requires
        m >= 1,
        spiral(e) == (-m, m, -1int, 0int),
        1 <= t <= 2 * m,
    ensures
        spiral((e + t) as nat) == (-m, m - t, 0int, -1int),
    decreases t,
{
    if t > 1 {
        lemma_up_leg(m, e, t - 1);
    }
    assert(spiral((e + t) as nat) == {
        let p = spiral((e + t - 1) as nat);
        let (x, y, dx, dy) = p;
        let turn = x == y || (x < 0 && x == -y) || (x > 0 && x == 1 - y);
        let ndx = if turn { -dy } else { dx };
        let ndy = if turn { dx } else { dy };
        (x + ndx, y + ndy, ndx, ndy)
    });
}

/// Pair `2k + 1` of legs starts at `(-k, -k)` heading up; pair `2m` starts
/// at `(m, m)` heading down.
proof fn lemma_pair_starts(n: nat)
    requires
        n >= 1,
    ensures
        n % 2 == 1 ==> spiral(pair_start(n)) == (-((n - 1) / 2), -((n - 1) / 2), 0int, -1int),
        n % 2 == 0 ==> spiral(pair_start(n)) == ((n / 2) as int, (n / 2) as int, 0int, 1int),
    decreases n,
{
    if n > 1 {
        let p = (n - 1) as nat;
        lemma_pair_starts(p);
        let s = pair_start(p);
        if p % 2 == 1 {
            let k = (p - 1) / 2;
            lemma_right_leg(k, s, p as int);
            lemma_down_leg(k, (s + p) as nat, p as int);
            assert((s + p + p) as nat == pair_start(n));
        } else {
            let m = (p / 2) as int;
            lemma_left_leg(m, s, p as int);
            lemma_up_leg(m, (s + p) as nat, p as int);
            assert((s + p + p) as nat == pair_start(n));
        }
    }
}

/// The first 1024 steps of the square spiral that `displace` scans visit
/// every offset of the square from -15 to 16 on both axes.
pub proof fn lemma_spiral_covers(a: int, b: int)
    requires
        -15 <= a <= 16,
        -15 <= b <= 16,
    ensures
        exists|i: nat| i < 1024 && (#[trigger] spiral(i)).0 == a && spiral(i).1 == b,
{
    if b <= 0 && b <= a <= 1 - b {
        let k = -b;
        let n = (2 * k + 1) as nat;
        lemma_pair_starts(n);
        lemma_pair_start_value(n);
        assert(n * (n - 1) <= 31 * 30) by (nonlinear_arith)
            requires
                1 <= n <= 31,
        ;
        let s = pair_start(n);
        let t = a + k;
        if t > 0 {
            lemma_right_leg(k, s, t);
        }
        let i = (s + t) as nat;
        assert(spiral(i).0 == a && spiral(i).1 == b);
    } else if a >= 1 && 1 - a <= b <= a {
        let k = a - 1;
        let n = (2 * k + 1) as nat;
        lemma_pair_starts(n);
        lemma_pair_start_value(n);
        assert(n * (n - 1) <= 31 * 30) by (nonlinear_arith)
            requires
                1 <= n <= 31,
        ;
        let s = pair_start(n);
        lemma_right_leg(k, s, n as int);
        let t = b + k;
        if t > 0 {
            lemma_down_leg(k, (s + n) as nat, t);
        }
        let i = (s + n + t) as nat;
        assert(spiral(i).0 == a && spiral(i).1 == b);
    } else if b >= 1 && -b <= a <= b {
        let m = b;
        let n = (2 * m) as nat;
        lemma_pair_starts(n);
        lemma_pair_start_value(n);
        assert(n * (n - 1) <= 32 * 31) by (nonlinear_arith)
            requires
                2 <= n <= 32,
        ;
        assert(n <= 30 ==> n * (n - 1) <= 30 * 29) by (nonlinear_arith)
            requires
                2 <= n,
        ;
        let s = pair_start(n);
        let t = m - a;
        if t > 0 {
            lemma_left_leg(m, s, t);
        }
        let i = (s + t) as nat;
        assert(spiral(i).0 == a && spiral(i).1 == b);
    } else {
        let m = -a;
        assert(1 <= m <= 15 && -m <= b <= m);
        let n = (2 * m) as nat;
        lemma_pair_starts(n);
        lemma_pair_start_value(n);
        assert(n * (n - 1) <= 30 * 29) by (nonlinear_arith)
            requires
                2 <= n <= 30,
        ;
        let s = pair_start(n);
        lemma_left_leg(m, s, n as int);
        let t = m - b;
        if t > 0 {
            lemma_up_leg(m, (s + n) as nat, t);
        }
        let i = (s + n + t) as nat;
        assert(spiral(i).0 == a && spiral(i).1 == b);
    }
}

/// `displace` finds a spot whenever some loaded pixel at an offset from -15
/// to 16 on both axes is air: one of the 1024 spiral steps it scans hits it.
pub proof fn lemma_displace_finds_air(m: Map<u32, ServerChunk>, x: int, y: int, a: int, b: int)
    requires
        -15 <= a <= 16,
        -15 <= b <= 16,
        world_get(m, x + a, y + b) matches Some(p) && p.physics == PhysicsType::Air,
    ensures
        exists|i: nat| i < 1024 && #[trigger] displace_hit(m, x, y, i),
{
    lemma_spiral_covers(a, b);
    let i = choose|i: nat| i < 1024 && (#[trigger] spiral(i)).0 == a && spiral(i).1 == b;
    assert(displace_hit(m, x, y, i));
}

} // verus!
