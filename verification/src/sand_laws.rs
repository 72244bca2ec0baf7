//! Laws of the sand rule on one pixel: where a sand pixel goes, in terms of
//! what the neighborhood holds.

use vstd::prelude::*;

use crate::material::{spec_air, MaterialInstance, PhysicsType};
use crate::simulator::{area, local_ok, nb_chunk, nb_offset, nb_pixel, sim_pixel, SimModel};

verus! {

/// Every local pixel of the neighborhood but `(a, b)` holds in `m1` what it
/// holds in `m0`.
pub open spec fn same_except(m0: SimModel, m1: SimModel, a: int, b: int) -> bool {
    forall|p: int, q: int| local_ok(p, q) && (p != a || q != b) ==> #[trigger] m1.get(p, q) == m0.get(p, q)
}

/// Whether local pixel `(x, y)` holds air.
pub open spec fn is_air(m: SimModel, x: int, y: int) -> bool {
    m.get(x, y).physics == PhysicsType::Air
}

/// Two local pixels of the neighborhood never share a place in the pixel array.
proof fn lemma_nb_offset_injective(a: int, b: int, c: int, d: int)
    requires
        local_ok(a, b),
        local_ok(c, d),
        nb_offset(a, b) == nb_offset(c, d),
    ensures
        a == c && b == d,
{
    let (ca, pa) = (nb_chunk(a, b), nb_pixel(a, b));
    let (cc, pc) = (nb_chunk(c, d), nb_pixel(c, d));
    assert(0 <= pa < 16384 && 0 <= pc < 16384) by (nonlinear_arith)
        requires
            0 <= a % 128 < 128,
            0 <= b % 128 < 128,
            0 <= c % 128 < 128,
            0 <= d % 128 < 128,
            pa == a % 128 + (b % 128) * 128,
            pc == c % 128 + (d % 128) * 128,
    ;
    assert(ca == cc && pa == pc) by (nonlinear_arith)
        requires
            ca * 16384 + pa == cc * 16384 + pc,
            0 <= pa < 16384,
            0 <= pc < 16384,
    ;
    assert(a % 128 == c % 128 && b % 128 == d % 128) by (nonlinear_arith)
        requires
            a % 128 + (b % 128) * 128 == c % 128 + (d % 128) * 128,
            0 <= a % 128 < 128,
            0 <= b % 128 < 128,
            0 <= c % 128 < 128,
            0 <= d % 128 < 128,
    ;
    assert(-1 <= a / 128 <= 1 && -1 <= c / 128 <= 1 && -1 <= b / 128 <= 1 && -1 <= d / 128 <= 1);
    assert(a / 128 == c / 128 && b / 128 == d / 128);
    assert(a == 128 * (a / 128) + a % 128);
    assert(c == 128 * (c / 128) + c % 128);
    assert(b == 128 * (b / 128) + b % 128);
    assert(d == 128 * (d / 128) + d % 128);
}

/// Putting `v` on a pixel makes it hold `v`, keeps every other pixel and
/// the particles.
proof fn lemma_put_frame(m: SimModel, x: int, y: int, v: MaterialInstance)
    requires
        m.pixels.len() == 9 * area(),
        local_ok(x, y),
    ensures
        m.put(x, y, v).get(x, y) == v,
        same_except(m, m.put(x, y, v), x, y),
        m.put(x, y, v).particles == m.particles,
{
    assert(0 <= nb_pixel(x, y) < 16384) by (nonlinear_arith)
        requires
            0 <= x % 128 < 128,
            0 <= y % 128 < 128,
    ;
    assert forall|p: int, q: int| local_ok(p, q) && (p != x || q != y) implies #[trigger] m.put(x, y, v).get(p, q)
        == m.get(p, q) by {
        if nb_offset(p, q) == nb_offset(x, y) {
            lemma_nb_offset_injective(p, q, x, y);
        }
    }
}

/// The sand rule on a pixel `(x, y)` of the center chunk holding `cur`, as
/// `sim_pixel` gives it (the result `r` is what `(x, y)` itself becomes):
/// - anything but sand stays, and nothing changes;
/// - sand with no air below it nor on either lower diagonal stays;
/// - sand with solid ground below slides to the lower diagonal that is air,
///   to the one the `right` roll picks when both are, leaving air behind;
/// - with air below, sand falls (when no diagonal is free or the `fall`
///   roll says so): onto the pixel below, or, with four more pixels of air
///   under that, off as a particle at its world position; otherwise it
///   slides as above.
/// In every move only the target pixel changes, besides `(x, y)` itself,
/// and it takes the sand's color.
pub proof fn lemma_sand_rule(
    m: SimModel,
    x: int,
    y: int,
    cur: MaterialInstance,
    chunk_x: int,
    chunk_y: int,
    fall: bool,
    right: bool,
)
    requires
        m.wf(),
        0 <= x < 128,
        0 <= y < 128,
    ensures
        ({
            let (m1, r) = sim_pixel(m, x, y, cur, chunk_x, chunk_y, fall, right);
            let below = is_air(m, x, y + 1);
            let bl = is_air(m, x - 1, y + 1);
            let br = is_air(m, x + 1, y + 1);
            let slides = cur.physics == PhysicsType::Sand && (bl || br) && (!below || !fall);
            &&& cur.physics != PhysicsType::Sand ==> r is None && m1 == m
            &&& cur.physics == PhysicsType::Sand && !below && !bl && !br ==> r is None && m1 == m
            &&& slides && bl && !br ==> {
                &&& r == Some(spec_air())
                &&& m1.get(x - 1, y + 1) == cur
                &&& m1.get_color(x - 1, y + 1) == cur.color
                &&& same_except(m, m1, x - 1, y + 1)
                &&& m1.particles == m.particles
            }
            &&& slides && br && !bl ==> {
                &&& r == Some(spec_air())
                &&& m1.get(x + 1, y + 1) == cur
                &&& m1.get_color(x + 1, y + 1) == cur.color
                &&& same_except(m, m1, x + 1, y + 1)
                &&& m1.particles == m.particles
            }
            &&& slides && bl && br && right ==> {
                &&& r == Some(spec_air())
                &&& m1.get(x + 1, y + 1) == cur
                &&& m1.get_color(x + 1, y + 1) == cur.color
                &&& same_except(m, m1, x + 1, y + 1)
                &&& m1.particles == m.particles
            }
            &&& slides && bl && br && !right ==> {
                &&& r == Some(spec_air())
                &&& m1.get(x - 1, y + 1) == cur
                &&& m1.get_color(x - 1, y + 1) == cur.color
                &&& same_except(m, m1, x - 1, y + 1)
                &&& m1.particles == m.particles
            }
            &&& cur.physics == PhysicsType::Sand && below && (fall || (!bl && !br)) ==> {
                let drops = is_air(m, x, y + 2) && is_air(m, x, y + 3) && is_air(m, x, y + 4) && is_air(m, x, y + 5);
                &&& r == Some(spec_air())
                &&& drops ==> m1.pixels == m.pixels && m1.particles == m.particles.push(
                    (cur, x + 128 * chunk_x, y + 128 * chunk_y),
                )
                &&& !drops ==> m1.get(x, y + 1) == cur && m1.get_color(x, y + 1) == cur.color && same_except(m, m1, x, y + 1) && m1.particles
                    == m.particles
            }
        }),
{
    lemma_put_frame(m, x - 1, y + 1, cur);
    lemma_put_frame(m, x + 1, y + 1, cur);
    lemma_put_frame(m, x, y + 1, cur);
    assert(m.add_particle(cur, x, y, chunk_x, chunk_y).particles == m.particles.push(
        (cur, x + 128 * chunk_x, y + 128 * chunk_y),
    ));
}

} // verus!
