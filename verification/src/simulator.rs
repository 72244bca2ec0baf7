use vstd::prelude::*;

use crate::chunk::rect_in_chunk;
use crate::material::{spec_air, Color, MaterialInstance, PhysicsType};
use crate::rect::Rect;

verus! {

/// Number of pixels in a chunk.
pub open spec fn area() -> int {
    16384
}

/// Whether `(x, y)`, in coordinates local to the center chunk, lies in the
/// 3x3 neighborhood of chunks around it.
pub open spec fn local_ok(x: int, y: int) -> bool {
    -128 <= x < 256 && -128 <= y < 256
}

/// Which of the nine chunks of the neighborhood holds local pixel `(x, y)`
/// (row by row from the top-left one; the center one is 4).
pub open spec fn nb_chunk(x: int, y: int) -> int {
    (x / 128 + 1) + (y / 128 + 1) * 3
}

/// Where local pixel `(x, y)` sits within its chunk.
pub open spec fn nb_pixel(x: int, y: int) -> int {
    x % 128 + (y % 128) * 128
}

/// Where local pixel `(x, y)` sits in the neighborhood's pixel array.
pub open spec fn nb_offset(x: int, y: int) -> int {
    nb_chunk(x, y) * area() + nb_pixel(x, y)
}

/// "No pixel written yet" marker for the bounds kept per chunk.
pub open spec fn unset_bound() -> u16 {
    129
}

/// The state of a simulation over a 3x3 neighborhood of chunks: the pixels
/// and RGBA colors of the nine chunks (one after the other), which chunks had
/// colors written, the bounds of the pixels written in each chunk, and the
/// particles spawned (material and world position).
pub struct SimModel {
    pub pixels: Seq<MaterialInstance>,
    pub colors: Seq<u8>,
    pub dirty: Seq<bool>,
    pub min_x: Seq<u16>,
    pub min_y: Seq<u16>,
    pub max_x: Seq<u16>,
    pub max_y: Seq<u16>,
    pub particles: Seq<(MaterialInstance, int, int)>,
}

impl SimModel {
    pub open spec fn wf(self) -> bool {
        &&& self.pixels.len() == 9 * area()
        &&& self.colors.len() == 36 * area()
        &&& self.dirty.len() == 9
        &&& self.min_x.len() == 9
        &&& self.min_y.len() == 9
        &&& self.max_x.len() == 9
        &&& self.max_y.len() == 9
        &&& forall|i: int|
            0 <= i < 9 ==> {
                &&& (self.min_x[i] == unset_bound()) == (self.min_y[i] == unset_bound())
                &&& self.max_x[i] < 128
                &&& self.max_y[i] < 128
                &&& (self.min_x[i] != unset_bound() ==> self.min_x[i] <= self.max_x[i] && self.min_y[i]
                    <= self.max_y[i])
            }
    }

    pub open spec fn get(self, x: int, y: int) -> MaterialInstance {
        self.pixels[nb_offset(x, y)]
    }

    pub open spec fn get_color(self, x: int, y: int) -> Color {
        let o = 4 * nb_offset(x, y);
        Color { r: self.colors[o], g: self.colors[o + 1], b: self.colors[o + 2], a: self.colors[o + 3] }
    }

    /// Writes a pixel and widens the written bounds of its chunk.
    pub open spec fn set_pixel(self, x: int, y: int, mat: MaterialInstance) -> SimModel {
        let ch = nb_chunk(x, y);
        let cx = (x % 128) as u16;
        let cy = (y % 128) as u16;
        SimModel {
            pixels: self.pixels.update(nb_offset(x, y), mat),
            min_x: self.min_x.update(ch, if cx < self.min_x[ch] { cx } else { self.min_x[ch] }),
            min_y: self.min_y.update(ch, if cy < self.min_y[ch] { cy } else { self.min_y[ch] }),
            max_x: self.max_x.update(ch, if cx > self.max_x[ch] { cx } else { self.max_x[ch] }),
            max_y: self.max_y.update(ch, if cy > self.max_y[ch] { cy } else { self.max_y[ch] }),
            ..self
        }
    }

    /// Writes a pixel's color and marks its chunk's colors as changed.
    pub open spec fn set_color(self, x: int, y: int, c: Color) -> SimModel {
        let o = 4 * nb_offset(x, y);
        SimModel {
            colors: self.colors.update(o, c.r).update(o + 1, c.g).update(o + 2, c.b).update(o + 3, c.a),
            dirty: self.dirty.update(nb_chunk(x, y), true),
            ..self
        }
    }

    /// Puts a material, with its color, at a pixel.
    pub open spec fn put(self, x: int, y: int, mat: MaterialInstance) -> SimModel {
        self.set_color(x, y, mat.color).set_pixel(x, y, mat)
    }

    /// Records a particle spawned at local pixel `(x, y)` of the center chunk
    /// `(chunk_x, chunk_y)`, at its world position.
    pub open spec fn add_particle(self, mat: MaterialInstance, x: int, y: int, chunk_x: int, chunk_y: int) -> SimModel {
        SimModel { particles: self.particles.push((mat, x + chunk_x * 128, y + chunk_y * 128)), ..self }
    }
}

/// Changing anything but the written bounds, keeping the lengths, keeps a
/// model well formed.
proof fn lemma_model_frame(m0: SimModel, m1: SimModel)
    requires
        m0.wf(),
        m1.pixels.len() == m0.pixels.len(),
        m1.colors.len() == m0.colors.len(),
        m1.dirty.len() == m0.dirty.len(),
        m1.min_x == m0.min_x,
        m1.min_y == m0.min_y,
        m1.max_x == m0.max_x,
        m1.max_y == m0.max_y,
    ensures
        m1.wf(),
{
}

/// Writing a pixel keeps a model well formed.
proof fn lemma_set_pixel_wf(m: SimModel, x: int, y: int, mat: MaterialInstance)
    requires
        m.wf(),
        local_ok(x, y),
    ensures
        m.set_pixel(x, y, mat).wf(),
{
    let m1 = m.set_pixel(x, y, mat);
    let ch = nb_chunk(x, y);
    assert(0 <= ch < 9);
    assert(0 <= nb_pixel(x, y) < 16384) by (nonlinear_arith)
        requires
            0 <= x % 128 < 128,
            0 <= y % 128 < 128,
    ;
    assert forall|i: int| 0 <= i < 9 implies {
        &&& (m1.min_x[i] == unset_bound()) == (m1.min_y[i] == unset_bound())
        &&& m1.max_x[i] < 128
        &&& m1.max_y[i] < 128
        &&& (m1.min_x[i] != unset_bound() ==> m1.min_x[i] <= m1.max_x[i] && m1.min_y[i] <= m1.max_y[i])
    } by {
        if i != ch {
            assert(m1.min_x[i] == m.min_x[i]);
            assert(m1.min_y[i] == m.min_y[i]);
            assert(m1.max_x[i] == m.max_x[i]);
            assert(m1.max_y[i] == m.max_y[i]);
        }
    }
}

/// One pixel of the sand rule. A sand pixel falls straight down when the pixel
/// below is air and either both lower diagonals are blocked or the `fall` roll
/// says so; falling onto four more pixels of air it leaves as a particle
/// instead. Otherwise it slides to a free lower diagonal (the `right` roll picks
/// when both are free). Returns what the pixel itself becomes, if it changes.
pub open spec fn sim_pixel(
    m: SimModel,
    x: int,
    y: int,
    cur: MaterialInstance,
    chunk_x: int,
    chunk_y: int,
    fall: bool,
    right: bool,
) -> (SimModel, Option<MaterialInstance>) {
    if cur.physics != PhysicsType::Sand {
        (m, None)
    } else {
        let below_can = m.get(x, y + 1).physics == PhysicsType::Air;
        let bl_can = m.get(x - 1, y + 1).physics == PhysicsType::Air;
        let br_can = m.get(x + 1, y + 1).physics == PhysicsType::Air;
        if below_can && (!(br_can || bl_can) || fall) {
            let empty_below = m.get(x, y + 2).physics == PhysicsType::Air && m.get(x, y + 3).physics
                == PhysicsType::Air && m.get(x, y + 4).physics == PhysicsType::Air && m.get(x, y + 5).physics
                == PhysicsType::Air;
            if empty_below {
                (m.add_particle(cur, x, y, chunk_x, chunk_y), Some(spec_air()))
            } else {
                (m.put(x, y + 1, cur), Some(spec_air()))
            }
        } else if bl_can && br_can {
            if right {
                (m.put(x + 1, y + 1, cur), Some(spec_air()))
            } else {
                (m.put(x - 1, y + 1, cur), Some(spec_air()))
            }
        } else if bl_can {
            (m.put(x - 1, y + 1, cur), Some(spec_air()))
        } else if br_can {
            (m.put(x + 1, y + 1, cur), Some(spec_air()))
        } else {
            (m, None)
        }
    }
}

/// Simulates one pixel and writes back what it becomes.
pub open spec fn sim_step(m: SimModel, x: int, y: int, chunk_x: int, chunk_y: int, roll: (bool, bool)) -> SimModel {
    let cur = m.get(x, y);
    let (m2, res) = sim_pixel(m, x, y, cur, chunk_x, chunk_y, roll.0, roll.1);
    match res {
        Some(mat) => m2.put(x, y, mat),
        None => m2,
    }
}

/// The `t`-th pixel visited in rectangle `r`: rows from the bottom one up,
/// each row from left to right.
pub open spec fn visit_pos(r: Rect<i32>, t: int) -> (int, int) {
    let w = r.x2 - r.x1;
    (r.x1 + t % w, r.y2 - 1 - t / w)
}

/// The number of pixels in rectangle `r`.
pub open spec fn rect_area(r: Rect<i32>) -> int {
    (r.x2 - r.x1) * (r.y2 - r.y1)
}

/// The simulation of the first `rolls.len()` pixels of rectangle `r`, with
/// the random rolls drawn for each.
pub open spec fn sim_pass(m: SimModel, r: Rect<i32>, chunk_x: int, chunk_y: int, rolls: Seq<(bool, bool)>) -> SimModel
    decreases rolls.len(),
{
    if rolls.len() == 0 {
        m
    } else {
        let t = rolls.len() - 1;
        let p = visit_pos(r, t);
        sim_step(sim_pass(m, r, chunk_x, chunk_y, rolls.drop_last()), p.0, p.1, chunk_x, chunk_y, rolls.last())
    }
}

/// The materials of the particles a model records, in order.
pub open spec fn particle_mats(p: Seq<(MaterialInstance, int, int)>) -> Seq<MaterialInstance> {
    p.map_values(|q: (MaterialInstance, int, int)| q.0)
}

/// The materials of a list of spawned particles, in order.
pub open spec fn spawned_mats(p: Seq<(MaterialInstance, i64, i64)>) -> Seq<MaterialInstance> {
    p.map_values(|q: (MaterialInstance, i64, i64)| q.0)
}

/// How many pixels of the neighborhood, plus particles, hold exactly `mat`.
pub open spec fn mass_of(m: SimModel, mat: MaterialInstance) -> int {
    (m.pixels.to_multiset().count(mat) + particle_mats(m.particles).to_multiset().count(mat)) as int
}

proof fn lemma_nb_offset_bounds(x: int, y: int)
    requires
        local_ok(x, y),
    ensures
        0 <= nb_offset(x, y) < 9 * area(),
{
    assert(0 <= nb_pixel(x, y) < 16384) by (nonlinear_arith)
        requires
            0 <= x % 128 < 128,
            0 <= y % 128 < 128,
    ;
}

/// Putting `v` on a pixel changes how many pixels hold `t` by what comes in
/// and what goes out, and leaves the particles alone.
proof fn lemma_put_count(m: SimModel, x: int, y: int, v: MaterialInstance, t: MaterialInstance)
    requires
        m.pixels.len() == 9 * area(),
        local_ok(x, y),
    ensures
        m.put(x, y, v).pixels.len() == 9 * area(),
        m.put(x, y, v).particles == m.particles,
        m.put(x, y, v).get(x, y) == v,
        m.put(x, y, v).pixels.to_multiset().count(t) == m.pixels.to_multiset().count(t) + (if v == t {
            1int
        } else {
            0int
        }) - (if m.get(x, y) == t {
            1int
        } else {
            0int
        }),
{
    broadcast use vstd::multiset::group_multiset_axioms;

    lemma_nb_offset_bounds(x, y);
    let i = nb_offset(x, y);
    vstd::seq_lib::to_multiset_update(m.pixels, i, v);
    vstd::seq_lib::to_multiset_contains(m.pixels, m.pixels[i]);
    assert(m.pixels.contains(m.pixels[i]));
}

/// Moving a non-air pixel onto an air pixel keeps every non-air count.
proof fn lemma_move_conserves(m: SimModel, x: int, y: int, dx: int, dy: int, t: MaterialInstance)
    requires
        m.pixels.len() == 9 * area(),
        local_ok(x, y),
        local_ok(dx, dy),
        m.get(x, y).physics != PhysicsType::Air,
        m.get(dx, dy).physics == PhysicsType::Air,
        t.physics != PhysicsType::Air,
    ensures
        m.put(dx, dy, m.get(x, y)).put(x, y, spec_air()).pixels.len() == 9 * area(),
        mass_of(m.put(dx, dy, m.get(x, y)).put(x, y, spec_air()), t) == mass_of(m, t),
{
    let cur = m.get(x, y);
    let m2 = m.put(dx, dy, cur);
    lemma_put_count(m, dx, dy, cur, t);
    lemma_nb_offset_bounds(x, y);
    lemma_nb_offset_bounds(dx, dy);
    assert(m2.get(x, y) == cur);
    lemma_put_count(m2, x, y, spec_air(), t);
}

/// Turning a non-air pixel into a particle keeps every non-air count.
proof fn lemma_spawn_conserves(m: SimModel, x: int, y: int, chunk_x: int, chunk_y: int, t: MaterialInstance)
    requires
        m.pixels.len() == 9 * area(),
        local_ok(x, y),
        t.physics != PhysicsType::Air,
    ensures
        m.add_particle(m.get(x, y), x, y, chunk_x, chunk_y).put(x, y, spec_air()).pixels.len() == 9 * area(),
        mass_of(m.add_particle(m.get(x, y), x, y, chunk_x, chunk_y).put(x, y, spec_air()), t) == mass_of(m, t),
{
    broadcast use vstd::multiset::group_multiset_axioms;

    let cur = m.get(x, y);
    let m2 = m.add_particle(cur, x, y, chunk_x, chunk_y);
    let e = (cur, x + chunk_x * 128, y + chunk_y * 128);
    assert(particle_mats(m.particles.push(e)) =~= particle_mats(m.particles).push(cur));
    vstd::seq_lib::to_multiset_build(particle_mats(m.particles), cur);
    lemma_put_count(m2, x, y, spec_air(), t);
}

/// One step of the sand rule keeps every non-air count.
proof fn lemma_sim_step_conserves(
    m: SimModel,
    x: int,
    y: int,
    chunk_x: int,
    chunk_y: int,
    roll: (bool, bool),
    t: MaterialInstance,
)
    requires
        m.pixels.len() == 9 * area(),
        0 <= x < 128,
        0 <= y < 128,
        t.physics != PhysicsType::Air,
    ensures
        sim_step(m, x, y, chunk_x, chunk_y, roll).pixels.len() == 9 * area(),
        mass_of(sim_step(m, x, y, chunk_x, chunk_y, roll), t) == mass_of(m, t),
{
    let cur = m.get(x, y);
    if cur.physics == PhysicsType::Sand {
        let below_can = m.get(x, y + 1).physics == PhysicsType::Air;
        let bl_can = m.get(x - 1, y + 1).physics == PhysicsType::Air;
        let br_can = m.get(x + 1, y + 1).physics == PhysicsType::Air;
        if below_can && (!(br_can || bl_can) || roll.0) {
            let empty_below = m.get(x, y + 2).physics == PhysicsType::Air && m.get(x, y + 3).physics
                == PhysicsType::Air && m.get(x, y + 4).physics == PhysicsType::Air && m.get(x, y + 5).physics
                == PhysicsType::Air;
            if empty_below {
                lemma_spawn_conserves(m, x, y, chunk_x, chunk_y, t);
            } else {
                lemma_move_conserves(m, x, y, x, y + 1, t);
            }
        } else if bl_can && br_can {
            if roll.1 {
                lemma_move_conserves(m, x, y, x + 1, y + 1, t);
            } else {
                lemma_move_conserves(m, x, y, x - 1, y + 1, t);
            }
        } else if bl_can {
            lemma_move_conserves(m, x, y, x - 1, y + 1, t);
        } else if br_can {
            lemma_move_conserves(m, x, y, x + 1, y + 1, t);
        }
    }
}

/// Every pixel a pass visits lies in its rectangle.
proof fn lemma_visit_pos_in_rect(r: Rect<i32>, t: int)
    requires
        rect_in_chunk(r),
        0 <= t < rect_area(r),
    ensures
        r.x1 <= visit_pos(r, t).0 < r.x2,
        r.y1 <= visit_pos(r, t).1 < r.y2,
{
    let w = r.x2 - r.x1;
    let h = r.y2 - r.y1;
    assert(w > 0 && t / w < h) by (nonlinear_arith)
        requires
            0 <= t < w * h,
            w >= 0,
            h >= 0,
    ;
}

/// A pass over a rectangle of the center chunk keeps every non-air count.
proof fn lemma_sim_pass_conserves(
    m: SimModel,
    r: Rect<i32>,
    chunk_x: int,
    chunk_y: int,
    rolls: Seq<(bool, bool)>,
    t: MaterialInstance,
)
    requires
        m.pixels.len() == 9 * area(),
        rect_in_chunk(r),
        rolls.len() <= rect_area(r),
        t.physics != PhysicsType::Air,
    ensures
        sim_pass(m, r, chunk_x, chunk_y, rolls).pixels.len() == 9 * area(),
        mass_of(sim_pass(m, r, chunk_x, chunk_y, rolls), t) == mass_of(m, t),
    decreases rolls.len(),
{
    if rolls.len() > 0 {
        let n = rolls.len() - 1;
        lemma_sim_pass_conserves(m, r, chunk_x, chunk_y, rolls.drop_last(), t);
        lemma_visit_pos_in_rect(r, n);
        let p = visit_pos(r, n);
        lemma_sim_step_conserves(
            sim_pass(m, r, chunk_x, chunk_y, rolls.drop_last()),
            p.0,
            p.1,
            chunk_x,
            chunk_y,
            rolls.last(),
            t,
        );
    }
}

/// The rectangle of pixels written in chunk `i`, if any.
pub open spec fn written_rect(m: SimModel, i: int) -> Option<Rect<i32>> {
    if m.min_x[i] == unset_bound() {
        None
    } else {
        Some(
            Rect {
                x1: m.min_x[i] as i32,
                y1: m.min_y[i] as i32,
                x2: (m.max_x[i] + 1) as i32,
                y2: (m.max_y[i] + 1) as i32,
            },
        )
    }
}

/// A draw of `rand::random::<u32>()`; nothing is known of its value.
#[verifier::external_body]
fn random_u32() -> (r: u32) {
    rand::random::<u32>()
}

/// A draw of `rand::random::<bool>()`; nothing is known of its value.
#[verifier::external_body]
fn random_bool() -> (r: bool) {
    rand::random::<bool>()
}

/// Whether a draw of a `u32` counts as the 90% chance that sand falls straight
/// down though a diagonal is free.
pub open spec fn fall_roll(v: u32) -> bool {
    v > 429496729
}

/// The pixels and colors of a 3x3 neighborhood of chunks under simulation,
/// with what the simulation has written so far.
pub struct SimulationHelperChunk {
    pub pixels: Vec<MaterialInstance>,
    pub colors: Vec<u8>,
    pub dirty: Vec<bool>,
    pub min_x: Vec<u16>,
    pub min_y: Vec<u16>,
    pub max_x: Vec<u16>,
    pub max_y: Vec<u16>,
    pub particles: Vec<(MaterialInstance, i64, i64)>,
    pub chunk_x: i32,
    pub chunk_y: i32,
}

impl SimulationHelperChunk {
    pub open spec fn model(&self) -> SimModel {
        SimModel {
            pixels: self.pixels@,
            colors: self.colors@,
            dirty: self.dirty@,
            min_x: self.min_x@,
            min_y: self.min_y@,
            max_x: self.max_x@,
            max_y: self.max_y@,
            particles: self.particles@.map_values(|p: (MaterialInstance, i64, i64)| (p.0, p.1 as int, p.2 as int)),
        }
    }

    pub open spec fn wf(&self) -> bool {
        &&& self.model().wf()
    }

    /// (chunk of the neighborhood, pixel in that chunk, x in that chunk, y in that chunk)
    fn local_to_indices(x: i32, y: i32) -> (r: (usize, usize, u16, u16))
        requires
            local_ok(x as int, y as int),
        ensures
            r.0 == nb_chunk(x as int, y as int),
            r.1 == nb_pixel(x as int, y as int),
            r.2 == x as int % 128,
            r.3 == y as int % 128,
            0 <= r.0 < 9,
            0 <= r.1 < area(),
            r.2 < 128,
            r.3 < 128,
    {
        let rel_chunk_x: i32 = if x < 0 {
            -1
        } else if x < 128 {
            0
        } else {
            1
        };
        let rel_chunk_y: i32 = if y < 0 {
            -1
        } else if y < 128 {
            0
        } else {
            1
        };
        let chunk_px_x = (x - rel_chunk_x * 128) as u16;
        let chunk_px_y = (y - rel_chunk_y * 128) as u16;
        proof {
            assert(rel_chunk_x == x as int / 128);
            assert(rel_chunk_y == y as int / 128);
            assert(chunk_px_y * 128 <= 127 * 128) by (nonlinear_arith)
                requires
                    chunk_px_y < 128,
            ;
        }
        (
            ((rel_chunk_x + 1) + (rel_chunk_y + 1) * 3) as usize,
            (chunk_px_x + chunk_px_y * 128) as usize,
            chunk_px_x,
            chunk_px_y,
        )
    }

    pub fn get_pixel_local(&self, x: i32, y: i32) -> (r: MaterialInstance)
        requires
            self.wf(),
            local_ok(x as int, y as int),
        ensures
            r == self.model().get(x as int, y as int),
    {
        let (ch, px, _, _) = Self::local_to_indices(x, y);
        self.pixels[ch * 16384 + px]
    }

    pub fn set_pixel_local(&mut self, x: i32, y: i32, mat: MaterialInstance)
        requires
            old(self).wf(),
            local_ok(x as int, y as int),
        ensures
            final(self).wf(),
            final(self).model() == old(self).model().set_pixel(x as int, y as int, mat),
            final(self).chunk_x == old(self).chunk_x,
            final(self).chunk_y == old(self).chunk_y,
    {
        let (ch, px, ch_x, ch_y) = Self::local_to_indices(x, y);
        self.pixels.set(ch * 16384 + px, mat);
        let mnx = self.min_x[ch];
        let mny = self.min_y[ch];
        let mxx = self.max_x[ch];
        let mxy = self.max_y[ch];
        self.min_x.set(ch, if ch_x < mnx { ch_x } else { mnx });
        self.min_y.set(ch, if ch_y < mny { ch_y } else { mny });
        self.max_x.set(ch, if ch_x > mxx { ch_x } else { mxx });
        self.max_y.set(ch, if ch_y > mxy { ch_y } else { mxy });
        assert(self.model() =~= old(self).model().set_pixel(x as int, y as int, mat));
        proof {
            lemma_set_pixel_wf(old(self).model(), x as int, y as int, mat);
        }
    }

    pub fn get_color_local(&self, x: i32, y: i32) -> (r: Color)
        requires
            self.wf(),
            local_ok(x as int, y as int),
        ensures
            r == self.model().get_color(x as int, y as int),
    {
        let (ch, px, _, _) = Self::local_to_indices(x, y);
        let o = (ch * 16384 + px) * 4;
        Color { r: self.colors[o], g: self.colors[o + 1], b: self.colors[o + 2], a: self.colors[o + 3] }
    }

    pub fn set_color_local(&mut self, x: i32, y: i32, col: Color)
        requires
            old(self).wf(),
            local_ok(x as int, y as int),
        ensures
            final(self).wf(),
            final(self).model() == old(self).model().set_color(x as int, y as int, col),
            final(self).chunk_x == old(self).chunk_x,
            final(self).chunk_y == old(self).chunk_y,
    {
        let (ch, px, _, _) = Self::local_to_indices(x, y);
        let o = (ch * 16384 + px) * 4;
        self.colors.set(o, col.r);
        self.colors.set(o + 1, col.g);
        self.colors.set(o + 2, col.b);
        self.colors.set(o + 3, col.a);
        self.dirty.set(ch, true);
        assert(self.model() =~= old(self).model().set_color(x as int, y as int, col));
        proof {
            lemma_model_frame(old(self).model(), self.model());
        }
    }

    /// Puts a material, with its color, at a pixel.
    fn put(&mut self, x: i32, y: i32, mat: MaterialInstance)
        requires
            old(self).wf(),
            local_ok(x as int, y as int),
        ensures
            final(self).wf(),
            final(self).model() == old(self).model().put(x as int, y as int, mat),
            final(self).chunk_x == old(self).chunk_x,
            final(self).chunk_y == old(self).chunk_y,
    {
        self.set_color_local(x, y, mat.color);
        self.set_pixel_local(x, y, mat);
    }

    /// Records a particle spawned at local pixel `(x, y)`, at its world position.
    pub fn add_particle(&mut self, material: MaterialInstance, x: i32, y: i32)
        requires
            old(self).wf(),
            local_ok(x as int, y as int),
        ensures
            final(self).wf(),
            final(self).model() == old(self).model().add_particle(
                material,
                x as int,
                y as int,
                old(self).chunk_x as int,
                old(self).chunk_y as int,
            ),
            final(self).chunk_x == old(self).chunk_x,
            final(self).chunk_y == old(self).chunk_y,
    {
        let wx: i64 = x as i64 + self.chunk_x as i64 * 128;
        let wy: i64 = y as i64 + self.chunk_y as i64 * 128;
        self.particles.push((material, wx, wy));
        assert(self.model().particles =~= old(self).model().particles.push(
            (material, x as int + old(self).chunk_x * 128, y as int + old(self).chunk_y * 128),
        ));
        proof {
            lemma_model_frame(old(self).model(), self.model());
        }
    }

    /// The rectangle of pixels written in each of the nine chunks.
    fn finish_dirty_rects(&self) -> (r: Vec<Option<Rect<i32>>>)
        requires
            self.wf(),
        ensures
            r@.len() == 9,
            forall|i: int| 0 <= i < 9 ==> r@[i] == written_rect(self.model(), i),
            forall|i: int| 0 <= i < 9 ==> (#[trigger] r@[i] matches Some(q) ==> rect_in_chunk(q)),
    {
        let mut r: Vec<Option<Rect<i32>>> = Vec::new();
        let mut i: usize = 0;
        while i < 9
            invariant
                0 <= i <= 9,
                self.wf(),
                r@.len() == i,
                forall|j: int| 0 <= j < i ==> r@[j] == written_rect(self.model(), j),
            decreases 9 - i,
        {
            if self.min_x[i] == 129 {
                r.push(None);
            } else {
                let mnx = self.min_x[i];
                let mny = self.min_y[i];
                let w = self.max_x[i] - mnx + 1;
                let h = self.max_y[i] - mny + 1;
                r.push(Some(Rect::new_wh(mnx as i32, mny as i32, w as i32, h as i32)));
            }
            i = i + 1;
        }
        r
    }
}

/// The model a simulation starts from: the given pixels, colors, dirty
/// flags and particles, with no pixel written yet.
pub open spec fn start_model(
    pixels: Seq<MaterialInstance>,
    colors: Seq<u8>,
    dirty: Seq<bool>,
    particles: Seq<(MaterialInstance, i64, i64)>,
) -> SimModel {
    SimModel {
        pixels,
        colors,
        dirty,
        min_x: Seq::new(9, |i: int| unset_bound()),
        min_y: Seq::new(9, |i: int| unset_bound()),
        max_x: Seq::new(9, |i: int| 0u16),
        max_y: Seq::new(9, |i: int| 0u16),
        particles: particles.map_values(|p: (MaterialInstance, i64, i64)| (p.0, p.1 as int, p.2 as int)),
    }
}

/// Particles as the model records them.
pub open spec fn particles_view(p: Seq<(MaterialInstance, i64, i64)>) -> Seq<(MaterialInstance, int, int)> {
    p.map_values(|q: (MaterialInstance, i64, i64)| (q.0, q.1 as int, q.2 as int))
}

impl Simulator {
    /// Simulates the dirty rectangle of the center chunk of a 3x3
    /// neighborhood (chunk 4 of the nine, at `(chunk_x, chunk_y)`), pixel by
    /// pixel from the bottom row up, each row from left to right (see
    /// `sim_pass`), and replaces the nine dirty rectangles by the rectangles of
    /// pixels written in each chunk. Without a dirty rectangle in the center
    /// nothing is simulated and all nine become empty. No material is created
    /// or destroyed: for each non-air material, the pixels holding it plus the
    /// particles spawned with it stay as many.
    pub fn simulate_chunk(
        chunk_x: i32,
        chunk_y: i32,
        pixels: &mut Vec<MaterialInstance>,
        colors: &mut Vec<u8>,
        dirty: &mut Vec<bool>,
        dirty_rects: &mut Vec<Option<Rect<i32>>>,
        particles: &mut Vec<(MaterialInstance, i64, i64)>,
    )
        requires
            old(pixels)@.len() == 9 * area(),
            old(colors)@.len() == 36 * area(),
            old(dirty)@.len() == 9,
            old(dirty_rects)@.len() == 9,
            old(dirty_rects)@[4] matches Some(r) ==> rect_in_chunk(r),
        ensures
            final(dirty_rects)@.len() == 9,
            final(pixels)@.len() == 9 * area(),
            final(colors)@.len() == 36 * area(),
            final(dirty)@.len() == 9,
            forall|i: int| 0 <= i < 9 ==> (#[trigger] final(dirty_rects)@[i] matches Some(q) ==> rect_in_chunk(q)),
            old(dirty_rects)@[4] is None ==> {
                &&& final(pixels)@ == old(pixels)@
                &&& final(colors)@ == old(colors)@
                &&& final(dirty)@ == old(dirty)@
                &&& final(particles)@ == old(particles)@
                &&& forall|i: int| 0 <= i < 9 ==> #[trigger] final(dirty_rects)@[i] is None
            },
            old(dirty_rects)@[4] matches Some(r) ==> exists|rolls: Seq<(bool, bool)>|
                {
                    let m = #[trigger] sim_pass(
                        start_model(old(pixels)@, old(colors)@, old(dirty)@, old(particles)@),
                        r,
                        chunk_x as int,
                        chunk_y as int,
                        rolls,
                    );
                    &&& rolls.len() == rect_area(r)
                    &&& final(pixels)@ == m.pixels
                    &&& final(colors)@ == m.colors
                    &&& final(dirty)@ == m.dirty
                    &&& particles_view(final(particles)@) == m.particles
                    &&& forall|i: int| 0 <= i < 9 ==> #[trigger] final(dirty_rects)@[i] == written_rect(m, i)
                },
            forall|t: MaterialInstance|
                t.physics != PhysicsType::Air ==> #[trigger] final(pixels)@.to_multiset().count(t) + spawned_mats(
                    final(particles)@,
                ).to_multiset().count(t) == old(pixels)@.to_multiset().count(t) + spawned_mats(
                    old(particles)@,
                ).to_multiset().count(t),
    {
        let my_dirty_rect_o = dirty_rects[4];
        if my_dirty_rect_o.is_none() {
            let mut i: usize = 0;
            while i < 9
                invariant
                    0 <= i <= 9,
                    dirty_rects@.len() == 9,
                    forall|j: int| 0 <= j < i ==> #[trigger] dirty_rects@[j] is None,
                decreases 9 - i,
            {
                dirty_rects.set(i, None);
                i = i + 1;
            }
            return ;
        }
        let r = my_dirty_rect_o.unwrap();
        let mut helper = SimulationHelperChunk {
            pixels: Vec::new(),
            colors: Vec::new(),
            dirty: Vec::new(),
            min_x: nine_of(129),
            min_y: nine_of(129),
            max_x: nine_of(0),
            max_y: nine_of(0),
            particles: Vec::new(),
            chunk_x,
            chunk_y,
        };
        std::mem::swap(pixels, &mut helper.pixels);
        std::mem::swap(colors, &mut helper.colors);
        std::mem::swap(dirty, &mut helper.dirty);
        std::mem::swap(particles, &mut helper.particles);
        let ghost m0 = start_model(old(pixels)@, old(colors)@, old(dirty)@, old(particles)@);
        assert(helper.model() =~= m0);
        let ghost w = r.x2 - r.x1;
        let mut rolls: Ghost<Seq<(bool, bool)>> = Ghost(Seq::empty());
        let mut y: i32 = r.y2;
        while y > r.y1
            invariant
                rect_in_chunk(r),
                w == r.x2 - r.x1,
                r.y1 <= y <= r.y2,
                helper.wf(),
                helper.chunk_x == chunk_x,
                helper.chunk_y == chunk_y,
                rolls@.len() == (r.y2 - y) * w,
                helper.model() == sim_pass(m0, r, chunk_x as int, chunk_y as int, rolls@),
            decreases y - r.y1,
        {
            y = y - 1;
            let mut x: i32 = r.x1;
            while x < r.x2
                invariant
                    rect_in_chunk(r),
                    w == r.x2 - r.x1,
                    r.y1 <= y < r.y2,
                    r.x1 <= x <= r.x2,
                    helper.wf(),
                    helper.chunk_x == chunk_x,
                    helper.chunk_y == chunk_y,
                    rolls@.len() == (r.y2 - 1 - y) * w + (x - r.x1),
                    helper.model() == sim_pass(m0, r, chunk_x as int, chunk_y as int, rolls@),
                decreases r.x2 - x,
            {
                let ghost before = helper.model();
                let ghost t = rolls@.len() as int;
                proof {
                    vstd::arithmetic::div_mod::lemma_fundamental_div_mod_converse(
                        t,
                        w,
                        r.y2 - 1 - y,
                        x - r.x1,
                    );
                    assert(visit_pos(r, t) == (x as int, y as int));
                }
                let cur = helper.get_pixel_local(x, y);
                let res = Self::simulate_pixel(x, y, cur, &mut helper);
                let ghost roll = choose|fall: bool, right: bool|
                    (helper.model(), res) == sim_pixel(before, x as int, y as int, cur, chunk_x as int, chunk_y as int, fall, right);
                if let Some(mat) = res {
                    helper.put(x, y, mat);
                }
                proof {
                    let nr = rolls@.push(roll);
                    assert(nr.drop_last() =~= rolls@);
                    assert(helper.model() == sim_step(before, x as int, y as int, chunk_x as int, chunk_y as int, roll));
                    rolls@ = nr;
                }
                x = x + 1;
            }
            proof {
                assert((r.y2 - 1 - y) * w + w == (r.y2 - y) * w) by (nonlinear_arith);
            }
        }
        proof {
            assert((r.y2 - r.y1) * w == rect_area(r));
        }
        let new_rects = helper.finish_dirty_rects();
        let ghost mfin = helper.model();
        let mut i: usize = 0;
        while i < 9
            invariant
                0 <= i <= 9,
                dirty_rects@.len() == 9,
                new_rects@.len() == 9,
                forall|j: int| 0 <= j < i ==> #[trigger] dirty_rects@[j] == new_rects@[j],
                forall|j: int| 0 <= j < 9 ==> (#[trigger] new_rects@[j] matches Some(q) ==> rect_in_chunk(q)),
            decreases 9 - i,
        {
            dirty_rects.set(i, new_rects[i]);
            i = i + 1;
        }
        std::mem::swap(pixels, &mut helper.pixels);
        std::mem::swap(colors, &mut helper.colors);
        std::mem::swap(dirty, &mut helper.dirty);
        std::mem::swap(particles, &mut helper.particles);
        assert(particles_view(particles@) =~= mfin.particles);
        assert forall|t: MaterialInstance| t.physics != PhysicsType::Air implies #[trigger] pixels@.to_multiset().count(
            t,
        ) + spawned_mats(particles@).to_multiset().count(t) == old(pixels)@.to_multiset().count(t) + spawned_mats(
            old(particles)@,
        ).to_multiset().count(t) by {
            lemma_sim_pass_conserves(m0, r, chunk_x as int, chunk_y as int, rolls@, t);
            assert(particle_mats(m0.particles) =~= spawned_mats(old(particles)@));
            assert(particle_mats(mfin.particles) =~= spawned_mats(particles@));
        }
        assert(exists|rolls: Seq<(bool, bool)>|
            {
                let m = #[trigger] sim_pass(m0, r, chunk_x as int, chunk_y as int, rolls);
                &&& rolls.len() == rect_area(r)
                &&& pixels@ == m.pixels
                &&& colors@ == m.colors
                &&& dirty@ == m.dirty
                &&& particles_view(particles@) == m.particles
                &&& forall|i: int| 0 <= i < 9 ==> #[trigger] dirty_rects@[i] == written_rect(m, i)
            }) by {
            assert(mfin == sim_pass(m0, r, chunk_x as int, chunk_y as int, rolls@));
        }
    }

    /// One pixel of the sand rule (see `sim_pixel`), with the random rolls
    /// drawn here, each only where the rule needs it.
    fn simulate_pixel(x: i32, y: i32, cur: MaterialInstance, helper: &mut SimulationHelperChunk) -> (r: Option<
        MaterialInstance,
    >)
        requires
            old(helper).wf(),
            0 <= x < 128,
            0 <= y < 128,
        ensures
            final(helper).wf(),
            final(helper).chunk_x == old(helper).chunk_x,
            final(helper).chunk_y == old(helper).chunk_y,
            exists|fall: bool, right: bool|
                (final(helper).model(), r) == sim_pixel(
                    old(helper).model(),
                    x as int,
                    y as int,
                    cur,
                    old(helper).chunk_x as int,
                    old(helper).chunk_y as int,
                    fall,
                    right,
                ),
    {
        let mut fall = false;
        let mut right = false;
        if cur.physics == PhysicsType::Sand {
            let below_can = helper.get_pixel_local(x, y + 1).physics == PhysicsType::Air;
            let bl_can = helper.get_pixel_local(x - 1, y + 1).physics == PhysicsType::Air;
            let br_can = helper.get_pixel_local(x + 1, y + 1).physics == PhysicsType::Air;
            if below_can && (br_can || bl_can) {
                fall = fall_roll_exec(random_u32());
            }
            if !(below_can && (!(br_can || bl_can) || fall)) && bl_can && br_can {
                right = random_bool();
            }
        }
        Self::simulate_pixel_with(x, y, cur, fall, right, helper)
    }

    /// One pixel of the sand rule (see `sim_pixel`), with the given rolls:
    /// `fall` says whether sand falls straight down though a lower diagonal is
    /// free, `right` which diagonal it slides to when both are free.
    pub fn simulate_pixel_with(
        x: i32,
        y: i32,
        cur: MaterialInstance,
        fall: bool,
        right: bool,
        helper: &mut SimulationHelperChunk,
    ) -> (r: Option<MaterialInstance>)
        requires
            old(helper).wf(),
            0 <= x < 128,
            0 <= y < 128,
        ensures
            final(helper).wf(),
            final(helper).chunk_x == old(helper).chunk_x,
            final(helper).chunk_y == old(helper).chunk_y,
            (final(helper).model(), r) == sim_pixel(
                old(helper).model(),
                x as int,
                y as int,
                cur,
                old(helper).chunk_x as int,
                old(helper).chunk_y as int,
                fall,
                right,
            ),
    {
        let ghost m = helper.model();
        let ghost cx = helper.chunk_x as int;
        let ghost cy = helper.chunk_y as int;
        if cur.physics != PhysicsType::Sand {
            return None;
        }
        let below_can = helper.get_pixel_local(x, y + 1).physics == PhysicsType::Air;
        let bl_can = helper.get_pixel_local(x - 1, y + 1).physics == PhysicsType::Air;
        let br_can = helper.get_pixel_local(x + 1, y + 1).physics == PhysicsType::Air;
        if below_can && (!(br_can || bl_can) || fall) {
            let e2 = helper.get_pixel_local(x, y + 2).physics == PhysicsType::Air;
            let e3 = e2 && helper.get_pixel_local(x, y + 3).physics == PhysicsType::Air;
            let e4 = e3 && helper.get_pixel_local(x, y + 4).physics == PhysicsType::Air;
            let empty_below = e4 && helper.get_pixel_local(x, y + 5).physics == PhysicsType::Air;
            if empty_below {
                helper.add_particle(cur, x, y);
            } else {
                helper.put(x, y + 1, cur);
            }
            Some(MaterialInstance::air())
        } else if bl_can && br_can {
            if right {
                helper.put(x + 1, y + 1, cur);
            } else {
                helper.put(x - 1, y + 1, cur);
            }
            Some(MaterialInstance::air())
        } else if bl_can {
            helper.put(x - 1, y + 1, cur);
            Some(MaterialInstance::air())
        } else if br_can {
            helper.put(x + 1, y + 1, cur);
            Some(MaterialInstance::air())
        } else {
            None
        }
    }
}

/// Nine copies of a value.
fn nine_of(v: u16) -> (r: Vec<u16>)
    ensures
        r@ == Seq::new(9, |i: int| v),
{
    let mut r: Vec<u16> = Vec::new();
    let mut i: usize = 0;
    while i < 9
        invariant
            0 <= i <= 9,
            r@ == Seq::new(i as nat, |j: int| v),
        decreases 9 - i,
    {
        r.push(v);
        i = i + 1;
        assert(r@ =~= Seq::new(i as nat, |j: int| v));
    }
    r
}

/// Whether a `u32` draw counts as the fall roll.
fn fall_roll_exec(v: u32) -> (r: bool)
    ensures
        r == fall_roll(v),
{
    v > 429496729
}

/// Simulates sand in chunks.
pub struct Simulator {}

} // verus!
