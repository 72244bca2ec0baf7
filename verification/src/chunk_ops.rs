use vstd::prelude::*;

use crate::chunk::{full_chunk_rect, ChunkState, ServerChunk};
use crate::chunk_handler::{chunk_at_key, pixel_ok, world_get, ChunkHandler};
use crate::coords::{coord_ok, index_of};
use crate::material::{MaterialInstance, PhysicsType};
use crate::rect::Rect;
use vstd::string::StringExecFns;

verus! {

broadcast use vstd::std_specs::hash::group_hash_axioms;

/// The decimal digit `d` as a character.
pub open spec fn digit_char(d: int) -> char {
    if d == 0 {
        '0'
    } else if d == 1 {
        '1'
    } else if d == 2 {
        '2'
    } else if d == 3 {
        '3'
    } else if d == 4 {
        '4'
    } else if d == 5 {
        '5'
    } else if d == 6 {
        '6'
    } else if d == 7 {
        '7'
    } else if d == 8 {
        '8'
    } else {
        '9'
    }
}

/// How an unsigned integer is written in decimal: its digits, most
/// significant first, without leading zeros.
pub open spec fn decimal(n: nat) -> Seq<char>
    decreases n,
{
    if n < 10 {
        seq![digit_char(n as int)]
    } else {
        decimal(n / 10).push(digit_char((n % 10) as int))
    }
}

/// The text of the error that a buffer of the wrong size gives.
pub open spec fn size_error_text(what: Seq<char>, got: usize, expected: usize) -> Seq<char> {
    what + " Vec is the wrong size: "@ + decimal(got as nat) + " (expected "@ + decimal(expected as nat) + ")"@
}

/// Appends decimal digit `d`.
fn push_digit(s: &mut String, d: usize)
    requires
        d < 10,
    ensures
        final(s)@ == old(s)@.push(digit_char(d as int)),
{
    proof {
        reveal_strlit("0");
        reveal_strlit("1");
        reveal_strlit("2");
        reveal_strlit("3");
        reveal_strlit("4");
        reveal_strlit("5");
        reveal_strlit("6");
        reveal_strlit("7");
        reveal_strlit("8");
        reveal_strlit("9");
    }
    let t = if d == 0 {
        "0"
    } else if d == 1 {
        "1"
    } else if d == 2 {
        "2"
    } else if d == 3 {
        "3"
    } else if d == 4 {
        "4"
    } else if d == 5 {
        "5"
    } else if d == 6 {
        "6"
    } else if d == 7 {
        "7"
    } else if d == 8 {
        "8"
    } else {
        "9"
    };
    s.append(t);
    assert(t@ =~= seq![digit_char(d as int)]);
}

/// Appends `n` written in decimal.
fn push_decimal(s: &mut String, n: usize)
    ensures
        final(s)@ == old(s)@ + decimal(n as nat),
    decreases n,
{
    if n >= 10 {
        push_decimal(s, n / 10);
    }
    push_digit(s, n % 10);
    proof {
        if n >= 10 {
            assert(old(s)@ + decimal(n as nat) =~= (old(s)@ + decimal((n / 10) as nat)).push(digit_char((n % 10) as int)));
        } else {
            assert(old(s)@ + decimal(n as nat) =~= old(s)@.push(digit_char((n % 10) as int)));
        }
    }
}

/// The wrong-size message: the name of the buffer, the fixed words, and
/// the two sizes written in decimal.
fn size_error(what: &str, got: usize, expected: usize) -> (r: String)
    ensures
        r@ == size_error_text(what@, got, expected),
{
    let mut s = String::from_str(what);
    s.append(" Vec is the wrong size: ");
    push_decimal(&mut s, got);
    s.append(" (expected ");
    push_decimal(&mut s, expected);
    s.append(")");
    s
}

/// The absolute value of an integer.
pub open spec fn abs(v: int) -> int {
    if v < 0 { -v } else { v }
}

/// The walk of a ray from `(x1, y1)` to `(x2, y2)` (Bresenham's line): the
/// position and error term after `n` steps; it stays put once it arrives.
pub open spec fn ray_state(x1: int, y1: int, x2: int, y2: int, n: nat) -> (int, int, int)
    decreases n,
{
    let dx = abs(x2 - x1);
    let dy = -abs(y2 - y1);
    if n == 0 {
        (x1, y1, dx + dy)
    } else {
        let (x, y, e) = ray_state(x1, y1, x2, y2, (n - 1) as nat);
        if x == x2 && y == y2 {
            (x, y, e)
        } else {
            let t = 2 * e;
            let sx = if x1 < x2 { 1int } else { -1int };
            let sy = if y1 < y2 { 1int } else { -1int };
            let e1 = if t > dy { e + dy } else { e };
            let nx = if t > dy { x + sx } else { x };
            let e2 = if t < dx { e1 + dx } else { e1 };
            let ny = if t < dx { y + sy } else { y };
            (nx, ny, e2)
        }
    }
}

/// Whether the ray is at its end after `n` steps.
pub open spec fn ray_done(x1: int, y1: int, x2: int, y2: int, n: nat) -> bool {
    ray_state(x1, y1, x2, y2, n).0 == x2 && ray_state(x1, y1, x2, y2, n).1 == y2
}

/// Whether the world holds a non-air pixel at step `n` of the ray, which the
/// filter may accept.
pub open spec fn ray_solid(m: Map<u32, ServerChunk>, x1: int, y1: int, x2: int, y2: int, n: nat) -> bool {
    let p = ray_state(x1, y1, x2, y2, n);
    world_get(m, p.0, p.1) matches Some(mat) && mat.physics != PhysicsType::Air
}

/// Every point of a ray lies in the box spanned by its ends, so its chunk can be indexed.
proof fn lemma_ray_point_ok(x1: int, y1: int, x2: int, y2: int, x: int, y: int)
    requires
        pixel_ok(x1, y1),
        pixel_ok(x2, y2),
        (x1 <= x <= x2) || (x2 <= x <= x1),
        (y1 <= y <= y2) || (y2 <= y <= y1),
    ensures
        pixel_ok(x, y),
{
    if x1 <= x2 {
        vstd::arithmetic::div_mod::lemma_div_is_ordered(x1, x, 128);
        vstd::arithmetic::div_mod::lemma_div_is_ordered(x, x2, 128);
    } else {
        vstd::arithmetic::div_mod::lemma_div_is_ordered(x2, x, 128);
        vstd::arithmetic::div_mod::lemma_div_is_ordered(x, x1, 128);
    }
    if y1 <= y2 {
        vstd::arithmetic::div_mod::lemma_div_is_ordered(y1, y, 128);
        vstd::arithmetic::div_mod::lemma_div_is_ordered(y, y2, 128);
    } else {
        vstd::arithmetic::div_mod::lemma_div_is_ordered(y2, y, 128);
        vstd::arithmetic::div_mod::lemma_div_is_ordered(y, y1, 128);
    }
}

/// A step of the ray never passes its end on either axis, and moves unless
/// the ray has arrived.
proof fn lemma_ray_step_bounds(dx: int, b: int, sx: int, sy: int, e: int)
    requires
        0 <= sx <= dx,
        0 <= sy <= b,
        e == dx * (1 + sy) - b * (1 + sx),
        !(sx == dx && sy == b),
    ensures
        sx == dx ==> 2 * e <= -b,
        sy == b ==> 2 * e >= dx,
        2 * e > -b || 2 * e < dx,
{
    if sx == dx {
        assert(2 * e <= -b) by (nonlinear_arith)
            requires
                e == dx * (1 + sy) - b * (1 + sx),
                sx == dx,
                0 <= sy <= b - 1,
                0 <= dx,
        ;
    }
    if sy == b {
        assert(2 * e >= dx) by (nonlinear_arith)
            requires
                e == dx * (1 + sy) - b * (1 + sx),
                sy == b,
                0 <= sx <= dx - 1,
                0 <= b,
        ;
    }
}

impl ChunkHandler {
    /// Marks the whole chunk at a position for simulation, if it is loaded.
    pub fn force_update_chunk(&mut self, chunk_x: i32, chunk_y: i32)
        requires
            old(self).wf(),
            coord_ok(chunk_x as int),
            coord_ok(chunk_y as int),
        ensures
            final(self).wf(),
            final(self).load_queue@ == old(self).load_queue@,
            final(self).screen_size == old(self).screen_size,
            final(self).path == old(self).path,
            final(self).generator == old(self).generator,
            ({
                let k = index_of(chunk_x as int, chunk_y as int);
                if old(self).loaded_chunks@.contains_key(k) {
                    final(self).loaded_chunks@ == old(self).loaded_chunks@.insert(
                        k,
                        ServerChunk { dirty_rect: Some(full_chunk_rect()), ..old(self).loaded_chunks@[k] },
                    )
                } else {
                    final(self).loaded_chunks@ == old(self).loaded_chunks@
                }
            }),
    {
        let k = self.chunk_index(chunk_x, chunk_y);
        if self.loaded_chunks.contains_key(&k) {
            let mut c = self.loaded_chunks.remove(&k).unwrap();
            c.set_dirty_rect(Some(Rect::new(0, 0, 128, 128)));
            self.store(k, c);
            assert(self.loaded_chunks@ =~= old(self).loaded_chunks@.insert(k, c));
        }
    }

    /// Brings every chunk's graphics up to date; the server keeps none, so
    /// nothing changes.
    pub fn update_chunk_graphics(&mut self)
        ensures
            *final(self) == *old(self),
    {
    }

    /// Takes a chunk's pixels and colors from the server: the chunk at the
    /// position (loaded anew if needed) gets them, is marked dirty and becomes
    /// cached. Fails, changing nothing, when either has the wrong size.
    pub fn sync_chunk(&mut self, chunk_x: i32, chunk_y: i32, pixels: Vec<MaterialInstance>, colors: Vec<u8>) -> (r:
        Result<(), String>)
        requires
            old(self).wf(),
            coord_ok(chunk_x as int),
            coord_ok(chunk_y as int),
        ensures
            final(self).wf(),
            final(self).load_queue@ == old(self).load_queue@,
            final(self).screen_size == old(self).screen_size,
            final(self).path == old(self).path,
            final(self).generator == old(self).generator,
            pixels@.len() != 16384 ==> (r matches Err(e) && e@ == size_error_text("pixels"@, pixels@.len() as usize, 16384)
                && final(self).loaded_chunks@ == old(self).loaded_chunks@),
            pixels@.len() == 16384 && colors@.len() != 65536 ==> (r matches Err(e) && e@ == size_error_text(
                "colors"@,
                colors@.len() as usize,
                65536,
            ) && final(self).loaded_chunks@ == old(self).loaded_chunks@),
            pixels@.len() == 16384 && colors@.len() == 65536 ==> {
                let k = index_of(chunk_x as int, chunk_y as int);
                let c = final(self).loaded_chunks@[k];
                &&& r is Ok
                &&& final(self).loaded_chunks@.dom() == old(self).loaded_chunks@.dom().insert(k)
                &&& forall|k2: u32|
                    k2 != k && #[trigger] old(self).loaded_chunks@.contains_key(k2) ==> final(self).loaded_chunks@[k2]
                        == old(self).loaded_chunks@[k2]
                &&& (if old(self).loaded_chunks@.contains_key(k) {
                    c.chunk_x == old(self).loaded_chunks@[k].chunk_x && c.chunk_y == old(self).loaded_chunks@[k].chunk_y
                        && c.dirty_rect == old(self).loaded_chunks@[k].dirty_rect
                } else {
                    c.chunk_x == chunk_x && c.chunk_y == chunk_y && c.dirty_rect is None
                })
                &&& c.state == ChunkState::Cached
                &&& c.pixels == Some(pixels)
                &&& c.pixel_data == colors
                &&& c.dirty
            },
    {
        if pixels.len() != 16384 {
            return Err(size_error("pixels", pixels.len(), 16384));
        }
        if colors.len() != 65536 {
            return Err(size_error("colors", colors.len(), 65536));
        }
        let k = self.chunk_index(chunk_x, chunk_y);
        let mut chunk = match self.loaded_chunks.remove(&k) {
            Some(c) => c,
            None => ServerChunk::new_empty(chunk_x, chunk_y),
        };
        proof {
            if old(self).loaded_chunks@.contains_key(k) {
                assert(chunk_at_key(k, old(self).loaded_chunks@[k]));
            }
        }
        chunk.set_pixels(pixels);
        chunk.set_pixel_colors(colors);
        chunk.mark_dirty();
        chunk.set_state(ChunkState::Cached);
        self.store(k, chunk);
        Ok(())
    }

    /// Walks a ray from `(x1, y1)` to `(x2, y2)` pixel by pixel (Bresenham's
    /// line, ends included) and gives the first non-air pixel on it that the
    /// filter accepts, with its material.
    pub fn raycast<F: Fn((i64, i64), MaterialInstance) -> bool>(
        &self,
        x1: i64,
        y1: i64,
        x2: i64,
        y2: i64,
        collide_filter: F,
    ) -> (r: Option<((i64, i64), MaterialInstance)>)
        requires
            self.wf(),
            pixel_ok(x1 as int, y1 as int),
            pixel_ok(x2 as int, y2 as int),
            forall|p: (i64, i64), m: MaterialInstance| #[trigger] collide_filter.requires((p, m)),
        ensures
            match r {
                Some((p, m)) => exists|n: nat|
                    {
                        &&& #[trigger] ray_state(x1 as int, y1 as int, x2 as int, y2 as int, n).0 == p.0
                        &&& ray_state(x1 as int, y1 as int, x2 as int, y2 as int, n).1 == p.1
                        &&& world_get(self.chunks(), p.0 as int, p.1 as int) == Some(m)
                        &&& m.physics != PhysicsType::Air
                        &&& collide_filter.ensures((p, m), true)
                        &&& forall|j: nat| j < n && #[trigger] ray_solid(self.chunks(), x1 as int, y1 as int, x2 as int, y2 as int, j)
                            ==> collide_filter.ensures(
                            ((ray_state(x1 as int, y1 as int, x2 as int, y2 as int, j).0 as i64,
                            ray_state(x1 as int, y1 as int, x2 as int, y2 as int, j).1 as i64),
                            world_get(self.chunks(), ray_state(x1 as int, y1 as int, x2 as int, y2 as int, j).0,
                            ray_state(x1 as int, y1 as int, x2 as int, y2 as int, j).1).unwrap()),
                            false,
                        )
                    },
                None => exists|n: nat|
                    {
                        &&& #[trigger] ray_done(x1 as int, y1 as int, x2 as int, y2 as int, n)
                        &&& forall|j: nat| j <= n && #[trigger] ray_solid(self.chunks(), x1 as int, y1 as int, x2 as int, y2 as int, j)
                            ==> collide_filter.ensures(
                            ((ray_state(x1 as int, y1 as int, x2 as int, y2 as int, j).0 as i64,
                            ray_state(x1 as int, y1 as int, x2 as int, y2 as int, j).1 as i64),
                            world_get(self.chunks(), ray_state(x1 as int, y1 as int, x2 as int, y2 as int, j).0,
                            ray_state(x1 as int, y1 as int, x2 as int, y2 as int, j).1).unwrap()),
                            false,
                        )
                    },
            },
    {
        let ghost (gx1, gy1, gx2, gy2) = (x1 as int, y1 as int, x2 as int, y2 as int);
        let x_dist: i64 = if x2 - x1 < 0 { x1 - x2 } else { x2 - x1 };
        let y_dist: i64 = -(if y2 - y1 < 0 { y1 - y2 } else { y2 - y1 });
        let x_step: i64 = if x1 < x2 { 1 } else { -1 };
        let y_step: i64 = if y1 < y2 { 1 } else { -1 };
        let mut error: i64 = x_dist + y_dist;
        let mut x: i64 = x1;
        let mut y: i64 = y1;
        let ghost mut n: nat = 0;
        let ghost mut sx: int = 0;
        let ghost mut sy: int = 0;
        assert(error == x_dist * (1 + sy) + y_dist * (1 + sx)) by (nonlinear_arith)
            requires
                error == x_dist + y_dist,
                sx == 0,
                sy == 0,
        ;
        assert(abs(gx2 - gx1) < 0x40_0000_0000 && abs(gy2 - gy1) < 0x40_0000_0000);
        loop
            invariant
                self.wf(),
                pixel_ok(gx1, gy1),
                pixel_ok(gx2, gy2),
                gx1 == x1 && gy1 == y1 && gx2 == x2 && gy2 == y2,
                x_dist == abs(gx2 - gx1),
                y_dist == -abs(gy2 - gy1),
                x_step == (if x1 < x2 { 1int } else { -1int }),
                y_step == (if y1 < y2 { 1int } else { -1int }),
                x_dist < 0x40_0000_0000,
                -y_dist < 0x40_0000_0000,
                (x as int, y as int, error as int) == ray_state(gx1, gy1, gx2, gy2, n),
                0 <= sx <= x_dist,
                0 <= sy <= -y_dist,
                x1 < x2 ==> x == x1 + sx,
                !(x1 < x2) ==> x == x1 - sx,
                y1 < y2 ==> y == y1 + sy,
                !(y1 < y2) ==> y == y1 - sy,
                error == x_dist * (1 + sy) + y_dist * (1 + sx),
                -2 * (-y_dist) <= error <= 2 * x_dist,
                forall|p: (i64, i64), m: MaterialInstance| #[trigger] collide_filter.requires((p, m)),
                forall|j: nat| j < n && #[trigger] ray_solid(self.chunks(), gx1, gy1, gx2, gy2, j)
                    ==> collide_filter.ensures(
                    ((ray_state(gx1, gy1, gx2, gy2, j).0 as i64, ray_state(gx1, gy1, gx2, gy2, j).1 as i64),
                    world_get(self.chunks(), ray_state(gx1, gy1, gx2, gy2, j).0, ray_state(gx1, gy1, gx2, gy2, j).1).unwrap()),
                    false,
                ),
            decreases (x_dist - sx) + (-y_dist - sy),
        {
            proof {
                lemma_ray_point_ok(gx1, gy1, gx2, gy2, x as int, y as int);
            }
            let hit = match self.get(x, y) {
                Ok(m) => if m.physics != PhysicsType::Air {
                    Some(*m)
                } else {
                    None
                },
                Err(_) => None,
            };
            if let Some(m) = hit {
                if collide_filter((x, y), m) {
                    proof {
                        assert(ray_state(gx1, gy1, gx2, gy2, n).0 == x && ray_state(gx1, gy1, gx2, gy2, n).1 == y);
                    }
                    return Some(((x, y), m));
                }
            }
            proof {
                assert forall|j: nat| j < n + 1 && #[trigger] ray_solid(self.chunks(), gx1, gy1, gx2, gy2, j)
                    implies collide_filter.ensures(
                    ((ray_state(gx1, gy1, gx2, gy2, j).0 as i64, ray_state(gx1, gy1, gx2, gy2, j).1 as i64),
                    world_get(self.chunks(), ray_state(gx1, gy1, gx2, gy2, j).0, ray_state(gx1, gy1, gx2, gy2, j).1).unwrap()),
                    false,
                ) by {
                    if j == n {
                        assert(hit is Some);
                    }
                }
            }
            if x == x2 && y == y2 {
                proof {
                    assert(ray_done(gx1, gy1, gx2, gy2, n));
                }
                return None;
            }
            let tmp = 2 * error;
            let ghost old_error = error as int;
            let ghost old_sx = sx;
            let ghost old_sy = sy;
            proof {
                assert(error == x_dist * (1 + sy) - (-y_dist) * (1 + sx)) by (nonlinear_arith)
                    requires
                        error == x_dist * (1 + sy) + y_dist * (1 + sx),
                ;
                lemma_ray_step_bounds(x_dist as int, -y_dist as int, sx, sy, error as int);
            }
            if tmp > y_dist {
                error = error + y_dist;
                x = x + x_step;
                proof {
                    sx = sx + 1;
                }
            }
            if tmp < x_dist {
                error = error + x_dist;
                y = y + y_step;
                proof {
                    sy = sy + 1;
                }
            }
            proof {
                assert(error == x_dist * (1 + sy) + y_dist * (1 + sx)) by (nonlinear_arith)
                    requires
                        error == old_error + (if tmp > y_dist { y_dist as int } else { 0 }) + (if tmp < x_dist {
                            x_dist as int
                        } else {
                            0
                        }),
                        old_error == x_dist * (1 + old_sy) + y_dist * (1 + old_sx),
                        sx == old_sx + (if tmp > y_dist { 1int } else { 0 }),
                        sy == old_sy + (if tmp < x_dist { 1int } else { 0 }),
                ;
                n = n + 1;
            }
        }
    }

    /// Puts a chunk under the index of its own position.
    fn store(&mut self, k: u32, c: ServerChunk)
        requires
            old(self).wf(),
            chunk_at_key(k, c),
        ensures
            final(self).wf(),
            final(self).loaded_chunks@ == old(self).loaded_chunks@.insert(k, c),
            final(self).load_queue@ == old(self).load_queue@,
            final(self).screen_size == old(self).screen_size,
            final(self).path == old(self).path,
            final(self).generator == old(self).generator,
    {
        self.loaded_chunks.insert(k, c);
        assert forall|k2: u32| #[trigger] self.loaded_chunks@.contains_key(k2) implies chunk_at_key(
            k2,
            self.loaded_chunks@[k2],
        ) by {
            if k2 != k {
                assert(old(self).loaded_chunks@.contains_key(k2));
            }
        }
    }
}

} // verus!
