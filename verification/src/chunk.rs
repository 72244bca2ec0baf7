use vstd::prelude::*;

use crate::coords::{CHUNK_AREA, CHUNK_SIZE};
use crate::material::{Color, MaterialInstance};
use crate::rect::Rect;

verus! {

broadcast use vstd::string::group_string_axioms;

/// Where a chunk is in its life: waiting for generation, generating (with the
/// stage reached), loaded but idle, or simulated.
#[derive(Clone, Copy, PartialEq, Eq, Structural, Debug)]
pub enum ChunkState {
    NotGenerated,
    Generating(u8),
    Cached,
    Active,
}

/// Number of color bytes in a chunk (four per pixel).
pub open spec fn color_len() -> int {
    4 * CHUNK_AREA
}

/// Position of pixel `(x, y)` in a chunk's pixel array.
pub open spec fn pixel_index(x: int, y: int) -> int {
    x + y * (CHUNK_SIZE as int)
}

/// Whether `(x, y)` is a pixel coordinate inside a chunk.
pub open spec fn in_chunk(x: int, y: int) -> bool {
    0 <= x < CHUNK_SIZE && 0 <= y < CHUNK_SIZE
}

/// The rectangle covering a whole chunk, in chunk-local coordinates.
pub open spec fn full_chunk_rect() -> Rect<i32> {
    Rect { x1: 0, y1: 0, x2: CHUNK_SIZE as i32, y2: CHUNK_SIZE as i32 }
}

/// Whether a rectangle lies within a chunk (in chunk-local coordinates).
pub open spec fn rect_in_chunk(r: Rect<i32>) -> bool {
    0 <= r.x1 <= r.x2 <= CHUNK_SIZE && 0 <= r.y1 <= r.y2 <= CHUNK_SIZE
}

/// The color stored for pixel `i` in an RGBA byte array.
pub open spec fn color_at(data: Seq<u8>, i: int) -> Color {
    Color { r: data[4 * i], g: data[4 * i + 1], b: data[4 * i + 2], a: data[4 * i + 3] }
}

pub proof fn lemma_pixel_index_bounds(x: int, y: int)
    requires
        in_chunk(x, y),
    ensures
        0 <= pixel_index(x, y) < CHUNK_AREA,
{
    assert(y * 128 <= 127 * 128) by (nonlinear_arith)
        requires
            0 <= y < 128,
    ;
}

/// A chunk of the world as the server holds it: its position, state, pixels
/// (once generated), RGBA colors, and the rectangle that needs simulating.
pub struct ServerChunk {
    pub chunk_x: i32,
    pub chunk_y: i32,
    pub state: ChunkState,
    pub pixels: Option<Vec<MaterialInstance>>,
    pub dirty_rect: Option<Rect<i32>>,
    pub pixel_data: Vec<u8>,
    pub dirty: bool,
}

impl ServerChunk {
    /// The pixel array has one entry per pixel and the color array four bytes per pixel.
    pub open spec fn wf(&self) -> bool {
        &&& self.pixel_data@.len() == color_len()
        &&& (self.pixels matches Some(p) ==> p@.len() == CHUNK_AREA)
        &&& (self.dirty_rect matches Some(r) ==> rect_in_chunk(r))
    }

    /// A chunk at `(chunk_x, chunk_y)` with nothing generated yet.
    pub fn new_empty(chunk_x: i32, chunk_y: i32) -> (r: Self)
        ensures
            r.wf(),
            r.chunk_x == chunk_x,
            r.chunk_y == chunk_y,
            r.state == ChunkState::NotGenerated,
            r.pixels is None,
            r.dirty_rect is None,
            r.dirty,
            forall|i: int| 0 <= i < color_len() ==> r.pixel_data@[i] == 0,
    {
        let pixel_data: Vec<u8> = vec![0u8; 65536];
        ServerChunk {
            chunk_x,
            chunk_y,
            state: ChunkState::NotGenerated,
            pixels: None,
            dirty_rect: None,
            pixel_data,
            dirty: true,
        }
    }

    pub fn get_chunk_x(&self) -> (r: i32)
        ensures
            r == self.chunk_x,
    {
        self.chunk_x
    }

    pub fn get_chunk_y(&self) -> (r: i32)
        ensures
            r == self.chunk_y,
    {
        self.chunk_y
    }

    pub fn get_state(&self) -> (r: ChunkState)
        ensures
            r == self.state,
    {
        self.state
    }

    pub fn set_state(&mut self, state: ChunkState)
        ensures
            *final(self) == (ServerChunk { state, ..*old(self) }),
    {
        self.state = state;
    }

    pub fn get_dirty_rect(&self) -> (r: Option<Rect<i32>>)
        ensures
            r == self.dirty_rect,
    {
        self.dirty_rect
    }

    pub fn set_dirty_rect(&mut self, rect: Option<Rect<i32>>)
        requires
            rect matches Some(r) ==> rect_in_chunk(r),
        ensures
            *final(self) == (ServerChunk { dirty_rect: rect, ..*old(self) }),
    {
        self.dirty_rect = rect;
    }

    /// Nothing to redraw on the server side.
    pub fn refresh(&mut self)
        ensures
            *final(self) == *old(self),
    {
    }

    /// Graphics are not kept on the server side.
    pub fn update_graphics(&mut self) -> (r: Result<(), String>)
        ensures
            *final(self) == *old(self),
            r is Ok,
    {
        Ok(())
    }

    /// Writes one pixel; fails on a coordinate outside the chunk, or before the
    /// chunk has pixels. On success the whole chunk is marked for simulation.
    pub fn set(&mut self, x: u16, y: u16, mat: MaterialInstance) -> (r: Result<(), String>)
        requires
            old(self).wf(),
        ensures
            final(self).wf(),
            !in_chunk(x as int, y as int) ==> (r matches Err(e) && e@ == "Invalid pixel coordinate."@
                && *final(self) == *old(self)),
            in_chunk(x as int, y as int) && old(self).pixels is None ==> (r matches Err(e) && e@
                == "Chunk is not ready yet."@ && *final(self) == *old(self)),
            in_chunk(x as int, y as int) && old(self).pixels is Some ==> {
                &&& r is Ok
                &&& final(self).pixels is Some
                &&& final(self).pixels.unwrap()@ == old(self).pixels.unwrap()@.update(
                    pixel_index(x as int, y as int),
                    mat,
                )
                &&& final(self).dirty_rect == Some(full_chunk_rect())
                &&& final(self).chunk_x == old(self).chunk_x
                &&& final(self).chunk_y == old(self).chunk_y
                &&& final(self).state == old(self).state
                &&& final(self).pixel_data == old(self).pixel_data
                &&& final(self).dirty == old(self).dirty
            },
    {
        if x < CHUNK_SIZE && y < CHUNK_SIZE {
            if self.pixels.is_some() {
                proof {
                    lemma_pixel_index_bounds(x as int, y as int);
                }
                let i = (x + y * CHUNK_SIZE) as usize;
                let mut px = self.pixels.take().unwrap();
                px.set(i, mat);
                self.pixels = Some(px);
                self.dirty_rect = Some(Rect::new(0, 0, CHUNK_SIZE as i32, CHUNK_SIZE as i32));
                return Ok(());
            }
            return Err("Chunk is not ready yet.".to_string());
        }
        Err("Invalid pixel coordinate.".to_string())
    }

    /// Reads one pixel; fails on a coordinate outside the chunk, or before the
    /// chunk has pixels.
    pub fn get(&self, x: u16, y: u16) -> (r: Result<&MaterialInstance, String>)
        requires
            self.wf(),
        ensures
            !in_chunk(x as int, y as int) ==> (r matches Err(e) && e@ == "Invalid pixel coordinate."@),
            in_chunk(x as int, y as int) && self.pixels is None ==> (r matches Err(e) && e@
                == "Chunk is not ready yet."@),
            in_chunk(x as int, y as int) && self.pixels is Some ==> (r matches Ok(m) && *m
                == self.pixels.unwrap()@[pixel_index(x as int, y as int)]),
    {
        if x < CHUNK_SIZE && y < CHUNK_SIZE {
            match &self.pixels {
                Some(px) => {
                    proof {
                        lemma_pixel_index_bounds(x as int, y as int);
                    }
                    let i = (x + y * CHUNK_SIZE) as usize;
                    return Ok(&px[i]);
                },
                None => {
                    return Err("Chunk is not ready yet.".to_string());
                },
            }
        }
        Err("Invalid pixel coordinate.".to_string())
    }

    /// Writes the color of one pixel; fails on a coordinate outside the chunk.
    pub fn set_color(&mut self, x: u16, y: u16, color: Color) -> (r: Result<(), String>)
        requires
            old(self).wf(),
        ensures
            final(self).wf(),
            !in_chunk(x as int, y as int) ==> (r matches Err(e) && e@ == "Invalid pixel coordinate."@
                && *final(self) == *old(self)),
            in_chunk(x as int, y as int) ==> {
                let i = pixel_index(x as int, y as int);
                &&& r is Ok
                &&& final(self).pixel_data@ == old(self).pixel_data@.update(4 * i, color.r).update(
                    4 * i + 1,
                    color.g,
                ).update(4 * i + 2, color.b).update(4 * i + 3, color.a)
                &&& final(self).dirty
                &&& final(self).pixels == old(self).pixels
                &&& final(self).chunk_x == old(self).chunk_x
                &&& final(self).chunk_y == old(self).chunk_y
                &&& final(self).state == old(self).state
                &&& final(self).dirty_rect == old(self).dirty_rect
            },
    {
        if x < CHUNK_SIZE && y < CHUNK_SIZE {
            proof {
                lemma_pixel_index_bounds(x as int, y as int);
            }
            let i = (x + y * CHUNK_SIZE) as usize;
            self.pixel_data.set(i * 4, color.r);
            self.pixel_data.set(i * 4 + 1, color.g);
            self.pixel_data.set(i * 4 + 2, color.b);
            self.pixel_data.set(i * 4 + 3, color.a);
            self.dirty = true;
            return Ok(());
        }
        Err("Invalid pixel coordinate.".to_string())
    }

    /// Reads the color of one pixel; fails on a coordinate outside the chunk.
    pub fn get_color(&self, x: u16, y: u16) -> (r: Result<Color, String>)
        requires
            self.wf(),
        ensures
            !in_chunk(x as int, y as int) ==> (r matches Err(e) && e@ == "Invalid pixel coordinate."@),
            in_chunk(x as int, y as int) ==> r == Ok::<Color, String>(
                color_at(self.pixel_data@, pixel_index(x as int, y as int)),
            ),
    {
        if x < CHUNK_SIZE && y < CHUNK_SIZE {
            proof {
                lemma_pixel_index_bounds(x as int, y as int);
            }
            let i = (x + y * CHUNK_SIZE) as usize;
            return Ok(
                Color {
                    r: self.pixel_data[i * 4],
                    g: self.pixel_data[i * 4 + 1],
                    b: self.pixel_data[i * 4 + 2],
                    a: self.pixel_data[i * 4 + 3],
                },
            );
        }
        Err("Invalid pixel coordinate.".to_string())
    }

    /// Writes every pixel of a diff, in order; each must be inside the chunk,
    /// and the chunk must have pixels.
    pub fn apply_diff(&mut self, diff: &[(u16, u16, MaterialInstance)])
        requires
            old(self).wf(),
            old(self).pixels is Some,
            forall|k: int| 0 <= k < diff@.len() ==> in_chunk(#[trigger] diff@[k].0 as int, diff@[k].1 as int),
        ensures
            final(self).wf(),
            final(self).pixels is Some,
            final(self).pixels.unwrap()@ == apply_diff_spec(old(self).pixels.unwrap()@, diff@),
            diff@.len() > 0 ==> final(self).dirty_rect == Some(full_chunk_rect()),
            diff@.len() == 0 ==> final(self).dirty_rect == old(self).dirty_rect,
            final(self).pixel_data == old(self).pixel_data,
            final(self).state == old(self).state,
            final(self).chunk_x == old(self).chunk_x,
            final(self).chunk_y == old(self).chunk_y,
    {
        let mut k: usize = 0;
        while k < diff.len()
            invariant
                0 <= k <= diff@.len(),
                self.wf(),
                self.pixels is Some,
                forall|j: int| 0 <= j < diff@.len() ==> in_chunk(#[trigger] diff@[j].0 as int, diff@[j].1 as int),
                self.pixels.unwrap()@ == apply_diff_spec(old(self).pixels.unwrap()@, diff@.take(k as int)),
                k > 0 ==> self.dirty_rect == Some(full_chunk_rect()),
                k == 0 ==> self.dirty_rect == old(self).dirty_rect,
                self.pixel_data == old(self).pixel_data,
                self.state == old(self).state,
                self.chunk_x == old(self).chunk_x,
                self.chunk_y == old(self).chunk_y,
            decreases diff@.len() - k,
        {
            let (x, y, mat) = diff[k];
            assert(in_chunk(diff@[k as int].0 as int, diff@[k as int].1 as int));
            let _ = self.set(x, y, mat);
            assert(diff@.take(k + 1).drop_last() == diff@.take(k as int));
            k = k + 1;
        }
        assert(diff@.take(diff@.len() as int) == diff@);
    }

    /// Replaces all pixels.
    pub fn set_pixels(&mut self, pixels: Vec<MaterialInstance>)
        requires
            old(self).wf(),
            pixels@.len() == CHUNK_AREA,
        ensures
            final(self).wf(),
            *final(self) == (ServerChunk { pixels: Some(pixels), ..*old(self) }),
    {
        self.pixels = Some(pixels);
    }

    pub fn get_pixels(&self) -> (r: &Option<Vec<MaterialInstance>>)
        ensures
            *r == self.pixels,
    {
        &self.pixels
    }

    /// Replaces all colors.
    pub fn set_pixel_colors(&mut self, colors: Vec<u8>)
        requires
            old(self).wf(),
            colors@.len() == color_len(),
        ensures
            final(self).wf(),
            *final(self) == (ServerChunk { pixel_data: colors, ..*old(self) }),
    {
        self.pixel_data = colors;
    }

    pub fn get_colors(&self) -> (r: &Vec<u8>)
        ensures
            *r == self.pixel_data,
    {
        &self.pixel_data
    }

    pub fn mark_dirty(&mut self)
        ensures
            *final(self) == (ServerChunk { dirty: true, ..*old(self) }),
    {
        self.dirty = true;
    }
}

/// The pixels after writing each entry of a diff in order.
pub open spec fn apply_diff_spec(
    pixels: Seq<MaterialInstance>,
    diff: Seq<(u16, u16, MaterialInstance)>,
) -> Seq<MaterialInstance>
    decreases diff.len(),
{
    if diff.len() == 0 {
        pixels
    } else {
        let last = diff.last();
        apply_diff_spec(pixels, diff.drop_last()).update(pixel_index(last.0 as int, last.1 as int), last.2)
    }
}

} // verus!
