use vstd::prelude::*;

use crate::chunk::color_at;
use crate::coords::CHUNK_AREA;
use crate::material::{spec_air, Color, MaterialInstance, PhysicsType};

verus! {

/// The world generator used by the game: noise-based caves of sand and solid
/// rock. The noise itself is computed outside this library; what the chunk
/// logic needs of the generator is how many generation stages it has.
#[derive(Clone, Copy, Debug)]
pub struct TestGenerator {}

/// The number of generation stages a chunk goes through before it is cached.
pub open spec fn spec_max_gen_stage() -> u8 {
    2
}

impl TestGenerator {
    pub fn new() -> (g: Self) {
        TestGenerator {  }
    }

    /// The number of generation stages a chunk goes through before it is cached.
    pub fn max_gen_stage(&self) -> (r: u8)
        ensures
            r == spec_max_gen_stage(),
    {
        2
    }
}

/// The material the generator puts at a pixel where the cave noise is
/// above zero (`open`) or not, and the second noise above zero (`sandy`) or
/// not: air in caves, else sand or rock of the test material.
pub open spec fn gen_material(open: bool, sandy: bool) -> MaterialInstance {
    if open {
        spec_air()
    } else if sandy {
        MaterialInstance { material_id: 1, physics: PhysicsType::Sand, color: Color { r: 0, g: 0, b: 255, a: 255 } }
    } else {
        MaterialInstance { material_id: 1, physics: PhysicsType::Solid, color: Color { r: 0, g: 255, b: 0, a: 255 } }
    }
}

/// The color the generator draws at such a pixel: none in caves, green on
/// sand, red on rock.
pub open spec fn gen_color(open: bool, sandy: bool) -> Color {
    if open {
        Color { r: 0, g: 0, b: 0, a: 0 }
    } else if sandy {
        Color { r: 0, g: 255, b: 0, a: 255 }
    } else {
        Color { r: 255, g: 0, b: 0, a: 255 }
    }
}

impl TestGenerator {
    /// The pixels and colors of a chunk from the signs of its two noise
    /// fields, pixel by pixel (see `gen_material` and `gen_color`).
    pub fn generate_from_noise(&self, open: &[bool], sandy: &[bool]) -> (r: (Vec<MaterialInstance>, Vec<u8>))
        requires
            open@.len() == CHUNK_AREA,
            sandy@.len() == CHUNK_AREA,
        ensures
            r.0@.len() == CHUNK_AREA,
            r.1@.len() == 4 * CHUNK_AREA,
            forall|i: int|
                0 <= i < CHUNK_AREA ==> #[trigger] r.0@[i] == gen_material(open@[i], sandy@[i]) && color_at(r.1@, i)
                    == gen_color(open@[i], sandy@[i]),
    {
        let mut pixels: Vec<MaterialInstance> = Vec::new();
        let mut colors: Vec<u8> = Vec::new();
        let mut i: usize = 0;
        while i < 16384
            invariant
                0 <= i <= CHUNK_AREA,
                open@.len() == CHUNK_AREA,
                sandy@.len() == CHUNK_AREA,
                pixels@.len() == i,
                colors@.len() == 4 * i,
                forall|j: int|
                    0 <= j < i ==> #[trigger] pixels@[j] == gen_material(open@[j], sandy@[j]) && color_at(colors@, j)
                        == gen_color(open@[j], sandy@[j]),
            decreases CHUNK_AREA - i,
        {
            let (m, c) = if open[i] {
                (MaterialInstance::air(), Color::rgba(0, 0, 0, 0))
            } else if sandy[i] {
                (MaterialInstance::new(1, PhysicsType::Sand, Color::rgb(0, 0, 255)), Color::rgb(0, 255, 0))
            } else {
                (MaterialInstance::new(1, PhysicsType::Solid, Color::rgb(0, 255, 0)), Color::rgb(255, 0, 0))
            };
            let ghost before = colors@;
            pixels.push(m);
            colors.push(c.r);
            colors.push(c.g);
            colors.push(c.b);
            colors.push(c.a);
            assert forall|j: int| 0 <= j < i implies color_at(colors@, j) == color_at(before, j) by {}
            i = i + 1;
        }
        (pixels, colors)
    }
}

} // verus!
