use vstd::prelude::*;

use crate::chunk::{full_chunk_rect, ServerChunk};
use crate::chunk_handler::{
    lemma_get_after_set, lemma_set_keeps_others, local_index, pixel_key, pixel_ok, world_get, world_written,
    ChunkHandler,
};
use crate::material::{spec_air, Color, MaterialInstance, PhysicsType};

verus! {

broadcast use vstd::std_specs::hash::group_hash_axioms;

/// The dummy pixel that stands in for an object over material `m`: the same
/// material, moving as an object, drawn green.
pub open spec fn object_over(m: MaterialInstance) -> MaterialInstance {
    MaterialInstance { physics: PhysicsType::Object, color: Color { r: 0, g: 255, b: 0, a: 255 }, ..m }
}

/// Whether point `p` is stored in the same place as pixel `(x, y)`.
pub open spec fn same_place(p: (i64, i64), x: int, y: int) -> bool {
    pixel_key(p.0 as int, p.1 as int) == pixel_key(x, y) && local_index(p.0 as int, p.1 as int) == local_index(x, y)
}

/// Whether one of the first `n` points is stored in the same place as pixel `(x, y)`.
pub open spec fn hit(pts: Seq<(i64, i64)>, n: int, x: int, y: int) -> bool {
    exists|j: int| 0 <= j < n && same_place(#[trigger] pts[j], x, y)
}

/// Whether a pixel of world `m` at point `p` gets a dummy object pixel: it
/// holds the air material.
pub open spec fn fillable(m: Map<u32, ServerChunk>, p: (i64, i64)) -> bool {
    world_get(m, p.0 as int, p.1 as int) matches Some(mat) && mat.material_id == 0
}

/// Whether a pixel of world `m` at point `p` is a dummy object pixel to clear.
pub open spec fn clearable(m: Map<u32, ServerChunk>, p: (i64, i64)) -> bool {
    world_get(m, p.0 as int, p.1 as int) matches Some(mat) && mat.physics == PhysicsType::Object
}

/// Whether one of the first `n` points lies in chunk `k` and is to be
/// written (fillable when `fill`, clearable otherwise) in world `m`.
pub open spec fn writes_in(m: Map<u32, ServerChunk>, pts: Seq<(i64, i64)>, n: int, k: u32, fill: bool) -> bool {
    exists|j: int|
        0 <= j < n && pixel_key(pts[j].0 as int, pts[j].1 as int) == k && (if fill {
            fillable(m, #[trigger] pts[j])
        } else {
            clearable(m, pts[j])
        })
}

/// World `m1` is world `m0` after writing the first `n` points: with `fill`,
/// each pixel holding the air material becomes a dummy object pixel over it;
/// otherwise each dummy object pixel becomes air. Written chunks are marked
/// for simulation; nothing else changes.
pub open spec fn objects_written(
    m0: Map<u32, ServerChunk>,
    m1: Map<u32, ServerChunk>,
    pts: Seq<(i64, i64)>,
    n: int,
    fill: bool,
) -> bool {
    &&& m1.dom() == m0.dom()
    &&& forall|x: int, y: int|
        pixel_ok(x, y) ==> #[trigger] world_get(m1, x, y) == if hit(pts, n, x, y) {
            match world_get(m0, x, y) {
                Some(mat) => if fill && mat.material_id == 0 {
                    Some(object_over(mat))
                } else if !fill && mat.physics == PhysicsType::Object {
                    Some(spec_air())
                } else {
                    Some(mat)
                },
                None => None,
            }
        } else {
            world_get(m0, x, y)
        }
    &&& forall|k: u32|
        #[trigger] m0.contains_key(k) ==> {
            let c0 = m0[k];
            let c1 = m1[k];
            &&& c1.chunk_x == c0.chunk_x
            &&& c1.chunk_y == c0.chunk_y
            &&& c1.state == c0.state
            &&& c1.pixel_data == c0.pixel_data
            &&& c1.dirty == c0.dirty
            &&& (c1.pixels is Some) == (c0.pixels is Some)
            &&& c1.dirty_rect == if writes_in(m0, pts, n, k, fill) {
                Some(full_chunk_rect())
            } else {
                c0.dirty_rect
            }
        }
}

/// Filling then clearing the same points gives back the air at every point
/// that held the plain air pixel.
pub proof fn lemma_fill_then_clear(
    m0: Map<u32, ServerChunk>,
    m1: Map<u32, ServerChunk>,
    m2: Map<u32, ServerChunk>,
    pts: Seq<(i64, i64)>,
    x: int,
    y: int,
)
    requires
        objects_written(m0, m1, pts, pts.len() as int, true),
        objects_written(m1, m2, pts, pts.len() as int, false),
        pixel_ok(x, y),
        hit(pts, pts.len() as int, x, y),
        world_get(m0, x, y) == Some(spec_air()),
    ensures
        world_get(m2, x, y) == Some(spec_air()),
{
    assert(world_get(m1, x, y) == Some(object_over(spec_air())));
}

/// After clearing, none of the points holds a dummy object pixel.
pub proof fn lemma_cleared_points(
    m0: Map<u32, ServerChunk>,
    m1: Map<u32, ServerChunk>,
    pts: Seq<(i64, i64)>,
    i: int,
)
    requires
        objects_written(m0, m1, pts, pts.len() as int, false),
        0 <= i < pts.len(),
        pixel_ok(pts[i].0 as int, pts[i].1 as int),
    ensures
        !clearable(m1, pts[i]),
{
    assert(same_place(pts[i], pts[i].0 as int, pts[i].1 as int));
    assert(hit(pts, pts.len() as int, pts[i].0 as int, pts[i].1 as int));
}

impl ChunkHandler {
    /// Puts a dummy object pixel at each of the points (in order) that holds
    /// the air material, as the world does under the hitboxes of objects
    /// before simulating (see `objects_written`).
    pub fn fill_objects(&mut self, pts: &[(i64, i64)])
        requires
            old(self).wf(),
            forall|i: int| 0 <= i < pts@.len() ==> pixel_ok(#[trigger] pts@[i].0 as int, pts@[i].1 as int),
        ensures
            final(self).wf(),
            final(self).load_queue@ == old(self).load_queue@,
            final(self).screen_size == old(self).screen_size,
            final(self).path == old(self).path,
            final(self).generator == old(self).generator,
            objects_written(old(self).loaded_chunks@, final(self).loaded_chunks@, pts@, pts@.len() as int, true),
    {
        self.write_objects(pts, true);
    }

    /// Turns each dummy object pixel at the points back into air, as the
    /// world does after simulating (see `objects_written`).
    pub fn clear_objects(&mut self, pts: &[(i64, i64)])
        requires
            old(self).wf(),
            forall|i: int| 0 <= i < pts@.len() ==> pixel_ok(#[trigger] pts@[i].0 as int, pts@[i].1 as int),
        ensures
            final(self).wf(),
            final(self).load_queue@ == old(self).load_queue@,
            final(self).screen_size == old(self).screen_size,
            final(self).path == old(self).path,
            final(self).generator == old(self).generator,
            objects_written(old(self).loaded_chunks@, final(self).loaded_chunks@, pts@, pts@.len() as int, false),
    {
        self.write_objects(pts, false);
    }

    fn write_objects(&mut self, pts: &[(i64, i64)], fill: bool)
        requires
            old(self).wf(),
            forall|i: int| 0 <= i < pts@.len() ==> pixel_ok(#[trigger] pts@[i].0 as int, pts@[i].1 as int),
        ensures
            final(self).wf(),
            final(self).load_queue@ == old(self).load_queue@,
            final(self).screen_size == old(self).screen_size,
            final(self).path == old(self).path,
            final(self).generator == old(self).generator,
            objects_written(old(self).loaded_chunks@, final(self).loaded_chunks@, pts@, pts@.len() as int, fill),
    {
        let ghost m0 = self.loaded_chunks@;
        let mut i: usize = 0;
        while i < pts.len()
            invariant
                0 <= i <= pts@.len(),
                forall|j: int| 0 <= j < pts@.len() ==> pixel_ok(#[trigger] pts@[j].0 as int, pts@[j].1 as int),
                self.wf(),
                self.load_queue@ == old(self).load_queue@,
                self.screen_size == old(self).screen_size,
                self.path == old(self).path,
                self.generator == old(self).generator,
                m0 == old(self).loaded_chunks@,
                objects_written(m0, self.loaded_chunks@, pts@, i as int, fill),
            decreases pts@.len() - i,
        {
            let (x, y) = pts[i];
            let ghost before = self.loaded_chunks@;
            let cur = match self.get(x, y) {
                Ok(m) => Some(*m),
                Err(_) => None,
            };
            let mut wrote = false;
            match cur {
                Some(m) => {
                    if fill && m.material_id == 0 {
                        let _ = self.set(x, y, MaterialInstance { physics: PhysicsType::Object, color: Color::rgb(0, 255, 0), ..m });
                        wrote = true;
                    } else if !fill && m.physics == PhysicsType::Object {
                        let _ = self.set(x, y, MaterialInstance::air());
                        wrote = true;
                    }
                },
                None => {},
            }
            proof {
                lemma_write_step(m0, before, self.loaded_chunks@, pts@, i as int, fill, wrote);
            }
            i = i + 1;
        }
    }
}

/// One more point written keeps `objects_written`.
proof fn lemma_write_step(
    m0: Map<u32, ServerChunk>,
    before: Map<u32, ServerChunk>,
    after: Map<u32, ServerChunk>,
    pts: Seq<(i64, i64)>,
    i: int,
    fill: bool,
    wrote: bool,
)
    requires
        0 <= i < pts.len(),
        pixel_ok(pts[i].0 as int, pts[i].1 as int),
        objects_written(m0, before, pts, i, fill),
        ({
            let (x, y) = (pts[i].0 as int, pts[i].1 as int);
            wrote ==> match world_get(before, x, y) {
                Some(mat) => world_written(
                    before,
                    after,
                    x,
                    y,
                    if fill {
                        object_over(mat)
                    } else {
                        spec_air()
                    },
                ) && (if fill {
                    mat.material_id == 0
                } else {
                    mat.physics == PhysicsType::Object
                }),
                None => false,
            }
        }),
        !wrote ==> after == before && match world_get(before, pts[i].0 as int, pts[i].1 as int) {
            Some(mat) => !(if fill {
                mat.material_id == 0
            } else {
                mat.physics == PhysicsType::Object
            }),
            None => true,
        },
    ensures
        objects_written(m0, after, pts, i + 1, fill),
{
    let (px, py) = (pts[i].0 as int, pts[i].1 as int);
    assert(same_place(pts[i], px, py));
    assert(hit(pts, i + 1, px, py));
    assert forall|x: int, y: int| pixel_ok(x, y) implies #[trigger] world_get(after, x, y) == if hit(pts, i + 1, x, y) {
        match world_get(m0, x, y) {
            Some(mat) => if fill && mat.material_id == 0 {
                Some(object_over(mat))
            } else if !fill && mat.physics == PhysicsType::Object {
                Some(spec_air())
            } else {
                Some(mat)
            },
            None => None,
        }
    } else {
        world_get(m0, x, y)
    } by {
        assert(world_get(before, x, y) == if hit(pts, i, x, y) {
            match world_get(m0, x, y) {
                Some(mat) => if fill && mat.material_id == 0 {
                    Some(object_over(mat))
                } else if !fill && mat.physics == PhysicsType::Object {
                    Some(spec_air())
                } else {
                    Some(mat)
                },
                None => None,
            }
        } else {
            world_get(m0, x, y)
        });
        let same = same_place(pts[i], x, y);
        if same {
            assert(hit(pts, i, x, y) == hit(pts, i, px, py)) by {
                if hit(pts, i, x, y) {
                    let j = choose|j: int| 0 <= j < i && same_place(#[trigger] pts[j], x, y);
                    assert(same_place(pts[j], px, py));
                }
                if hit(pts, i, px, py) {
                    let j = choose|j: int| 0 <= j < i && same_place(#[trigger] pts[j], px, py);
                    assert(same_place(pts[j], x, y));
                }
            }
            assert(world_get(before, x, y) == world_get(before, px, py));
            assert(world_get(m0, x, y) == world_get(m0, px, py));
            if wrote {
                let mat = world_get(before, px, py).unwrap();
                lemma_get_after_set(before, after, px, py, if fill { object_over(mat) } else { spec_air() });
                assert(world_get(after, x, y) == world_get(after, px, py));
            }
        } else {
            if wrote {
                let mat = world_get(before, px, py).unwrap();
                lemma_set_keeps_others(before, after, px, py, if fill { object_over(mat) } else { spec_air() }, x, y);
            }
            if hit(pts, i + 1, x, y) {
                let j = choose|j: int| 0 <= j < i + 1 && same_place(#[trigger] pts[j], x, y);
                assert(j < i);
                assert(hit(pts, i, x, y));
            }
        }
    }
    assert forall|k: u32| #[trigger] m0.contains_key(k) implies ({
        let c0 = m0[k];
        let c1 = after[k];
        &&& c1.chunk_x == c0.chunk_x
        &&& c1.chunk_y == c0.chunk_y
        &&& c1.state == c0.state
        &&& c1.pixel_data == c0.pixel_data
        &&& c1.dirty == c0.dirty
        &&& (c1.pixels is Some) == (c0.pixels is Some)
        &&& c1.dirty_rect == if writes_in(m0, pts, i + 1, k, fill) {
            Some(full_chunk_rect())
        } else {
            c0.dirty_rect
        }
    }) by {
        let k_i = pixel_key(px, py);
        let pred_m0 = if fill { fillable(m0, pts[i]) } else { clearable(m0, pts[i]) };
        if wrote {
            assert(pred_m0);
        } else if pred_m0 {
            // the pixel was already written for an earlier point in the same place
            assert(hit(pts, i, px, py));
            let j = choose|j: int| 0 <= j < i && same_place(#[trigger] pts[j], px, py);
            assert(world_get(m0, pts[j].0 as int, pts[j].1 as int) == world_get(m0, px, py));
            assert(writes_in(m0, pts, i, k_i, fill));
        }
        if writes_in(m0, pts, i + 1, k, fill) && !writes_in(m0, pts, i, k, fill) {
            let j = choose|j: int|
                0 <= j < i + 1 && pixel_key(pts[j].0 as int, pts[j].1 as int) == k && (if fill {
                    fillable(m0, #[trigger] pts[j])
                } else {
                    clearable(m0, pts[j])
                });
            assert(j == i);
        }
        if writes_in(m0, pts, i, k, fill) {
            let j = choose|j: int|
                0 <= j < i && pixel_key(pts[j].0 as int, pts[j].1 as int) == k && (if fill {
                    fillable(m0, #[trigger] pts[j])
                } else {
                    clearable(m0, pts[j])
                });
            assert(j < i + 1);
        }
        if wrote && k_i != k {
            assert(after[k] == before[k]);
        }
    }
}

} // verus!
