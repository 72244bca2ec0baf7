use std::path::PathBuf;

use sandengine::chunk::{ChunkState, ServerChunk};
use sandengine::coords::{CHUNK_AREA, CHUNK_SIZE};
use sandengine::file_helper::FileHelper;
use sandengine::gen::TestGenerator;
use sandengine::material::{air_material, test_material, Color, InObjectState, MaterialInstance, PhysicsType};
use sandengine::modding::ModMeta;
use sandengine::rect::Rect;

fn sand(r: u8) -> MaterialInstance {
    MaterialInstance { material_id: 2, physics: PhysicsType::Sand, color: Color::rgb(r, 200, 0) }
}

#[test]
fn rect_corners_and_size() {
    let r = Rect::new(-3, 4, 10, 20);
    assert_eq!((r.left(), r.top(), r.right(), r.bottom()), (-3, 4, 10, 20));
    assert_eq!(r.width(), 13);
    assert_eq!(r.height(), 16);
    assert_eq!(r.range_lr(), -3..10);
    assert_eq!(r.range_tb(), 4..20);

    let w = Rect::new_wh(5, -6, 7, 8);
    assert_eq!(w, Rect::new(5, -6, 12, 2));
}

#[test]
fn rect_inflated_grows_every_side() {
    let r = Rect::new(0, 0, 10, 10).inflated(3);
    assert_eq!(r, Rect::new(-3, -3, 13, 13));
    let s = Rect::new(0, 0, 10, 10).inflated(-2);
    assert_eq!(s, Rect::new(2, 2, 8, 8));
}

#[test]
fn rect_intersects_edges_included() {
    let a = Rect::new(0, 0, 10, 10);
    assert!(a.intersects(&Rect::new(10, 10, 20, 20)));
    assert!(a.intersects(&Rect::new(2, 2, 3, 3)));
    assert!(!a.intersects(&Rect::new(11, 0, 20, 10)));
    assert!(!a.intersects(&Rect::new(0, -5, 10, -1)));
    // symmetric
    let b = Rect::new(5, -5, 15, 5);
    assert_eq!(a.intersects(&b), b.intersects(&a));
}

#[test]
fn rect_contains_point_edges_included() {
    let a = Rect::new(0, 0, 10, 10);
    assert!(a.contains_point((0, 0)));
    assert!(a.contains_point((10, 10)));
    assert!(a.contains_point((5, 7)));
    assert!(!a.contains_point((11, 5)));
    assert!(!a.contains_point((5, -1)));
}

#[test]
fn rect_union_spans_both() {
    let a = Rect::new(0, 5, 10, 8);
    let b = Rect::new(-2, 6, 4, 12);
    let u = a.union(b);
    assert_eq!(u, Rect::new(-2, 5, 10, 12));
    assert_eq!(b.union(a), u);
    assert_eq!(a.union(a), a);
    assert!(u.contains_point((9, 7)));
    assert!(u.contains_point((-1, 11)));
}

#[test]
fn materials_and_colors() {
    assert_eq!(air_material().id, 0);
    assert_eq!(air_material().name, "Air");
    assert_eq!(test_material().id, 1);
    assert_eq!(test_material().name, "Test Material");
    assert_eq!(Color::rgb(1, 2, 3), Color { r: 1, g: 2, b: 3, a: 255 });
    assert_eq!(Color::rgba(1, 2, 3, 4), Color { r: 1, g: 2, b: 3, a: 4 });
    let air = MaterialInstance::air();
    assert_eq!(air.material_id, 0);
    assert_eq!(air.physics, PhysicsType::Air);
    assert_eq!(air.color, Color::rgba(0, 0, 0, 0));
    assert_eq!(MaterialInstance::default(), air);
    let m = MaterialInstance::new(7, PhysicsType::Liquid, Color::rgb(0, 0, 255));
    assert_eq!((m.material_id, m.physics, m.color), (7, PhysicsType::Liquid, Color::rgba(0, 0, 255, 255)));
}

#[test]
fn particle_object_states() {
    assert_eq!(InObjectState::FirstFrame.after_touching(PhysicsType::Object), InObjectState::Inside);
    assert_eq!(InObjectState::FirstFrame.after_touching(PhysicsType::Solid), InObjectState::Outside);
    assert_eq!(InObjectState::Inside.after_touching(PhysicsType::Object), InObjectState::Inside);
    assert_eq!(InObjectState::Inside.after_touching(PhysicsType::Sand), InObjectState::Outside);
    assert_eq!(InObjectState::Inside.after_touching(PhysicsType::Air), InObjectState::Outside);
    for p in [
        PhysicsType::Air,
        PhysicsType::Solid,
        PhysicsType::Sand,
        PhysicsType::Liquid,
        PhysicsType::Gas,
        PhysicsType::Object,
    ] {
        assert_eq!(InObjectState::Outside.after_touching(p), InObjectState::Outside);
    }
    assert!(!InObjectState::Inside.settles_on(PhysicsType::Object));
    assert!(!InObjectState::FirstFrame.settles_on(PhysicsType::Object));
    assert!(InObjectState::Outside.settles_on(PhysicsType::Object));
    assert!(InObjectState::Inside.settles_on(PhysicsType::Solid));
}

#[test]
fn mod_meta_names() {
    let m = ModMeta::new("fs_test".to_string());
    assert_eq!(m.id(), "fs_test");
    assert_eq!(m.display_name(), &None);
    let m = m.with_display_name("Test Mod".to_string());
    assert_eq!(m.id(), "fs_test");
    assert_eq!(m.display_name(), &Some("Test Mod".to_string()));
}

#[test]
fn file_helper_joins_paths() {
    let fh = FileHelper::new(PathBuf::from("gamedir"), PathBuf::from("assets"));
    assert_eq!(fh.game_path("saves/world"), PathBuf::from("gamedir/saves/world"));
    assert_eq!(fh.asset_path("texture/a.png"), PathBuf::from("assets/texture/a.png"));
    assert_ne!(fh.game_path("x"), PathBuf::from("gamedir"));
}

#[test]
fn generator_stages() {
    assert_eq!(TestGenerator::new().max_gen_stage(), 2);
}

#[test]
fn server_chunk_starts_empty() {
    let c = ServerChunk::new_empty(3, -4);
    assert_eq!(c.get_chunk_x(), 3);
    assert_eq!(c.get_chunk_y(), -4);
    assert_eq!(c.get_state(), ChunkState::NotGenerated);
    assert!(c.get_pixels().is_none());
    assert_eq!(c.get_dirty_rect(), None);
    assert_eq!(c.get_colors().len(), 4 * CHUNK_AREA);
    assert!(c.get_colors().iter().all(|b| *b == 0));
    assert!(c.dirty);
}

#[test]
fn server_chunk_errors() {
    let mut c = ServerChunk::new_empty(0, 0);
    assert_eq!(c.get(1, 1), Err("Chunk is not ready yet.".to_string()));
    assert_eq!(c.set(1, 1, sand(1)), Err("Chunk is not ready yet.".to_string()));
    assert_eq!(c.get(CHUNK_SIZE, 0), Err("Invalid pixel coordinate.".to_string()));
    assert_eq!(c.set(0, 200, sand(1)), Err("Invalid pixel coordinate.".to_string()));
    assert_eq!(c.set_color(128, 0, Color::rgb(1, 1, 1)), Err("Invalid pixel coordinate.".to_string()));
    assert_eq!(c.get_color(0, 128), Err("Invalid pixel coordinate.".to_string()));
    assert_eq!(c.get_dirty_rect(), None);
}

#[test]
fn server_chunk_set_then_get() {
    let mut c = ServerChunk::new_empty(0, 0);
    c.set_pixels(vec![MaterialInstance::air(); CHUNK_AREA]);
    assert_eq!(c.set(5, 7, sand(9)), Ok(()));
    assert_eq!(c.get(5, 7), Ok(&sand(9)));
    assert_eq!(c.get(7, 5), Ok(&MaterialInstance::air()));
    assert_eq!(c.get_pixels().as_ref().unwrap()[5 + 7 * 128], sand(9));
    assert_eq!(c.get_dirty_rect(), Some(Rect::new(0, 0, 128, 128)));

    assert_eq!(c.set_color(127, 127, Color::rgba(1, 2, 3, 4)), Ok(()));
    assert_eq!(c.get_color(127, 127), Ok(Color::rgba(1, 2, 3, 4)));
    assert_eq!(&c.get_colors()[65532..65536], &[1, 2, 3, 4]);
    assert_eq!(c.get_color(0, 0), Ok(Color::rgba(0, 0, 0, 0)));
}

#[test]
fn server_chunk_apply_diff_in_order() {
    let mut c = ServerChunk::new_empty(0, 0);
    c.set_pixels(vec![MaterialInstance::air(); CHUNK_AREA]);
    c.apply_diff(&[]);
    assert_eq!(c.get_dirty_rect(), None);
    c.apply_diff(&[(1, 1, sand(1)), (2, 2, sand(2)), (1, 1, sand(3))]);
    assert_eq!(c.get(1, 1), Ok(&sand(3)));
    assert_eq!(c.get(2, 2), Ok(&sand(2)));
    assert_eq!(c.get(3, 3), Ok(&MaterialInstance::air()));
    assert_eq!(c.get_dirty_rect(), Some(Rect::new(0, 0, 128, 128)));
}

#[test]
fn server_chunk_state_and_graphics() {
    let mut c = ServerChunk::new_empty(1, 1);
    c.set_state(ChunkState::Generating(1));
    assert_eq!(c.get_state(), ChunkState::Generating(1));
    c.set_dirty_rect(Some(Rect::new(1, 2, 3, 4)));
    assert_eq!(c.get_dirty_rect(), Some(Rect::new(1, 2, 3, 4)));
    c.dirty = false;
    c.mark_dirty();
    assert!(c.dirty);
    assert_eq!(c.update_graphics(), Ok(()));
    c.refresh();
    assert_eq!(c.get_state(), ChunkState::Generating(1));
    c.set_pixel_colors(vec![7u8; 65536]);
    assert_eq!(c.get_color(10, 10), Ok(Color::rgba(7, 7, 7, 7)));
}

#[test]
fn generator_pixels_from_noise_signs() {
    let mut open = vec![false; 16384];
    let mut sandy = vec![false; 16384];
    open[0] = true;
    sandy[1] = true;
    let (px, col) = TestGenerator::new().generate_from_noise(&open, &sandy);
    assert_eq!(px.len(), 16384);
    assert_eq!(col.len(), 65536);
    assert_eq!(px[0], MaterialInstance::air());
    assert_eq!(&col[0..4], &[0, 0, 0, 0]);
    assert_eq!(px[1], MaterialInstance { material_id: 1, physics: PhysicsType::Sand, color: Color::rgb(0, 0, 255) });
    assert_eq!(&col[4..8], &[0, 255, 0, 255]);
    assert_eq!(px[2], MaterialInstance { material_id: 1, physics: PhysicsType::Solid, color: Color::rgb(0, 255, 0) });
    assert_eq!(&col[8..12], &[255, 0, 0, 255]);
}
