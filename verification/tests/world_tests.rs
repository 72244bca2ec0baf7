use sandengine::chunk::ChunkState;
use sandengine::chunk_handler::ChunkHandler;
use sandengine::gen::TestGenerator;
use sandengine::material::{Color, MaterialInstance, PhysicsType};
use sandengine::rect::Rect;
use sandengine::simulator::{SimulationHelperChunk, Simulator};
use sandengine::tick::{TickAction, TickEvent, TickStage, TickState};

fn solid() -> MaterialInstance {
    MaterialInstance { material_id: 1, physics: PhysicsType::Solid, color: Color::rgb(50, 50, 50) }
}

fn sand() -> MaterialInstance {
    MaterialInstance { material_id: 2, physics: PhysicsType::Sand, color: Color::rgb(200, 180, 40) }
}

fn handler() -> ChunkHandler {
    ChunkHandler::new(TestGenerator::new(), None)
}

/// A handler with the chunk at `(cx, cy)` loaded and filled with `fill`.
fn handler_with_chunk(cx: i32, cy: i32, fill: MaterialInstance) -> ChunkHandler {
    let mut ch = handler();
    assert_eq!(ch.sync_chunk(cx, cy, vec![fill; 16384], vec![0u8; 65536]), Ok(()));
    ch
}

#[test]
fn new_handler_is_empty() {
    let ch = handler();
    assert!(ch.loaded_chunks.is_empty());
    assert!(ch.load_queue.is_empty());
    assert_eq!(ch.screen_size, (960, 540));
    assert!(ch.path.is_none());
}

#[test]
fn pixel_to_chunk_rounds_down() {
    let ch = handler();
    assert_eq!(ch.pixel_to_chunk_pos(0, 0), (0, 0));
    assert_eq!(ch.pixel_to_chunk_pos(127, 128), (0, 1));
    assert_eq!(ch.pixel_to_chunk_pos(-1, -128), (-1, -1));
    assert_eq!(ch.pixel_to_chunk_pos(-129, 300), (-2, 2));
}

#[test]
fn queue_load_chunk_once() {
    let mut ch = handler();
    assert!(ch.queue_load_chunk(2, 3));
    assert!(!ch.queue_load_chunk(2, 3));
    assert!(ch.queue_load_chunk(-1, 0));
    assert_eq!(ch.load_queue, vec![(2, 3), (-1, 0)]);
    ch.load_queued_chunks();
    assert!(ch.load_queue.is_empty());
    assert!(ch.is_chunk_loaded(2, 3));
    assert!(ch.is_chunk_loaded(-1, 0));
    assert!(!ch.queue_load_chunk(2, 3));
    let c = ch.get_chunk(2, 3).unwrap();
    assert_eq!((c.chunk_x, c.chunk_y, c.state), (2, 3, ChunkState::NotGenerated));
    assert!(c.pixels.is_none());
    assert!(ch.is_pixel_loaded(2 * 128 + 5, 3 * 128 + 127));
    assert!(!ch.is_pixel_loaded(0, 0));
}

#[test]
fn load_queued_chunks_takes_at_most_64_from_the_end() {
    let mut ch = handler();
    for i in 0..70 {
        ch.queue_load_chunk(i, 0);
    }
    ch.load_queued_chunks();
    assert_eq!(ch.load_queue.len(), 6);
    assert_eq!(ch.load_queue, (0..6).map(|i| (i, 0)).collect::<Vec<_>>());
    assert_eq!(ch.loaded_chunks.len(), 64);
    assert!(ch.is_chunk_loaded(69, 0));
    assert!(!ch.is_chunk_loaded(5, 0));
}

#[test]
fn world_get_errors() {
    let mut ch = handler();
    assert_eq!(ch.get(10, 10), Err("Position is not loaded".to_string()));
    assert_eq!(ch.set(10, 10, sand()), Err("Position is not loaded".to_string()));
    ch.queue_load_chunk(0, 0);
    ch.load_queued_chunks();
    assert_eq!(ch.get(10, 10), Err("Chunk is not ready yet.".to_string()));
    assert_eq!(ch.set(10, 10, sand()), Err("Chunk is not ready yet.".to_string()));
}

#[test]
fn world_set_then_get() {
    let mut ch = handler_with_chunk(-1, 2, MaterialInstance::air());
    let (x, y) = (-128 + 17, 2 * 128 + 100);
    assert_eq!(ch.set(x, y, sand()), Ok(()));
    assert_eq!(ch.get(x, y), Ok(&sand()));
    assert_eq!(ch.get(x + 1, y), Ok(&MaterialInstance::air()));
    let c = ch.get_chunk(-1, 2).unwrap();
    assert_eq!(c.pixels.as_ref().unwrap()[17 + 100 * 128], sand());
    assert_eq!(c.dirty_rect, Some(Rect::new(0, 0, 128, 128)));
}

#[test]
fn displace_takes_the_spot_itself_when_air() {
    let mut ch = handler_with_chunk(0, 0, MaterialInstance::air());
    assert!(ch.displace(50, 50, sand()));
    assert_eq!(ch.get(50, 50), Ok(&sand()));
}

#[test]
fn displace_spirals_to_nearest_air() {
    let mut ch = handler_with_chunk(0, 0, solid());
    // the spiral goes (0,0), (1,0), (1,1), (0,1), (-1,1), ...
    ch.set(51, 50, MaterialInstance::air()).unwrap();
    ch.set(51, 51, MaterialInstance::air()).unwrap();
    assert!(ch.displace(50, 50, sand()));
    assert_eq!(ch.get(51, 50), Ok(&sand()));
    assert_eq!(ch.get(51, 51), Ok(&MaterialInstance::air()));
}

#[test]
fn displace_fails_without_air() {
    let mut ch = handler_with_chunk(0, 0, solid());
    assert!(!ch.displace(64, 64, sand()));
    assert_eq!(ch.get(64, 64), Ok(&solid()));
}

#[test]
fn raycast_finds_first_solid() {
    let mut ch = handler_with_chunk(0, 0, MaterialInstance::air());
    ch.set(5, 5, solid()).unwrap();
    ch.set(8, 8, solid()).unwrap();
    let hit = ch.raycast(0, 0, 10, 10, |_, _| true);
    assert_eq!(hit, Some(((5, 5), solid())));
    let hit = ch.raycast(0, 0, 10, 10, |p, _| p != (5, 5));
    assert_eq!(hit, Some(((8, 8), solid())));
    let miss = ch.raycast(0, 0, 10, 0, |_, _| true);
    assert_eq!(miss, None);
    // the end point is part of the ray
    let end = ch.raycast(0, 8, 8, 8, |_, _| true);
    assert_eq!(end, Some(((8, 8), solid())));
}

#[test]
fn force_update_marks_whole_chunk() {
    let mut ch = handler_with_chunk(1, 1, MaterialInstance::air());
    assert_eq!(ch.get_chunk(1, 1).unwrap().dirty_rect, None);
    ch.force_update_chunk(1, 1);
    assert_eq!(ch.get_chunk(1, 1).unwrap().dirty_rect, Some(Rect::new(0, 0, 128, 128)));
    ch.force_update_chunk(5, 5);
    assert!(!ch.is_chunk_loaded(5, 5));
}

#[test]
fn sync_chunk_size_errors() {
    let mut ch = handler();
    assert_eq!(
        ch.sync_chunk(0, 0, vec![MaterialInstance::air(); 10], vec![0u8; 65536]),
        Err("pixels Vec is the wrong size: 10 (expected 16384)".to_string())
    );
    assert_eq!(
        ch.sync_chunk(0, 0, vec![MaterialInstance::air(); 16384], vec![0u8; 3]),
        Err("colors Vec is the wrong size: 3 (expected 65536)".to_string())
    );
    assert!(ch.loaded_chunks.is_empty());
    assert_eq!(ch.sync_chunk(0, 0, vec![MaterialInstance::air(); 16384], vec![9u8; 65536]), Ok(()));
    let c = ch.get_chunk(0, 0).unwrap();
    assert_eq!(c.state, ChunkState::Cached);
    assert!(c.dirty);
    assert_eq!(c.pixel_data[100], 9);
}

#[test]
fn restore_saved_chunk_needs_all_pixels() {
    let mut ch = handler();
    ch.queue_load_chunk(3, 4);
    ch.load_queued_chunks();
    let k = ch.chunk_index(3, 4);
    assert!(!ch.restore_saved_chunk(k, vec![sand(); 100], vec![0u8; 65536]));
    assert_eq!(ch.get_chunk(3, 4).unwrap().state, ChunkState::NotGenerated);
    assert!(ch.restore_saved_chunk(k, vec![sand(); 16384], vec![1u8; 12]));
    let c = ch.get_chunk(3, 4).unwrap();
    assert_eq!(c.state, ChunkState::Cached);
    assert_eq!(c.pixels.as_ref().unwrap()[0], sand());
    // colors of the wrong size are not taken
    assert_eq!(c.pixel_data.len(), 65536);
    assert_eq!(c.pixel_data[0], 0);
}

#[test]
fn generation_runs_through_stages() {
    let mut ch = handler();
    let loader = [(0, 0)];
    ch.queue_load_zones(&loader);
    while !ch.load_queue.is_empty() {
        ch.load_queued_chunks();
    }
    let to_generate = ch.select_chunks_to_generate(&loader);
    assert!(!to_generate.is_empty());
    assert!(to_generate.len() <= 32);
    let k0 = ch.chunk_index(0, 0);
    assert!(to_generate.contains(&k0));
    for k in &to_generate {
        ch.begin_generation(*k, vec![MaterialInstance::air(); 16384], vec![0u8; 65536]);
    }
    assert_eq!(ch.get_chunk(0, 0).unwrap().state, ChunkState::Generating(0));
    let unload = ch.advance_generation(&loader);
    assert!(unload.is_empty());
    for _ in 0..50 {
        let more = ch.select_chunks_to_generate(&loader);
        for k in &more {
            ch.begin_generation(*k, vec![MaterialInstance::air(); 16384], vec![0u8; 65536]);
        }
        ch.advance_generation(&loader);
    }
    assert_eq!(ch.get_chunk(0, 0).unwrap().state, ChunkState::Cached);
    let unload = ch.update_chunk_states(&loader);
    assert!(unload.is_empty());
    assert_eq!(ch.get_chunk(0, 0).unwrap().state, ChunkState::Active);
}

#[test]
fn unload_chunks() {
    let mut ch = handler_with_chunk(0, 0, MaterialInstance::air());
    ch.sync_chunk(1, 0, vec![MaterialInstance::air(); 16384], vec![0u8; 65536]).unwrap();
    let k = ch.chunk_index(1, 0);
    let c = ch.unload_chunk(k).unwrap();
    assert_eq!((c.chunk_x, c.chunk_y), (1, 0));
    assert!(ch.unload_chunk(k).is_none());
    assert!(ch.is_chunk_loaded(0, 0));
    assert_eq!(ch.unload_all_chunks(), Ok(()));
    assert!(ch.loaded_chunks.is_empty());
}

#[test]
fn chunk_index_inverse_round_trip() {
    let ch = handler();
    for (x, y) in [(0, 0), (-5, 7), (1000, -2000), (-27804, 18537)] {
        let k = ch.chunk_index(x, y);
        assert_eq!(ch.chunk_index_inv(k), (x, y));
    }
}

/// The nine chunks of a neighborhood, all air, with nothing dirty.
fn neighborhood() -> (Vec<MaterialInstance>, Vec<u8>, Vec<bool>, Vec<Option<Rect<i32>>>) {
    (vec![MaterialInstance::air(); 9 * 16384], vec![0u8; 36 * 16384], vec![false; 9], vec![None; 9])
}

fn center(x: usize, y: usize) -> usize {
    4 * 16384 + x + y * 128
}

#[test]
fn sand_falls_straight_down_between_walls() {
    let (mut px, mut colors, mut dirty, mut rects) = neighborhood();
    px[center(10, 10)] = sand();
    px[center(9, 11)] = solid();
    px[center(11, 11)] = solid();
    px[center(10, 12)] = solid();
    rects[4] = Some(Rect::new(10, 10, 11, 11));
    let mut particles = Vec::new();
    Simulator::simulate_chunk(0, 0, &mut px, &mut colors, &mut dirty, &mut rects, &mut particles);
    assert_eq!(px[center(10, 11)], sand());
    assert_eq!(px[center(10, 10)], MaterialInstance::air());
    let o = 4 * center(10, 11);
    assert_eq!(&colors[o..o + 4], &[200, 180, 40, 255]);
    assert_eq!(dirty[4], true);
    assert_eq!(rects[4], Some(Rect::new(10, 10, 11, 12)));
    for i in [0, 1, 2, 3, 5, 6, 7, 8] {
        assert_eq!(rects[i], None);
        assert!(!dirty[i]);
    }
    assert!(particles.is_empty());
}

#[test]
fn sand_over_a_drop_becomes_a_particle() {
    let (mut px, mut colors, mut dirty, mut rects) = neighborhood();
    px[center(10, 10)] = sand();
    px[center(9, 11)] = solid();
    px[center(11, 11)] = solid();
    rects[4] = Some(Rect::new(10, 10, 11, 11));
    let mut particles = Vec::new();
    Simulator::simulate_chunk(2, -1, &mut px, &mut colors, &mut dirty, &mut rects, &mut particles);
    assert_eq!(particles, vec![(sand(), 2 * 128 + 10, -128 + 10)]);
    assert_eq!(px[center(10, 10)], MaterialInstance::air());
    assert_eq!(px[center(10, 11)], MaterialInstance::air());
    assert_eq!(rects[4], Some(Rect::new(10, 10, 11, 11)));
}

#[test]
fn sand_slides_to_the_free_diagonal() {
    let (mut px, mut colors, mut dirty, mut rects) = neighborhood();
    px[center(0, 127)] = sand();
    // below and below-right are blocked; below-left lies in the chunk below-left
    let below = 7 * 16384;
    let below_left = 6 * 16384 + 127;
    px[below] = solid();
    px[below + 1] = solid();
    rects[4] = Some(Rect::new(0, 127, 1, 128));
    let mut particles = Vec::new();
    Simulator::simulate_chunk(0, 0, &mut px, &mut colors, &mut dirty, &mut rects, &mut particles);
    assert_eq!(px[below_left], sand());
    assert_eq!(px[center(0, 127)], MaterialInstance::air());
    assert_eq!(rects[6], Some(Rect::new(127, 0, 128, 1)));
    assert!(dirty[6]);
    assert_eq!(rects[4], Some(Rect::new(0, 127, 1, 128)));
}

#[test]
fn blocked_sand_stays() {
    let (mut px, mut colors, mut dirty, mut rects) = neighborhood();
    px[center(10, 10)] = sand();
    for x in 9..12 {
        px[center(x, 11)] = solid();
    }
    rects[4] = Some(Rect::new(0, 0, 128, 128));
    let mut particles = Vec::new();
    let before = px.clone();
    Simulator::simulate_chunk(0, 0, &mut px, &mut colors, &mut dirty, &mut rects, &mut particles);
    assert!(px == before);
    assert!(rects.iter().all(|r| r.is_none()));
    assert!(dirty.iter().all(|d| !d));
}

#[test]
fn nothing_dirty_nothing_simulated() {
    let (mut px, mut colors, mut dirty, mut rects) = neighborhood();
    px[center(10, 10)] = sand();
    rects[0] = Some(Rect::new(0, 0, 5, 5));
    let mut particles = Vec::new();
    Simulator::simulate_chunk(0, 0, &mut px, &mut colors, &mut dirty, &mut rects, &mut particles);
    assert_eq!(px[center(10, 10)], sand());
    assert!(rects.iter().all(|r| r.is_none()));
}

#[test]
fn helper_chunk_local_pixels() {
    let (px, colors, dirty, _) = neighborhood();
    let mut h = SimulationHelperChunk {
        pixels: px,
        colors,
        dirty,
        min_x: vec![129; 9],
        min_y: vec![129; 9],
        max_x: vec![0; 9],
        max_y: vec![0; 9],
        particles: Vec::new(),
        chunk_x: 1,
        chunk_y: 1,
    };
    h.set_pixel_local(-1, 130, sand());
    assert_eq!(h.get_pixel_local(-1, 130), sand());
    assert_eq!(h.pixels[6 * 16384 + 127 + 2 * 128], sand());
    assert_eq!((h.min_x[6], h.min_y[6], h.max_x[6], h.max_y[6]), (127, 2, 127, 2));
    h.set_color_local(200, -5, Color::rgba(9, 8, 7, 6));
    assert_eq!(h.get_color_local(200, -5), Color::rgba(9, 8, 7, 6));
    assert!(h.dirty[2]);
    h.add_particle(sand(), 3, 4);
    assert_eq!(h.particles, vec![(sand(), 128 + 3, 128 + 4)]);
}

#[test]
fn simulate_active_chunks_moves_sand() {
    let mut ch = handler();
    for cy in -1..=1 {
        for cx in -1..=1 {
            ch.sync_chunk(cx, cy, vec![MaterialInstance::air(); 16384], vec![0u8; 65536]).unwrap();
        }
    }
    // make the center chunk active
    let k = ch.chunk_index(0, 0);
    let mut c = ch.loaded_chunks.remove(&k).unwrap();
    c.state = ChunkState::Active;
    ch.loaded_chunks.insert(k, c);
    ch.set(10, 10, sand()).unwrap();
    ch.set(9, 11, solid()).unwrap();
    ch.set(11, 11, solid()).unwrap();
    ch.set(10, 12, solid()).unwrap();
    let particles = ch.simulate_active_chunks();
    assert!(particles.is_empty());
    assert_eq!(ch.get(10, 11), Ok(&sand()));
    assert_eq!(ch.get(10, 10), Ok(&MaterialInstance::air()));
    assert_eq!(ch.get_chunk(0, 0).unwrap().state, ChunkState::Active);
}

fn sand_in_world(ch: &ChunkHandler) -> usize {
    ch.loaded_chunks
        .values()
        .map(|c| c.pixels.as_ref().map_or(0, |p| p.iter().filter(|m| **m == sand()).count()))
        .sum()
}

#[test]
fn simulation_conserves_sand() {
    let mut ch = handler();
    for cy in -2..=2 {
        for cx in -2..=2 {
            ch.sync_chunk(cx, cy, vec![MaterialInstance::air(); 16384], vec![0u8; 65536]).unwrap();
        }
    }
    for (cx, cy) in [(0, 0), (1, 0), (0, 1)] {
        let k = ch.chunk_index(cx, cy);
        let mut c = ch.loaded_chunks.remove(&k).unwrap();
        c.state = ChunkState::Active;
        ch.loaded_chunks.insert(k, c);
    }
    // a pile of sand falling onto a floor, some of it over open air
    for x in 0..256 {
        ch.set(x, 200, solid()).unwrap();
    }
    for y in 100..140 {
        for x in (20..200).step_by(3) {
            ch.set(x, y, sand()).unwrap();
        }
    }
    let before = sand_in_world(&ch);
    let mut spawned = 0;
    for _ in 0..20 {
        ch.force_update_chunk(0, 0);
        ch.force_update_chunk(1, 0);
        ch.force_update_chunk(0, 1);
        let particles = ch.simulate_active_chunks();
        spawned += particles.iter().filter(|p| p.0 == sand()).count();
    }
    assert!(spawned > 0);
    assert_eq!(sand_in_world(&ch) + spawned, before);
}

#[test]
fn queue_load_zones_goes_column_by_column() {
    let mut ch = handler();
    ch.queue_load_zones(&[(0, 0)]);
    // load zone (-1120, -910) to (1120, 910): 18 columns of 15 grid points
    assert_eq!(ch.load_queue.len(), 270);
    assert_eq!(ch.load_queue[0], (-9, -8));
    assert_eq!(ch.load_queue[1], (-9, -7));
    assert_eq!(ch.load_queue[15], (-8, -8));
    assert_eq!(ch.load_queue[269], (8, 6));
    // a second loader nearby only adds what is not queued yet
    ch.queue_load_zones(&[(0, 0), (128, 0)]);
    assert_eq!(ch.load_queue.len(), 285);
    assert_eq!(ch.load_queue[270], (9, -8));
}

#[test]
fn chunks_away_from_active_ones_only_lose_their_dirty_rect() {
    let mut ch = handler();
    for cy in -1..=1 {
        for cx in -1..=5 {
            ch.sync_chunk(cx, cy, vec![MaterialInstance::air(); 16384], vec![0u8; 65536]).unwrap();
        }
    }
    let k = ch.chunk_index(0, 0);
    let mut c = ch.loaded_chunks.remove(&k).unwrap();
    c.state = ChunkState::Active;
    ch.loaded_chunks.insert(k, c);
    // sand over open air in a chunk far from the active one
    ch.set(4 * 128 + 10, 10, sand()).unwrap();
    let far = ch.chunk_index(4, 0);
    let before = ch.loaded_chunks.get(&far).unwrap().pixels.clone();
    assert!(ch.get_chunk(4, 0).unwrap().dirty_rect.is_some());
    ch.simulate_active_chunks();
    let after = ch.get_chunk(4, 0).unwrap();
    assert_eq!(after.pixels, before);
    assert_eq!(after.dirty_rect, None);
    assert_eq!(ch.get(4 * 128 + 10, 10), Ok(&sand()));
}

#[test]
fn tick_steps_through_its_stages() {
    let mut ch = handler();
    // an odd tick loads chunks and simulates, nothing more
    let mut st = TickState::new(1, true, vec![(0, 0)]);
    match ch.tick_step(&mut st, TickEvent::Continue) {
        TickAction::Done(p) => assert!(p.is_empty()),
        _ => panic!("odd tick should end at once"),
    }
    assert_eq!(st.stage, TickStage::Done);
    assert_eq!(ch.loaded_chunks.len(), 64);
    // an even tick goes through saving, reading, generating and saving again
    let mut st = TickState::new(2, true, vec![(0, 0)]);
    match ch.tick_step(&mut st, TickEvent::Continue) {
        TickAction::Save(keys) => assert!(keys.is_empty()),
        _ => panic!("expected Save"),
    }
    let to_read = match ch.tick_step(&mut st, TickEvent::Continue) {
        TickAction::Read(keys) => keys,
        _ => panic!("expected Read"),
    };
    assert_eq!(to_read.len(), 32);
    // the first chunk has a save file, the others none
    let mut data: Vec<Option<(Vec<MaterialInstance>, Vec<u8>)>> = vec![None; to_read.len()];
    data[0] = Some((vec![sand(); 16384], vec![1u8; 65536]));
    let to_generate = match ch.tick_step(&mut st, TickEvent::Read(data)) {
        TickAction::Generate(keys) => keys,
        _ => panic!("expected Generate"),
    };
    assert_eq!(to_generate, to_read[1..].to_vec());
    assert_eq!(ch.loaded_chunks.get(&to_read[0]).unwrap().state, ChunkState::Cached);
    let generated = to_generate.iter().map(|_| (vec![MaterialInstance::air(); 16384], vec![0u8; 65536])).collect();
    match ch.tick_step(&mut st, TickEvent::Generated(generated)) {
        TickAction::Save(keys) => assert!(keys.is_empty()),
        _ => panic!("expected Save"),
    }
    assert!(matches!(ch.loaded_chunks.get(&to_read[1]).unwrap().state, ChunkState::Generating(_)));
    match ch.tick_step(&mut st, TickEvent::Continue) {
        TickAction::Done(_) => {},
        _ => panic!("expected Done"),
    }
    assert_eq!(st.stage, TickStage::Done);
}

#[test]
fn sand_rule_with_given_rolls() {
    let (px, colors, dirty, _) = neighborhood();
    let mut h = SimulationHelperChunk {
        pixels: px,
        colors,
        dirty,
        min_x: vec![129; 9],
        min_y: vec![129; 9],
        max_x: vec![0; 9],
        max_y: vec![0; 9],
        particles: Vec::new(),
        chunk_x: 0,
        chunk_y: 0,
    };
    h.set_pixel_local(10, 10, sand());
    h.set_pixel_local(10, 11, solid());
    // both diagonals free: `right` picks the right one
    let r = Simulator::simulate_pixel_with(10, 10, sand(), false, true, &mut h);
    assert_eq!(r, Some(MaterialInstance::air()));
    assert_eq!(h.get_pixel_local(11, 11), sand());
    assert_eq!(h.get_pixel_local(9, 11), MaterialInstance::air());
    // and the left one otherwise
    let r = Simulator::simulate_pixel_with(10, 10, sand(), false, false, &mut h);
    assert_eq!(r, Some(MaterialInstance::air()));
    assert_eq!(h.get_pixel_local(9, 11), sand());
    // not sand: nothing happens
    assert_eq!(Simulator::simulate_pixel_with(10, 11, solid(), true, true, &mut h), None);
}

#[test]
fn object_pixels_fill_and_clear() {
    let mut ch = handler_with_chunk(0, 0, MaterialInstance::air());
    ch.set(5, 5, sand()).unwrap();
    let pts = [(4, 4), (5, 5), (4, 4), (200, 200)];
    ch.fill_objects(&pts);
    let obj = ch.get(4, 4).unwrap().clone();
    assert_eq!(obj.physics, PhysicsType::Object);
    assert_eq!(obj.material_id, 0);
    assert_eq!(obj.color, Color::rgb(0, 255, 0));
    // sand is not air: it stays
    assert_eq!(ch.get(5, 5), Ok(&sand()));
    assert_eq!(ch.get(6, 6), Ok(&MaterialInstance::air()));
    ch.clear_objects(&pts);
    assert_eq!(ch.get(4, 4), Ok(&MaterialInstance::air()));
    assert_eq!(ch.get(5, 5), Ok(&sand()));
}

fn run_tick(ch: &mut ChunkHandler, tick_time: u32, loaders: &[(i32, i32)]) {
    let mut st = TickState::new(tick_time, true, loaders.to_vec());
    let mut ev = TickEvent::Continue;
    loop {
        match ch.tick_step(&mut st, ev) {
            TickAction::Save(_) => ev = TickEvent::Continue,
            TickAction::Read(keys) => ev = TickEvent::Read(keys.iter().map(|_| None).collect()),
            TickAction::Generate(keys) => {
                ev = TickEvent::Generated(
                    keys.iter().map(|_| (vec![MaterialInstance::air(); 16384], vec![0u8; 65536])).collect(),
                )
            },
            TickAction::Done(_) => break,
        }
    }
}

fn state_step_allowed(s0: ChunkState, s1: ChunkState) -> bool {
    if s1 == s0 {
        return true;
    }
    match (s0, s1) {
        (ChunkState::NotGenerated, ChunkState::Cached) => true,
        (ChunkState::NotGenerated, ChunkState::Generating(g)) => g <= 1,
        (ChunkState::Generating(g), ChunkState::Cached) => g >= 2,
        (ChunkState::Generating(g), ChunkState::Generating(g1)) => g < 2 && g1 == g + 1,
        (ChunkState::Cached, ChunkState::Active) => true,
        (ChunkState::Active, ChunkState::Cached) => true,
        _ => false,
    }
}

fn settled_before(ch: &ChunkHandler, before: &std::collections::HashMap<u32, ChunkState>, x: i32, y: i32) -> bool {
    matches!(before.get(&ch.chunk_index(x, y)), Some(ChunkState::Cached) | Some(ChunkState::Active))
}

#[test]
fn chunk_states_move_one_step_per_tick() {
    let mut ch = handler();
    let loaders = [(0, 0)];
    let mut activated = 0;
    for t in 0..40u32 {
        let before: std::collections::HashMap<u32, ChunkState> =
            ch.loaded_chunks.iter().map(|(k, c)| (*k, c.state)).collect();
        let places: std::collections::HashMap<u32, (i32, i32)> =
            ch.loaded_chunks.iter().map(|(k, c)| (*k, (c.chunk_x, c.chunk_y))).collect();
        run_tick(&mut ch, t, &loaders);
        for (k, c) in ch.loaded_chunks.iter() {
            if let Some(s0) = before.get(k) {
                assert_eq!(places[k], (c.chunk_x, c.chunk_y));
                assert!(state_step_allowed(*s0, c.state), "{:?} -> {:?}", s0, c.state);
                if *s0 != ChunkState::Active && c.state == ChunkState::Active {
                    activated += 1;
                    for dx in -1..=1 {
                        for dy in -1..=1 {
                            assert!(settled_before(&ch, &before, c.chunk_x + dx, c.chunk_y + dy));
                        }
                    }
                }
            }
        }
    }
    assert!(activated > 0);
}
