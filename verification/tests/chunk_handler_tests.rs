use sandengine::chunk::ChunkState;
use sandengine::chunk_handler::ChunkHandler;
use sandengine::gen::TestGenerator;
use sandengine::material::MaterialInstance;
use sandengine::tick::{TickAction, TickEvent, TickState};

/// One game tick, run through the library's tick steps, with an all-air
/// generator standing in for the noise generator and no save files.
fn tick(ch: &mut ChunkHandler, tick_time: u32, loaders: &[(i32, i32)]) {
    let mut st = TickState::new(tick_time, true, loaders.to_vec());
    let mut ev = TickEvent::Continue;
    loop {
        match ch.tick_step(&mut st, ev) {
            TickAction::Save(_) => ev = TickEvent::Continue,
            TickAction::Read(keys) => ev = TickEvent::Read(keys.iter().map(|_| None).collect()),
            TickAction::Generate(keys) => {
                ev = TickEvent::Generated(
                    keys.iter().map(|_| (vec![MaterialInstance::air(); 16384], vec![0u8; 65536])).collect(),
                )
            },
            TickAction::Done(_) => break,
        }
    }
}

fn handler() -> ChunkHandler {
    ChunkHandler::new(TestGenerator {}, None)
}

#[test]
fn chunk_index_correct() {
    let ch = handler();

    // center
    assert_eq!(ch.chunk_index(0, 0), 0);
    assert_eq!(ch.chunk_index(1, 0), 3);
    assert_eq!(ch.chunk_index(0, 1), 5);
    assert_eq!(ch.chunk_index(1, 1), 12);
    assert_eq!(ch.chunk_index(-1, 0), 1);
    assert_eq!(ch.chunk_index(0, -1), 2);
    assert_eq!(ch.chunk_index(-1, -1), 4);
    assert_eq!(ch.chunk_index(1, -1), 7);
    assert_eq!(ch.chunk_index(-1, 1), 8);

    // some random nearby ones
    assert_eq!(ch.chunk_index(207, 432), 818_145);
    assert_eq!(ch.chunk_index(285, -65), 244_779);
    assert_eq!(ch.chunk_index(958, 345), 3_397_611);
    assert_eq!(ch.chunk_index(632, 255), 1_574_935);
    assert_eq!(ch.chunk_index(-942, 555), 4_481_631);
    assert_eq!(ch.chunk_index(696, 589), 3_304_913);
    assert_eq!(ch.chunk_index(-201, -623), 1_356_726);
    assert_eq!(ch.chunk_index(741, 283), 2_098_742);
    assert_eq!(ch.chunk_index(-302, 718), 2_081_216);
    assert_eq!(ch.chunk_index(493, 116), 742_603);

    // some random far ones
    assert_eq!(ch.chunk_index(1258, 7620), 157_661_886);
    assert_eq!(ch.chunk_index(9438, 4645), 396_685_151);
    assert_eq!(ch.chunk_index(6852, -7129), 390_936_998);
    assert_eq!(ch.chunk_index(-7692, -912), 148_033_644);
    assert_eq!(ch.chunk_index(-4803, -131), 48_674_172);
    assert_eq!(ch.chunk_index(-4565, 8366), 334_425_323);
    assert_eq!(ch.chunk_index(248, -126), 279_629);
    assert_eq!(ch.chunk_index(-1125, 3179), 37_050_886);
    assert_eq!(ch.chunk_index(4315, -4044), 139_745_490);
    assert_eq!(ch.chunk_index(-3126, 9730), 330_560_076);

    // maximum
    assert_eq!(ch.chunk_index(-27804, 18537), u32::MAX);
}

#[test]
fn chunk_index_inv_correct() {
    let ch = handler();

    // center
    assert_eq!(ch.chunk_index_inv(0), (0, 0));
    assert_eq!(ch.chunk_index_inv(3), (1, 0));
    assert_eq!(ch.chunk_index_inv(5), (0, 1));
    assert_eq!(ch.chunk_index_inv(12), (1, 1));
    assert_eq!(ch.chunk_index_inv(1), (-1, 0));
    assert_eq!(ch.chunk_index_inv(2), (0, -1));
    assert_eq!(ch.chunk_index_inv(4), (-1, -1));
    assert_eq!(ch.chunk_index_inv(7), (1, -1));
    assert_eq!(ch.chunk_index_inv(8), (-1, 1));

    // some random nearby ones
    assert_eq!(ch.chunk_index_inv(818_145), (207, 432));
    assert_eq!(ch.chunk_index_inv(244_779), (285, -65));
    assert_eq!(ch.chunk_index_inv(3_397_611), (958, 345));
    assert_eq!(ch.chunk_index_inv(1_574_935), (632, 255));
    assert_eq!(ch.chunk_index_inv(4_481_631), (-942, 555));
    assert_eq!(ch.chunk_index_inv(3_304_913), (696, 589));
    assert_eq!(ch.chunk_index_inv(1_356_726), (-201, -623));
    assert_eq!(ch.chunk_index_inv(2_098_742), (741, 283));
    assert_eq!(ch.chunk_index_inv(2_081_216), (-302, 718));
    assert_eq!(ch.chunk_index_inv(742_603), (493, 116));

    // some random far ones
    assert_eq!(ch.chunk_index_inv(157_661_886), (1258, 7620));
    assert_eq!(ch.chunk_index_inv(396_685_151), (9438, 4645));
    assert_eq!(ch.chunk_index_inv(390_936_998), (6852, -7129));
    assert_eq!(ch.chunk_index_inv(148_033_644), (-7692, -912));
    assert_eq!(ch.chunk_index_inv(48_674_172), (-4803, -131));
    assert_eq!(ch.chunk_index_inv(334_425_323), (-4565, 8366));
    assert_eq!(ch.chunk_index_inv(279_629), (248, -126));
    assert_eq!(ch.chunk_index_inv(37_050_886), (-1125, 3179));
    assert_eq!(ch.chunk_index_inv(139_745_490), (4315, -4044));
    assert_eq!(ch.chunk_index_inv(330_560_076), (-3126, 9730));

    // maximum
    assert_eq!(ch.chunk_index_inv(u32::MAX), (-27804, 18537));
}

#[test]
fn chunk_index_correctly_invertible() {
    let ch = handler();

    for _ in 0..1000 {
        let x: i32 = (rand::random::<u32>() % 20000) as i32 - 10000;
        let y: i32 = (rand::random::<u32>() % 20000) as i32 - 10000;

        println!("Testing ({}, {})...", x, y);
        let index = ch.chunk_index(x, y);
        let result = ch.chunk_index_inv(index);

        assert_eq!(result, (x, y));
    }
}

#[test]
fn chunk_chunk_loading() {
    let mut ch = handler();

    assert_eq!(ch.load_queue.len(), 0);
    assert_eq!(ch.loaded_chunks.len(), 0);

    // queue a chunk
    let queued_1 = ch.queue_load_chunk(11, -12);

    assert!(queued_1);
    assert_eq!(ch.load_queue.len(), 1);
    assert_eq!(ch.loaded_chunks.len(), 0);

    // queue the same chunk
    // should fail since it's already queued
    let queued_1_again = ch.queue_load_chunk(11, -12);

    assert!(!queued_1_again);
    assert_eq!(ch.load_queue.len(), 1);
    assert_eq!(ch.loaded_chunks.len(), 0);

    // queue a different chunk
    let queued_2 = ch.queue_load_chunk(-3, 2);

    assert!(queued_2);
    assert_eq!(ch.load_queue.len(), 2);
    assert_eq!(ch.loaded_chunks.len(), 0);

    assert!(!ch.is_chunk_loaded(11, -12));
    assert!(!ch.is_chunk_loaded(-3, 2));

    // do a few ticks to load some chunks
    let loader = (110.0f64 as i32, -120.0f64 as i32);
    tick(&mut ch, 0, &[loader]);
    while !ch.load_queue.is_empty() {
        tick(&mut ch, 0, &[loader]);
    }

    assert!(ch.is_chunk_loaded(11, -12));
    assert!(ch.is_chunk_loaded(-3, 2));
    assert!(!ch.is_chunk_loaded(120, -120));
    assert!(!ch.is_chunk_loaded(30, 20));

    let index_1 = ch.chunk_index(11, -12);
    let loaded_1 = ch.loaded_chunks.iter().any(|(&i, c)| i == index_1 && c.chunk_x == 11 && c.chunk_y == -12);
    assert!(loaded_1);
    assert!(ch.get_chunk(11, -12).is_some());

    let index_2 = ch.chunk_index(-3, 2);
    let loaded_2 = ch.loaded_chunks.iter().any(|(&i, c)| i == index_2 && c.chunk_x == -3 && c.chunk_y == 2);
    assert!(loaded_2);
    assert!(ch.get_chunk(-3, 2).is_some());

    assert!(ch.get_chunk(0, 0).is_some());
    assert!(ch.get_chunk(-11, -12).is_none());
    assert!(ch.get_chunk(30, -2).is_none());
    assert!(ch.get_chunk(-3, 30).is_none());
    assert!(ch.get_chunk(-120, 11).is_none());

    // should unload since no loaders are nearby
    tick(&mut ch, 0, &[]);

    assert!(!ch.is_chunk_loaded(11, -12));
    assert!(!ch.is_chunk_loaded(-3, 2));
}

#[test]
fn chunk_update_order() {
    let ch = handler();

    for _ in 0..100 {
        let x: i32 = (rand::random::<u32>() % 20000) as i32 - 10000;
        let y: i32 = (rand::random::<u32>() % 20000) as i32 - 10000;

        println!("Testing ({}, {})...", x, y);

        let my_order = ch.chunk_update_order(x, y);

        for dx in -1..=1 {
            for dy in -1..=1 {
                if dx != 0 || dy != 0 {
                    // surrounding chunks should not be able to update at the same time
                    assert_ne!(ch.chunk_update_order(x + dx, y + dy), my_order);
                }
            }
        }
    }
}

#[test]
fn chunk_zones() {
    let ch = handler();

    let center = (12.3f64 as i32, -42.2f64 as i32);
    let screen = ch.get_screen_zone(center);
    let active = ch.get_active_zone(center);
    let load = ch.get_load_zone(center);
    let unload = ch.get_unload_zone(center);

    let w = |r: &sandengine::rect::Rect<i32>| r.x2 - r.x1;
    let h = |r: &sandengine::rect::Rect<i32>| r.y2 - r.y1;
    assert!(w(&screen) <= w(&active) && h(&screen) <= h(&active));
    assert!(w(&active) < w(&load) && h(&active) < h(&load));
    assert!(w(&load) < w(&unload) && h(&load) < h(&unload));
}

#[test]
fn mod_zones() {
    let ch = handler();

    let center = (12.3f64 as i32, -42.2f64 as i32);
    let screen = ch.get_screen_zone(center);
    let active = ch.get_active_zone(center);
    let load = ch.get_load_zone(center);
    let unload = ch.get_unload_zone(center);

    assert!(screen.width() <= active.width() && screen.height() <= active.height());
    assert!(active.width() < load.width() && active.height() < load.height());
    assert!(load.width() < unload.width() && load.height() < unload.height());
}

#[test]
fn loaded_chunks_start_ungenerated() {
    let mut ch = handler();
    assert!(ch.queue_load_chunk(2, 3));
    ch.load_queued_chunks();
    let c = ch.get_chunk(2, 3).unwrap();
    assert_eq!(c.state, ChunkState::NotGenerated);
    assert!(c.pixels.is_none());
    assert!(ch.load_queue.is_empty());
}
