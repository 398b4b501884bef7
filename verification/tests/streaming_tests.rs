use worldgen::chunks::{calculate_visible_chunks, ChunkLayout};
use worldgen::streaming::{contains_coord, ChunkManager, StreamingPlan};

fn handles(chunk: (i32, i32)) -> Vec<u64> {
    let base = ((chunk.0 + 100) as u64) * 1000 + (chunk.1 + 100) as u64;
    vec![base * 10, base * 10 + 1]
}

fn load_all(manager: &mut ChunkManager, plan: &StreamingPlan) {
    for chunk in plan.to_load.iter() {
        assert!(manager.load_chunk(*chunk, handles(*chunk)));
    }
}

fn loaded_set(manager: &ChunkManager, among: &Vec<(i32, i32)>) -> Vec<(i32, i32)> {
    among.iter().cloned().filter(|chunk| manager.is_loaded(*chunk)).collect()
}

#[test]
fn new_manager_is_empty() {
    let manager = ChunkManager::new();
    assert!(manager.active_chunks.is_empty());
    assert!(manager.loaded_chunks.is_empty());
    assert!(!manager.is_loaded((0, 0)));
}

#[test]
fn first_tick_asks_for_every_wanted_chunk() {
    let mut manager = ChunkManager::new();
    let target = vec![(0, 0), (0, 1), (1, 0)];
    let plan = manager.update(target.clone());
    assert_eq!(plan, StreamingPlan { released: vec![], to_load: target.clone() });
    assert_eq!(manager.active_chunks, target);
    assert!(manager.loaded_chunks.is_empty());
}

#[test]
fn loading_records_the_entities() {
    let mut manager = ChunkManager::new();
    manager.update(vec![(0, 0), (-1, 5)]);
    assert!(manager.load_chunk((-1, 5), vec![7, 8, 9]));
    assert!(manager.is_loaded((-1, 5)));
    assert!(!manager.is_loaded((0, 0)));
    assert!(!manager.is_loaded((5, -1)));
    assert_eq!(manager.loaded_chunks.len(), 1);
    let kept = manager.loaded_chunks.values().next().unwrap();
    assert_eq!(kept.entities, vec![7, 8, 9]);
    assert!(kept.is_loaded);
}

#[test]
fn loading_twice_changes_nothing() {
    let mut manager = ChunkManager::new();
    manager.update(vec![(2, 2)]);
    assert!(manager.load_chunk((2, 2), vec![1]));
    assert!(!manager.load_chunk((2, 2), vec![2, 3]));
    assert_eq!(manager.unload_chunk((2, 2)), vec![1]);
}

#[test]
fn loading_an_unwanted_chunk_changes_nothing() {
    let mut manager = ChunkManager::new();
    manager.update(vec![(2, 2)]);
    assert!(!manager.load_chunk((3, 3), vec![1]));
    assert!(!manager.is_loaded((3, 3)));
    assert!(manager.loaded_chunks.is_empty());
}

#[test]
fn unloading_hands_back_the_entities() {
    let mut manager = ChunkManager::new();
    manager.update(vec![(2, 2), (2, 3)]);
    manager.load_chunk((2, 2), vec![10, 11]);
    manager.load_chunk((2, 3), vec![12]);
    assert_eq!(manager.unload_chunk((2, 2)), vec![10, 11]);
    assert!(!manager.is_loaded((2, 2)));
    assert!(manager.is_loaded((2, 3)));
    assert_eq!(manager.active_chunks, vec![(2, 2), (2, 3)]);
}

#[test]
fn unloading_an_absent_chunk_changes_nothing() {
    let mut manager = ChunkManager::new();
    manager.update(vec![(2, 2)]);
    manager.load_chunk((2, 2), vec![10]);
    assert_eq!(manager.unload_chunk((9, 9)), Vec::<u64>::new());
    assert_eq!(manager.unload_chunk((2, 2)), vec![10]);
    assert_eq!(manager.unload_chunk((2, 2)), Vec::<u64>::new());
    assert!(manager.loaded_chunks.is_empty());
    assert_eq!(manager.active_chunks, vec![(2, 2)]);
}

#[test]
fn tick_releases_the_chunks_no_longer_wanted() {
    let mut manager = ChunkManager::new();
    let plan = manager.update(vec![(0, 0), (0, 1), (1, 0), (1, 1)]);
    load_all(&mut manager, &plan);
    let plan = manager.update(vec![(1, 1), (1, 2), (0, 1)]);
    let mut released = handles((0, 0));
    released.extend(handles((1, 0)));
    assert_eq!(plan.released, released);
    assert_eq!(plan.to_load, vec![(1, 2)]);
    assert_eq!(manager.active_chunks, vec![(1, 1), (1, 2), (0, 1)]);
    assert!(manager.is_loaded((1, 1)));
    assert!(manager.is_loaded((0, 1)));
    assert!(!manager.is_loaded((0, 0)));
    assert!(!manager.is_loaded((1, 0)));
    assert_eq!(manager.loaded_chunks.len(), 2);
}

#[test]
fn stationary_viewer_settles_after_one_tick() {
    let mut manager = ChunkManager::new();
    let target = calculate_visible_chunks(500, 700);
    let plan = manager.update(target.clone());
    assert_eq!(plan.to_load, target);
    assert!(plan.released.is_empty());
    load_all(&mut manager, &plan);
    assert_eq!(manager.active_chunks, target);
    assert_eq!(loaded_set(&manager, &target), target);
    assert_eq!(manager.loaded_chunks.len(), 49);
    for _ in 0..3 {
        let again = manager.update(calculate_visible_chunks(500, 700));
        assert_eq!(again, StreamingPlan { released: vec![], to_load: vec![] });
        assert_eq!(manager.active_chunks, target);
        assert_eq!(manager.loaded_chunks.len(), 49);
        assert_eq!(loaded_set(&manager, &target), target);
    }
}

#[test]
fn moving_viewer_swaps_one_column_of_chunks() {
    let mut manager = ChunkManager::new();
    let plan = manager.update(calculate_visible_chunks(2048, 2048));
    assert_eq!(plan.to_load.len(), 49);
    load_all(&mut manager, &plan);
    let plan = manager.update(calculate_visible_chunks(2176, 2048));
    let gone: Vec<(i32, i32)> = (13..=19).map(|y| (13, y)).collect();
    let come: Vec<(i32, i32)> = (13..=19).map(|y| (20, y)).collect();
    let released: Vec<u64> = gone.iter().flat_map(|chunk| handles(*chunk)).collect();
    assert_eq!(plan.released, released);
    assert_eq!(plan.to_load, come);
    load_all(&mut manager, &plan);
    assert_eq!(manager.loaded_chunks.len(), 49);
    assert!(gone.iter().all(|chunk| !manager.is_loaded(*chunk)));
    assert!(come.iter().all(|chunk| manager.is_loaded(*chunk)));
}

#[test]
fn viewer_at_the_corner_of_the_world_loads_world_chunks_only() {
    let mut manager = ChunkManager::new();
    let plan = manager.update(calculate_visible_chunks(0, 0));
    assert_eq!(plan.to_load.len(), 16);
    assert!(plan.to_load.iter().all(|chunk| chunk.0 >= 0 && chunk.1 >= 0));
    load_all(&mut manager, &plan);
    let plan = manager.update(calculate_visible_chunks(128, 0));
    assert!(plan.released.is_empty());
    assert_eq!(plan.to_load, vec![(4, 0), (4, 1), (4, 2), (4, 3)]);
}

#[test]
fn tick_without_loading_asks_again() {
    let mut manager = ChunkManager::new();
    let first = manager.update(vec![(0, 0), (0, 1)]);
    manager.load_chunk((0, 1), vec![5]);
    let second = manager.update(vec![(0, 0), (0, 1)]);
    assert_eq!(first.to_load, vec![(0, 0), (0, 1)]);
    assert_eq!(second, StreamingPlan { released: vec![], to_load: vec![(0, 0)] });
}

#[test]
fn empty_target_releases_everything() {
    let mut manager = ChunkManager::new();
    let plan = manager.update(vec![(4, 4), (5, 5)]);
    load_all(&mut manager, &plan);
    let plan = manager.update(Vec::new());
    let mut released = handles((4, 4));
    released.extend(handles((5, 5)));
    assert_eq!(plan, StreamingPlan { released, to_load: vec![] });
    assert!(manager.loaded_chunks.is_empty());
    assert!(manager.active_chunks.is_empty());
}

#[test]
fn clear_forgets_everything() {
    let mut manager = ChunkManager::new();
    let plan = manager.update(calculate_visible_chunks(0, 0));
    load_all(&mut manager, &plan);
    manager.clear();
    assert!(manager.loaded_chunks.is_empty());
    assert!(manager.active_chunks.is_empty());
    let plan = manager.update(calculate_visible_chunks(0, 0));
    assert!(plan.released.is_empty());
    assert_eq!(plan.to_load.len(), 16);
}

#[test]
fn chunks_with_extreme_coordinates_are_kept_apart() {
    let mut manager = ChunkManager::new();
    let corners = vec![
        (i32::MIN, i32::MIN),
        (i32::MIN, i32::MAX),
        (i32::MAX, i32::MIN),
        (i32::MAX, i32::MAX),
        (0, -1),
        (-1, 0),
    ];
    manager.update(corners.clone());
    for (i, chunk) in corners.iter().enumerate() {
        assert!(manager.load_chunk(*chunk, vec![i as u64]));
    }
    assert_eq!(manager.loaded_chunks.len(), 6);
    for (i, chunk) in corners.iter().enumerate() {
        assert_eq!(manager.unload_chunk(*chunk), vec![i as u64]);
    }
}

#[test]
fn coordinate_lookup_in_a_list() {
    let list = vec![(0, 0), (1, -1), (5, 5)];
    assert!(contains_coord(&list, (1, -1)));
    assert!(contains_coord(&list, (5, 5)));
    assert!(!contains_coord(&list, (-1, 1)));
    assert!(!contains_coord(&Vec::new(), (0, 0)));
}

#[test]
fn tick_streams_round_the_viewer() {
    let layout = ChunkLayout::standard();
    let mut manager = ChunkManager::new();
    let plan = manager.tick(&layout, 0, 0, 200);
    assert_eq!(plan.to_load, calculate_visible_chunks(0, 0));
    assert_eq!(plan.to_load.len(), 16);
    assert!(plan.released.is_empty());
    load_all(&mut manager, &plan);
    assert_eq!(
        manager.tick(&layout, 0, 0, 200),
        StreamingPlan { released: vec![], to_load: vec![] }
    );
    let plan = manager.tick(&layout, 0, 0, 0);
    assert_eq!(plan.released.len(), 2 * (16 - 4));
    assert!(plan.to_load.is_empty());
    assert_eq!(manager.loaded_chunks.len(), 4);
    assert_eq!(manager.active_chunks, vec![(0, 0), (0, 1), (1, 0), (1, 1)]);
}

#[test]
fn tick_in_the_middle_of_the_world_wants_the_whole_ring_square() {
    let layout = ChunkLayout::standard();
    let mut manager = ChunkManager::new();
    let plan = manager.tick(&layout, 2048, 2048, 200);
    assert_eq!(plan.to_load.len(), 49);
    assert_eq!(plan.to_load[0], (13, 13));
    assert_eq!(plan.to_load[48], (19, 19));
}

#[test]
fn tick_far_from_the_world_releases_everything() {
    let layout = ChunkLayout::standard();
    let mut manager = ChunkManager::new();
    let plan = manager.tick(&layout, 0, 0, 200);
    load_all(&mut manager, &plan);
    let plan = manager.tick(&layout, i32::MIN, i32::MAX, 200);
    assert_eq!(plan.released.len(), 32);
    assert!(plan.to_load.is_empty());
    assert!(manager.active_chunks.is_empty());
    assert!(manager.loaded_chunks.is_empty());
}

#[test]
fn tick_with_the_largest_radius_wants_the_whole_world() {
    let layout = ChunkLayout::standard();
    let mut manager = ChunkManager::new();
    let plan = manager.tick(&layout, 0, 0, 200);
    load_all(&mut manager, &plan);
    let plan = manager.tick(&layout, 0, 0, u32::MAX);
    assert!(plan.released.is_empty());
    assert_eq!(plan.to_load.len(), 32 * 32 - 16);
    assert_eq!(manager.active_chunks.len(), 32 * 32);
}
