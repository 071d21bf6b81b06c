use voxel::blocks::Block;
use voxel::chunk::Chunk;
use voxel::chunk_loader::{ChunkLoader, Received};
use voxel::chunk_store::{ChunkHandle, Instruction};

const TOKEN: [u8; 16] = [9; 16];

#[test]
fn new_loader_has_to_load() {
    let loader = ChunkLoader::new(2, 4);
    assert!(loader.moved());
}

#[test]
fn moving_within_the_same_chunk_keeps_still() {
    let mut loader = ChunkLoader::new(2, 4);
    loader.set_moved(false);
    loader.update_position([10, 20, 30]);
    assert!(!loader.moved());
    loader.update_position([64, 20, 30]);
    assert!(loader.moved());
    loader.set_moved(false);
    loader.set_player_pos([64, 20, 30]);
    loader.update_position([64, 20, 30]);
    assert!(loader.moved());
}

#[test]
fn chunks_in_view_are_asked_for_nearest_first() {
    let (handle, rx) = ChunkHandle::init();
    let mut loader = ChunkLoader::new(2, 4);
    loader.update_position([10, 70, -5]);
    let update_coords = loader.calculate_chunks().unwrap();
    assert_eq!(update_coords.len(), 27);
    assert_eq!(update_coords[0], [0, 1, -1]);
    handle.set_update_chunks(update_coords.clone(), loader.update_sender().clone(), TOKEN).unwrap();
    match rx.try_recv().unwrap() {
        Instruction::SetUpdateChunks { update_coords: sent, token, .. } => {
            assert_eq!(token, TOKEN);
            assert_eq!(sent, update_coords);
        }
        _ => panic!("unexpected instruction"),
    }
    let first = loader.request_chunks().unwrap();
    assert_eq!(first.len(), 4);
    assert_eq!(first[0], [0, 1, -1]);
    handle.push_load_chunks(first.clone(), loader.load_sender().clone(), TOKEN).unwrap();
    match rx.try_recv().unwrap() {
        Instruction::PushLoadChunks { load_coords, .. } => assert_eq!(load_coords, first),
        _ => panic!("unexpected instruction"),
    }
    let second = loader.request_chunks().unwrap();
    assert_eq!(second.len(), 4);
    assert!(second.iter().all(|c| !first.contains(c)));
    let mut rest = 8;
    while let Some(more) = loader.request_chunks() {
        rest += more.len();
    }
    assert_eq!(rest, 27);
    loader.set_moved(false);
    assert!(loader.calculate_chunks().is_none());
}

#[test]
fn loads_in_view_are_kept_up_to_the_cycle_limit() {
    let mut loader = ChunkLoader::new(2, 4);
    let mut got = Received::new();
    assert!(loader.take_load(Chunk::new([9, 9, 9]), &mut got));
    assert!(got.loads.is_empty());
    assert!(loader.take_load(Chunk::new([0, 0, 0]), &mut got));
    assert!(loader.take_load(Chunk::new([1, 0, 0]), &mut got));
    assert!(!loader.take_load(Chunk::new([0, 1, 0]), &mut got));
    assert_eq!(got.loads.len(), 3);
    assert!(loader.take_update(([0, 0, 1], vec![([0, 0, 0], Block::Stone)]), true, &mut got));
    assert!(loader.take_update(([0, 0, 0], vec![]), false, &mut got));
    assert!(loader.take_update(([7, 7, 7], vec![]), false, &mut got));
    assert_eq!(got.urgent.len(), 1);
    assert_eq!(got.updates.len(), 1);
}

#[test]
fn far_chunks_are_let_go() {
    let (handle, rx) = ChunkHandle::init();
    let mut loader = ChunkLoader::new(2, 4);
    let mut got = Received::new();
    loader.take_load(Chunk::new([0, 0, 0]), &mut got);
    loader.take_load(Chunk::new([1, 1, 0]), &mut got);
    loader.update_position([4 * 64, 0, 0]);
    let gone = loader.unload();
    assert_eq!(gone, vec![[0, 0, 0]]);
    handle.unload_chunks(gone.clone(), TOKEN).unwrap();
    match rx.try_recv().unwrap() {
        Instruction::RequestUnloadChunk { coords, token } => {
            assert_eq!(coords, vec![[0, 0, 0]]);
            assert_eq!(token, TOKEN);
        }
        _ => panic!("unexpected instruction"),
    }
    loader.set_moved(false);
    loader.update_position([4 * 64, 0, 0]);
    assert!(loader.unload().is_empty());
    assert_eq!(loader.unload_all_chunks(), vec![[1, 1, 0]]);
    assert!(loader.unload_all_chunks().is_empty());
}

#[test]
fn chunks_let_go_come_held_first_each_part_ascending() {
    let mut loader = ChunkLoader::new(2, 100);
    let mut got = Received::new();
    for c in [[0, 0, 0], [-1, 0, 0], [1, 1, 0], [0, -1, 1]] {
        loader.take_load(Chunk::new(c), &mut got);
    }
    loader.take_update(([1, 0, 0], vec![]), false, &mut got);
    loader.take_update(([0, 0, 0], vec![]), false, &mut got);
    loader.update_position([4 * 64, 0, 0]);
    let gone = loader.unload();
    assert_eq!(gone, vec![[-1, 0, 0], [0, -1, 1], [0, 0, 0], [0, 0, 0]]);
    assert_eq!(loader.unload_all_chunks(), vec![[1, 1, 0], [0, 0, 0], [1, 0, 0]]);
}

#[test]
fn nothing_waits_nothing_is_requested() {
    let mut loader = ChunkLoader::new(2, 4);
    assert!(loader.request_chunks().is_none());
    let mut none_per_cycle = ChunkLoader::new(1, 0);
    let _ = none_per_cycle.calculate_chunks();
    assert_eq!(none_per_cycle.request_chunks(), Some(vec![]));
}

#[test]
fn receiving_keeps_what_is_in_view_up_to_the_cycle_limit() {
    let mut loader = ChunkLoader::new(2, 4);
    let loads = loader.load_sender().clone();
    loads.send(Chunk::new([9, 9, 9]), false).unwrap();
    for c in [[0, 0, 0], [1, 0, 0], [0, 1, 0], [0, 0, 1], [-1, 0, 0]] {
        loads.send(Chunk::new(c), false).unwrap();
    }
    let updates = loader.update_sender().clone();
    updates.send(([1, 1, 0], vec![]), false).unwrap();
    updates.send(([0, 1, 1], vec![([0, 0, 0], Block::Stone)]), true).unwrap();
    let got = loader.receive();
    assert_eq!(got.loads.len(), 3);
    assert_eq!(got.loads[0].coord, [0, 0, 0]);
    assert_eq!(got.urgent.len(), 1);
    assert_eq!(got.urgent[0].0, [0, 1, 1]);
    assert_eq!(got.updates.len(), 1);
    let again = loader.receive();
    assert_eq!(again.loads.len(), 2);
    assert!(again.updates.is_empty() && again.urgent.is_empty());
}

#[test]
fn duplicates_are_cleared_keeping_first_places() {
    let mut v = vec![[1, 0, 0], [2, 0, 0], [1, 0, 0], [3, 0, 0], [2, 0, 0]];
    voxel::chunk_loader::clear_duplicates(&mut v);
    assert_eq!(v, vec![[1, 0, 0], [2, 0, 0], [3, 0, 0]]);
}
