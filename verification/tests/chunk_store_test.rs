use voxel::blocks::Block;
use voxel::channel::channel;
use voxel::chunk::Chunk;
use voxel::channel::PrioritySender;
use voxel::chunk_store::{structure_job, ChunkJob, ChunkStore, Delivery};
use voxel::structure::Structure;
use voxel::super_chunk::SuperChunk;

const ALICE: [u8; 16] = [1; 16];
const BOB: [u8; 16] = [2; 16];

fn generated(coord: [i64; 3], block: Block) -> SuperChunk {
    let mut c = Chunk::new(coord);
    c.data[0][0][0] = block;
    SuperChunk::new(c)
}

/// Registers the loads and hands over what the register gives out at once.
fn load(store: &mut ChunkStore, coords: Vec<[i64; 3]>, token: [u8; 16], tx: PrioritySender<Chunk>) -> Vec<ChunkJob> {
    let (jobs, loads) = store.push_load_chunks(coords, token, tx);
    for d in loads {
        store.deliver(d);
    }
    jobs
}

/// Pushes generated chunks and hands over what the register gives out.
fn push(store: &mut ChunkStore, sc: SuperChunk, token: [u8; 16]) {
    let handed = store.push_super_chunk(sc, token);
    for d in handed {
        store.deliver(d);
    }
}

fn job_coords(jobs: &[ChunkJob]) -> Vec<[i64; 3]> {
    jobs.iter()
        .map(|j| match j {
            ChunkJob::Generate { coord, .. } => *coord,
            ChunkJob::PushSuperChunk { .. } => panic!("unexpected job"),
        })
        .collect()
}

#[test]
fn missing_chunks_are_generated_once() {
    let mut store = ChunkStore::new();
    let (tx, _rx) = channel(None);
    let jobs = load(&mut store, vec![[0, 0, 0], [1, 0, 0], [0, 0, 0]], ALICE, tx.clone());
    assert_eq!(job_coords(&jobs), vec![[0, 0, 0], [1, 0, 0]]);
    assert!(!store.loads_accepted(&vec![[0, 0, 0]]));
    assert!(store.loads_accepted(&vec![[2, 0, 0]]));
    let jobs = load(&mut store, vec![[2, 0, 0]], ALICE, tx);
    assert_eq!(job_coords(&jobs), vec![[2, 0, 0]]);
}

#[test]
fn generated_chunk_is_kept_and_sent_to_who_waits() {
    let mut store = ChunkStore::new();
    let (tx, rx) = channel(None);
    load(&mut store, vec![[0, 0, 0]], ALICE, tx);
    let mut sc = generated([0, 0, 0], Block::Stone);
    sc.place([0, 64, 0], Block::Dirt);
    push(&mut store, sc, ALICE);
    let sent = rx.try_recv().unwrap();
    assert_eq!(sent.coord, [0, 0, 0]);
    assert_eq!(sent.data[0][0][0], Block::Stone);
    assert!(rx.try_recv().is_err());
    assert!(store.loads_accepted(&vec![[0, 0, 0]]));

    let (tx2, rx2) = channel(None);
    let jobs = load(&mut store, vec![[0, 0, 0]], BOB, tx2);
    assert!(jobs.is_empty());
    assert_eq!(rx2.try_recv().unwrap().data[0][0][0], Block::Stone);
}

#[test]
fn empty_generated_chunk_is_not_kept() {
    let mut store = ChunkStore::new();
    let (tx, rx) = channel(None);
    load(&mut store, vec![[5, 5, 5]], ALICE, tx.clone());
    push(&mut store, SuperChunk::new(Chunk::new([5, 5, 5])), ALICE);
    assert!(rx.try_recv().is_err());
    let jobs = load(&mut store, vec![[5, 5, 5]], ALICE, tx);
    assert_eq!(job_coords(&jobs), vec![[5, 5, 5]]);
}

#[test]
fn waiting_piece_is_merged_into_its_chunk() {
    let mut store = ChunkStore::new();
    let (tx, rx) = channel(None);
    load(&mut store, vec![[0, 0, 0], [0, 1, 0]], ALICE, tx);
    let mut first = generated([0, 0, 0], Block::Stone);
    first.place([3, 64, 3], Block::OakLeave);
    push(&mut store, first, ALICE);
    assert_eq!(rx.try_recv().unwrap().coord, [0, 0, 0]);
    push(&mut store, generated([0, 1, 0], Block::Grass), ALICE);
    let c = rx.try_recv().unwrap();
    assert_eq!(c.coord, [0, 1, 0]);
    assert_eq!(c.data[0][0][0], Block::Grass);
    assert_eq!(c.data[3][0][3], Block::OakLeave);
}

#[test]
fn followers_receive_changes() {
    let mut store = ChunkStore::new();
    let (tx, rx) = channel(None);
    let (utx, urx) = channel(None);
    load(&mut store, vec![[0, 0, 0]], ALICE, tx);
    store.set_update_chunks(vec![[0, 1, 0]], ALICE, utx);
    let mut sc = generated([0, 0, 0], Block::Stone);
    sc.place([1, 65, 1], Block::Red);
    push(&mut store, sc, ALICE);
    assert_eq!(rx.try_recv().unwrap().coord, [0, 0, 0]);
    let (delta, important) = urx.try_recv_with_meta().unwrap();
    assert!(!important);
    assert_eq!(delta.0, [0, 1, 0]);
    assert_eq!(delta.1, vec![([1, 1, 1], Block::Red)]);
}

#[test]
fn chunk_is_dropped_once_nobody_needs_it() {
    let mut store = ChunkStore::new();
    let (tx, _rx) = channel(None);
    load(&mut store, vec![[0, 0, 0]], ALICE, tx.clone());
    push(&mut store, generated([0, 0, 0], Block::Stone), ALICE);
    store.unload(&vec![[0, 0, 0]], &BOB);
    assert!(load(&mut store, vec![[0, 0, 0]], ALICE, tx.clone()).is_empty());
    store.unload(&vec![[0, 0, 0]], &ALICE);
    let jobs = load(&mut store, vec![[0, 0, 0]], ALICE, tx);
    assert_eq!(job_coords(&jobs), vec![[0, 0, 0]]);
}

#[test]
fn structure_job_stamps_the_structure() {
    let mut s = Structure::new([1, 2, 1]);
    s.place([0, 0, 0], Block::OakWood);
    s.place([0, 1, 0], Block::OakLeave);
    match structure_job([2, 63, 4], &s, ALICE) {
        ChunkJob::PushSuperChunk { super_chunk, token } => {
            assert_eq!(token, ALICE);
            assert_eq!(super_chunk.main_chunk, [2, 63, 4]);
            assert_eq!(super_chunk.get([2, 63, 4]), Some(Block::OakWood));
            assert_eq!(super_chunk.get([2, 64, 4]), Some(Block::OakLeave));
            assert!(super_chunk.is_valid());
        }
        ChunkJob::Generate { .. } => panic!("unexpected job"),
    }
}

#[test]
fn a_chunk_is_sent_to_load_only_once() {
    let mut store = ChunkStore::new();
    let (tx, rx) = channel(None);
    load(&mut store, vec![[0, 0, 0], [1, 0, 0]], ALICE, tx);
    push(&mut store, generated([0, 0, 0], Block::Stone), ALICE);
    assert_eq!(rx.try_recv().unwrap().coord, [0, 0, 0]);
    let mut other = generated([1, 0, 0], Block::Sand);
    other.place([2, 2, 2], Block::Red);
    push(&mut store, other, ALICE);
    assert_eq!(rx.try_recv().unwrap().coord, [1, 0, 0]);
    assert!(rx.try_recv().is_err());
}

#[test]
fn deliveries_name_who_gets_what() {
    let mut store = ChunkStore::new();
    let (tx, _rx) = channel(None);
    let (jobs, loads) = store.push_load_chunks(vec![[0, 0, 0]], ALICE, tx);
    assert_eq!(job_coords(&jobs), vec![[0, 0, 0]]);
    assert!(loads.is_empty());
    let handed = store.push_super_chunk(generated([0, 0, 0], Block::Stone), ALICE);
    assert_eq!(handed.len(), 1);
    match &handed[0] {
        Delivery::Load { token, chunk } => {
            assert_eq!(*token, ALICE);
            assert_eq!(chunk.coord, [0, 0, 0]);
            assert_eq!(chunk.data[0][0][0], Block::Stone);
        }
        Delivery::Change { .. } => panic!("unexpected change"),
    }
    let (tx2, _rx2) = channel(None);
    let (jobs, loads) = store.push_load_chunks(vec![[0, 0, 0], [0, 0, 0]], BOB, tx2);
    assert!(jobs.is_empty());
    assert_eq!(loads.len(), 2);
}

#[test]
fn a_user_whose_receiver_is_gone_is_forgotten() {
    let mut store = ChunkStore::new();
    let (tx, rx) = channel(None);
    store.push_load_chunks(vec![[0, 0, 0]], ALICE, tx);
    drop(rx);
    let handed = store.push_super_chunk(generated([0, 0, 0], Block::Stone), ALICE);
    assert_eq!(handed.len(), 1);
    for d in handed {
        assert!(!store.deliver(d));
    }
    let again = store.push_super_chunk(generated([0, 0, 0], Block::Sand), ALICE);
    assert!(again.is_empty());
}
