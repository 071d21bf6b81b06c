use noise::NoiseFn;
use voxel::terrain::{CaveGen, Noise, TerrainGen};

#[test]
fn noise_depends_on_its_seed() {
    let points = [[0.3, 0.7], [1.25, -2.5], [10.1, 3.3], [-4.2, 0.9]];
    let a = Noise::new(0);
    let b = Noise::new(12345);
    assert!(points.iter().any(|p| a.noise.get(*p) != b.noise.get(*p)));
}

#[test]
fn same_seed_gives_same_noise() {
    let p = [2.75, -1.5];
    let n = Noise::new(77);
    assert_eq!(n.noise.get(p), Noise::new(77).noise.get(p));
    assert_eq!(TerrainGen::new(77).noise.noise.get(p), n.noise.get(p));
    assert_eq!(CaveGen::new(77).noise.noise.get(p), n.noise.get(p));
}
