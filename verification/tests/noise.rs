use raytracer::components::noise::{NoiseEnum, Perlin, POINT_COUNT};

fn gradients() -> Vec<usize> {
    (0..POINT_COUNT).collect()
}

/// Targets that leave the table as it is: each step exchanges a position with itself.
fn no_swaps() -> Vec<usize> {
    (1..POINT_COUNT).rev().collect()
}

#[test]
fn perlin_without_swaps_keeps_identity_tables() {
    let perlin = Perlin::new(gradients(), &no_swaps(), &no_swaps(), &no_swaps());
    assert_eq!(*perlin.gradient_at(0, 0, 0), 0);
    assert_eq!(*perlin.gradient_at(1, 2, 3), 1 ^ 2 ^ 3);
    assert_eq!(*perlin.gradient_at(5, 0, 0), 5);
}

#[test]
fn perlin_lattice_wraps_coordinates() {
    let perlin = Perlin::new(gradients(), &no_swaps(), &no_swaps(), &no_swaps());
    assert_eq!(*perlin.gradient_at(-1, 0, 0), 255);
    assert_eq!(*perlin.gradient_at(256, 0, 0), 0);
    assert_eq!(*perlin.gradient_at(0, -256, 0), 0);
    assert_eq!(*perlin.gradient_at(isize::MIN, isize::MAX, 0), 255);
}

#[test]
fn perlin_shuffle_with_front_targets_rotates_table() {
    let front = vec![0usize; POINT_COUNT - 1];
    let perlin = Perlin::new(gradients(), &front, &no_swaps(), &no_swaps());
    let table: Vec<usize> = (0..POINT_COUNT as isize).map(|i| *perlin.gradient_at(i, 0, 0)).collect();
    assert_eq!(table[0], 1);
    assert_eq!(table[255], 0);
    for i in 1..255 {
        assert_eq!(table[i], i + 1);
    }
}

#[test]
fn perlin_tables_are_permutations() {
    let targets: Vec<usize> = (1..POINT_COUNT).rev().map(|i| (i * 7 + 3) % (i + 1)).collect();
    let perlin = Perlin::new(gradients(), &targets, &no_swaps(), &no_swaps());
    let mut table: Vec<usize> = (0..POINT_COUNT as isize).map(|i| *perlin.gradient_at(i, 0, 0)).collect();
    table.sort();
    assert_eq!(table, gradients());
}

#[test]
fn shared_noise_answers_with_same_lattice() {
    let front = vec![0usize; POINT_COUNT - 1];
    let perlin = Perlin::new(gradients(), &front, &no_swaps(), &no_swaps());
    let direct = *perlin.gradient_at(3, 4, 5);
    let shared = perlin.shared();
    let twice = shared.clone().shared();
    assert_eq!(*NoiseEnum::Shared(shared).perlin().gradient_at(3, 4, 5), direct);
    assert_eq!(*NoiseEnum::Shared(twice).perlin().gradient_at(3, 4, 5), direct);
}

#[test]
fn noise_source_from_lattice_and_handle() {
    let perlin = Perlin::new(gradients(), &no_swaps(), &no_swaps(), &no_swaps());
    let source: NoiseEnum<usize> = perlin.clone().into();
    assert_eq!(*source.perlin().gradient_at(7, 0, 0), 7);
    let handle: NoiseEnum<usize> = source.shared().into();
    assert_eq!(*handle.perlin().gradient_at(7, 1, 0), 6);
}
