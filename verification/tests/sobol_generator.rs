use pathtracer::renderer::sobol_generator::{generate_sobol_directions, NUM_DIMENSIONS, NUM_DIMENSIONS2};

#[test]
fn sobol_table_has_one_entry_per_dimension_and_bit() {
    let dirs = generate_sobol_directions().dirs;
    assert_eq!(dirs.len(), NUM_DIMENSIONS2);
    assert_eq!(dirs.len(), NUM_DIMENSIONS * NUM_DIMENSIONS);
}

#[test]
fn sobol_first_dimension_is_van_der_corput() {
    let dirs = generate_sobol_directions().dirs;
    for j in 0..32 {
        assert_eq!(dirs[j], 1u32 << (31 - j));
    }
}

#[test]
fn sobol_second_dimension_values() {
    let dirs = generate_sobol_directions().dirs;
    assert_eq!(dirs[32], 0x8000_0000);
    assert_eq!(dirs[33], 0xC000_0000);
    assert_eq!(dirs[34], 0xA000_0000);
    assert_eq!(dirs[35], 0xF000_0000);
    assert_eq!(dirs[36], 0x8800_0000);
}

#[test]
fn sobol_third_dimension_values() {
    let dirs = generate_sobol_directions().dirs;
    assert_eq!(dirs[64], 0x8000_0000);
    assert_eq!(dirs[65], 0xC000_0000);
    assert_eq!(dirs[66], 0x6000_0000);
    assert_eq!(dirs[67], 0x9000_0000);
    assert_eq!(dirs[68], 0xE800_0000);
}

#[test]
fn sobol_initial_numbers_are_shifted_table_entries() {
    let dirs = generate_sobol_directions().dirs;
    // Dimension 20 (index 19) has degree 7 and m = 1, 3, 7, 11, 23, 15, 103.
    let m = [1u32, 3, 7, 11, 23, 15, 103];
    for j in 0..7 {
        assert_eq!(dirs[19 * 32 + j], m[j] << (31 - j));
    }
}

#[test]
fn sobol_every_direction_number_has_lowest_bit_at_its_position() {
    let dirs = generate_sobol_directions().dirs;
    for d in 0..32 {
        for j in 0..32 {
            let v = dirs[d * 32 + j];
            assert_eq!(v.wrapping_shl(j as u32), 0x8000_0000, "dimension {} index {}", d, j);
            assert_eq!(v.trailing_zeros(), 31 - j as u32);
        }
    }
}

#[test]
fn sobol_points_stratify_each_dimension() {
    // With the lowest-bit property, the first 2^k points of any dimension fall in
    // distinct intervals of width 2^-k.
    let dirs = generate_sobol_directions().dirs;
    for d in 0..32 {
        let k = 4;
        let mut seen = vec![false; 1 << k];
        for i in 0u32..(1 << k) {
            let gray = i ^ (i >> 1);
            let mut x = 0u32;
            for b in 0..32 {
                if (gray >> b) & 1 == 1 {
                    x ^= dirs[d * 32 + b];
                }
            }
            let cell = (x >> (32 - k)) as usize;
            assert!(!seen[cell], "dimension {} point {} repeats a cell", d, i);
            seen[cell] = true;
        }
    }
}
