use synapse_core::interleave;

#[test]
fn interleave_origin_is_zero() {
    assert_eq!(interleave(0, 0), 0);
}

#[test]
fn interleave_puts_x_on_even_bits_and_y_on_odd_bits() {
    assert_eq!(interleave(1, 0), 1);
    assert_eq!(interleave(0, 1), 2);
    assert_eq!(interleave(1, 1), 3);
    assert_eq!(interleave(2, 0), 4);
    assert_eq!(interleave(0, 2), 8);
    // x = 0b011, y = 0b101 -> bits y2 x2 y1 x1 y0 x0 = 1 0 0 1 1 1
    assert_eq!(interleave(3, 5), 0b100111);
}

#[test]
fn interleave_full_coordinates() {
    assert_eq!(interleave(0xFFFF, 0), 0x5555_5555);
    assert_eq!(interleave(0, 0xFFFF), 0xAAAA_AAAA);
    assert_eq!(interleave(0xFFFF, 0xFFFF), 0xFFFF_FFFF);
    assert_eq!(interleave(u32::MAX, u32::MAX), 0xFFFF_FFFF);
}

#[test]
fn interleave_ignores_high_bits() {
    assert_eq!(interleave(0x1_0000, 0), 0);
    assert_eq!(interleave(0x1_0005, 0xABCD_0003), interleave(5, 3));
    assert_eq!(interleave(u32::MAX, 7), interleave(0xFFFF, 7));
}

#[test]
fn interleave_stays_below_32_bits() {
    for &(x, y) in &[(0u32, 0u32), (12345, 54321), (u32::MAX, 0), (0, u32::MAX), (0xFFFF, 0xFFFF)] {
        assert!(interleave(x, y) < (1u64 << 32));
    }
}

#[test]
fn interleave_is_injective_on_a_grid() {
    let mut seen = std::collections::HashSet::new();
    for x in 0..32u32 {
        for y in 0..32u32 {
            assert!(seen.insert(interleave(x, y)));
        }
    }
    assert_eq!(seen.len(), 32 * 32);
}

#[test]
fn interleave_parent_cell_drops_two_bits() {
    for &(x, y) in &[(5u32, 9u32), (0xFFFF, 0x1234), (100, 3), (0x8000, 0x7FFF)] {
        assert_eq!(interleave(x >> 1, y >> 1), interleave(x, y) >> 2);
    }
}

#[test]
fn interleave_of_subdivided_cell_corner() {
    // a child cell whose lower corner is (50, 0), as a subdivision of (0,0)-(100,100) makes
    assert_eq!(interleave(50, 0), 0b0101_0000_0100);
    assert_eq!(interleave(50, 50), 0b1111_0000_1100);
}

#[test]
fn interleave_is_monotone_in_each_coordinate() {
    let coords = [0u32, 1, 2, 3, 7, 8, 100, 255, 256, 4095, 0x8000, 0xFFFF];
    for &x1 in &coords {
        for &x2 in &coords {
            for &y1 in &coords {
                for &y2 in &coords {
                    if x1 <= x2 && y1 <= y2 {
                        assert!(interleave(x1, y1) <= interleave(x2, y2));
                    }
                }
            }
        }
    }
    assert!(interleave(1, 0) < interleave(0, 1));
    assert!(interleave(3, 5) < interleave(4, 5));
}
