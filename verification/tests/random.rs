use ising::random::{site_from_draw, unit_from_draw, UNIT};

#[test]
fn unit_is_two_to_the_fifty_third() {
    assert_eq!(UNIT, 1u64 << 53);
    assert_eq!(UNIT, 9_007_199_254_740_992);
}

#[test]
fn unit_from_draw_keeps_the_top_fifty_three_bits() {
    assert_eq!(unit_from_draw(0), 0);
    assert_eq!(unit_from_draw(2047), 0);
    assert_eq!(unit_from_draw(2048), 1);
    assert_eq!(unit_from_draw(1u64 << 63), UNIT / 2);
    assert_eq!(unit_from_draw(u64::MAX), UNIT - 1);
    assert_eq!(unit_from_draw(0x0123_4567_89ab_cdef), 0x0123_4567_89ab_cdef >> 11);
}

#[test]
fn unit_from_draw_is_the_numerator_of_the_uniform_fraction() {
    // The fraction that the generator's own uniform sampling makes of a draw.
    for draw in [0u64, 1, 2048, 0xdead_beef_0000_0001, u64::MAX] {
        let fraction = (draw >> 11) as f64 * (1.0 / (1u64 << 53) as f64);
        assert_eq!(unit_from_draw(draw) as f64 / UNIT as f64, fraction);
        assert!(fraction < 1.0);
    }
}

#[test]
fn site_from_draw_splits_the_range_into_equal_bins() {
    assert_eq!(site_from_draw(4, 0), 0);
    assert_eq!(site_from_draw(4, 0x3fff_ffff), 0);
    assert_eq!(site_from_draw(4, 0x4000_0000), 1);
    assert_eq!(site_from_draw(4, 0x7fff_ffff), 1);
    assert_eq!(site_from_draw(4, 0x8000_0000), 2);
    assert_eq!(site_from_draw(4, 0xc000_0000), 3);
    assert_eq!(site_from_draw(4, u32::MAX), 3);
}

#[test]
fn site_from_draw_with_a_side_that_does_not_divide_the_range() {
    // The bin width for three sites is 0xffff_ffff / 3 + 1 = 1_431_655_766.
    assert_eq!(site_from_draw(3, 1_431_655_765), 0);
    assert_eq!(site_from_draw(3, 1_431_655_766), 1);
    assert_eq!(site_from_draw(3, 2_863_311_531), 1);
    assert_eq!(site_from_draw(3, 2_863_311_532), 2);
    assert_eq!(site_from_draw(3, u32::MAX), 2);
}

#[test]
fn site_from_draw_on_a_single_site() {
    assert_eq!(site_from_draw(1, 0), 0);
    assert_eq!(site_from_draw(1, 12345), 0);
    assert_eq!(site_from_draw(1, u32::MAX), 0);
}

#[test]
fn site_from_draw_never_leaves_the_lattice() {
    for n in [1usize, 2, 5, 64, 1000, 23170, 65537] {
        for draw in [0u32, 1, 0x7fff_ffff, 0x8000_0000, u32::MAX - 1, u32::MAX] {
            assert!(site_from_draw(n, draw) < n);
        }
    }
}

#[test]
fn the_highest_draw_selects_the_last_site() {
    for n in [1usize, 2, 3, 4, 5, 64, 100, 23170] {
        assert_eq!(site_from_draw(n, u32::MAX), n - 1);
    }
}
