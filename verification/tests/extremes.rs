use bitpack::bitpack::{fitss, fitsu, get_word_width, shl, shr, smax, smin, umax};

#[test]
fn umax_small_widths() {
    assert_eq!(umax(0), 0);
    assert_eq!(umax(1), 1);
    assert_eq!(umax(2), 3);
    assert_eq!(umax(5), 31);
    assert_eq!(umax(8), 255);
    assert_eq!(umax(32), 0xffff_ffff);
}

#[test]
fn umax_near_the_word_size() {
    assert_eq!(umax(63), 0x7fff_ffff_ffff_ffff);
    assert_eq!(umax(64), u64::MAX);
    assert_eq!(umax(65), u64::MAX);
    assert_eq!(umax(u64::MAX), u64::MAX);
}

#[test]
fn smax_small_widths() {
    assert_eq!(smax(1), 0);
    assert_eq!(smax(2), 1);
    assert_eq!(smax(8), 127);
    assert_eq!(smax(32), 0x7fff_ffff);
}

#[test]
fn smin_small_widths() {
    assert_eq!(smin(1), -1);
    assert_eq!(smin(2), -2);
    assert_eq!(smin(8), -128);
    assert_eq!(smin(32), -0x8000_0000);
}

#[test]
fn signed_extremes_near_the_word_size() {
    assert_eq!(smax(62), 0x1fff_ffff_ffff_ffff);
    assert_eq!(smin(62), -0x2000_0000_0000_0000);
    assert_eq!(smax(63), 0x3fff_ffff_ffff_ffff);
    assert_eq!(smin(63), -0x4000_0000_0000_0000);
    assert_eq!(smax(64), i64::MAX);
    assert_eq!(smin(64), i64::MIN);
    assert_eq!(smax(65), i64::MAX);
    assert_eq!(smin(65), i64::MIN);
    assert_eq!(smax(u64::MAX), i64::MAX);
    assert_eq!(smin(u64::MAX), i64::MIN);
}

#[test]
fn no_bits_hold_no_signed_number() {
    assert_eq!(smax(0), -1);
    assert_eq!(smin(0), 0);
    assert!(smax(0) < smin(0));
}

#[test]
fn signed_range_is_symmetric_but_for_one() {
    let mut width: u64 = 1;
    while width <= 70 {
        assert_eq!(smin(width), -smax(width) - 1);
        width += 1;
    }
}

#[test]
fn fitsu_agrees_with_umax() {
    let mut width: u64 = 1;
    while width <= 64 {
        let top = umax(width);
        assert!(fitsu(0, width));
        assert!(fitsu(top, width));
        assert!(fitsu(top / 2, width));
        if width < 64 {
            assert!(!fitsu(top + 1, width));
            assert!(!fitsu(u64::MAX, width));
            assert!(!fitsu(1 << 63, width));
        }
        width += 1;
    }
}

#[test]
fn fitss_agrees_with_smin_and_smax() {
    let mut width: u64 = 1;
    while width <= 64 {
        let low = smin(width);
        let high = smax(width);
        assert!(fitss(low, width));
        assert!(fitss(high, width));
        assert!(fitss(0, width));
        assert!(fitss(-1, width));
        if width < 64 {
            assert!(!fitss(low - 1, width));
            assert!(!fitss(high + 1, width));
            assert!(!fitss(i64::MIN, width));
            assert!(!fitss(i64::MAX, width));
        }
        width += 1;
    }
}

#[test]
fn fits_scans_a_range_of_values() {
    let mut n: i64 = -40;
    while n <= 40 {
        assert_eq!(fitss(n, 5), -16 <= n && n <= 15);
        if n >= 0 {
            assert_eq!(fitsu(n as u64, 5), n <= 31);
        }
        n += 1;
    }
}

#[test]
fn everything_fits_the_whole_word() {
    assert!(fitsu(u64::MAX, 64));
    assert!(fitsu(0, 64));
    assert!(fitss(i64::MAX, 64));
    assert!(fitss(i64::MIN, 64));
}

#[test]
fn one_bit_fields() {
    assert!(fitsu(0, 1));
    assert!(fitsu(1, 1));
    assert!(!fitsu(2, 1));
    assert!(fitss(0, 1));
    assert!(fitss(-1, 1));
    assert!(!fitss(1, 1));
    assert!(!fitss(-2, 1));
}

#[test]
fn shl_drops_what_leaves_the_word() {
    assert_eq!(shl(1, 0), 1);
    assert_eq!(shl(1, 63), 0x8000_0000_0000_0000);
    assert_eq!(shl(3, 63), 0x8000_0000_0000_0000);
    assert_eq!(shl(0xD41F268F, 4), 0xD41F268F0);
    assert_eq!(shl(u64::MAX, 60), 0xf000_0000_0000_0000);
}

#[test]
fn shl_by_the_word_size_or_more_is_zero() {
    assert_eq!(shl(u64::MAX, 64), 0);
    assert_eq!(shl(1, 65), 0);
    assert_eq!(shl(0xD41F268F, 128), 0);
    assert_eq!(shl(u64::MAX, u64::MAX), 0);
}

#[test]
fn shr_fills_with_zeros() {
    assert_eq!(shr(1, 0), 1);
    assert_eq!(shr(u64::MAX, 63), 1);
    assert_eq!(shr(0x8000_0000_0000_0000, 63), 1);
    assert_eq!(shr(0xD41F268F, 4), 0xD41F268);
    assert_eq!(shr(u64::MAX, 60), 0xf);
}

#[test]
fn shr_by_the_word_size_or_more_is_zero() {
    assert_eq!(shr(u64::MAX, 64), 0);
    assert_eq!(shr(1, 65), 0);
    assert_eq!(shr(0xD41F268F, 128), 0);
    assert_eq!(shr(u64::MAX, u64::MAX), 0);
}

#[test]
fn every_word_has_the_same_width() {
    assert_eq!(get_word_width(0), 64);
    assert_eq!(get_word_width(u64::MAX), 64);
    assert_eq!(get_word_width(0xD41F268F), 64);
}
