use bitpack::bitpack::{gets, getu, news, newu};

#[test]
fn newu_rejects_what_does_not_fit() {
    let mut lsb: u64 = 0;
    while lsb + 5 <= 64 {
        assert_eq!(newu(0xD41F268F, 5, lsb, 500), None);
        assert_eq!(newu(0xD41F268F, 5, lsb, 32), None);
        assert!(newu(0xD41F268F, 5, lsb, 31).is_some());
        lsb += 1;
    }
}

#[test]
fn news_rejects_what_does_not_fit() {
    let mut lsb: u64 = 0;
    while lsb + 4 <= 64 {
        assert_eq!(news(0xD41F268F, 4, lsb, 8), None);
        assert_eq!(news(0xD41F268F, 4, lsb, -9), None);
        assert_eq!(news(0xD41F268F, 4, lsb, i64::MIN), None);
        assert!(news(0xD41F268F, 4, lsb, 7).is_some());
        assert!(news(0xD41F268F, 4, lsb, -8).is_some());
        lsb += 1;
    }
}

#[test]
fn newu_replaces_the_field_only() {
    assert_eq!(newu(0xffff_ffff_ffff_ffff, 8, 8, 0), Some(0xffff_ffff_ffff_00ff));
    assert_eq!(newu(0, 8, 8, 0xab), Some(0xab00));
    assert_eq!(newu(0x1234_5678_9abc_def0, 16, 24, 0xffff), Some(0x1234_56ff_ffbc_def0));
    assert_eq!(newu(0x1234_5678_9abc_def0, 4, 0, 0x5), Some(0x1234_5678_9abc_def5));
    assert_eq!(newu(0x1234_5678_9abc_def0, 4, 60, 0xf), Some(0xf234_5678_9abc_def0));
}

#[test]
fn news_writes_twos_complement() {
    assert_eq!(news(0, 8, 8, -1), Some(0xff00));
    assert_eq!(news(0, 8, 0, -128), Some(0x80));
    assert_eq!(news(0xffff_ffff_ffff_ffff, 8, 56, 1), Some(0x01ff_ffff_ffff_ffff));
    assert_eq!(news(0x1234_5678_9abc_def0, 16, 24, -2), Some(0x1234_56ff_febc_def0));
    assert_eq!(news(0, 1, 63, -1), Some(0x8000_0000_0000_0000));
    assert_eq!(news(u64::MAX, 64, 0, i64::MIN), Some(0x8000_0000_0000_0000));
}

#[test]
fn full_width_write_overwrites_a_set_word() {
    assert_eq!(newu(u64::MAX, 64, 0, 0), Some(0));
    assert_eq!(newu(0x1234_5678_9abc_def0, 64, 0, 7), Some(7));
    assert_eq!(news(u64::MAX, 64, 0, 0), Some(0));
    assert_eq!(news(0x1234_5678_9abc_def0, 64, 0, -7), Some(0xffff_ffff_ffff_fff9));
}

#[test]
fn fields_at_the_top_of_the_word() {
    assert_eq!(newu(0, 1, 63, 1), Some(0x8000_0000_0000_0000));
    assert_eq!(newu(u64::MAX, 1, 63, 0), Some(0x7fff_ffff_ffff_ffff));
    assert_eq!(newu(0, 63, 1, 0x7fff_ffff_ffff_ffff), Some(0xffff_ffff_ffff_fffe));
    assert_eq!(getu(0x8000_0000_0000_0000, 1, 63), 1);
    assert_eq!(gets(0x8000_0000_0000_0000, 1, 63), -1);
    assert_eq!(getu(0xffff_ffff_ffff_fffe, 63, 1), 0x7fff_ffff_ffff_ffff);
    assert_eq!(gets(0xffff_ffff_ffff_fffe, 63, 1), -1);
}

#[test]
fn fields_at_the_bottom_of_the_word() {
    assert_eq!(getu(0b1011, 1, 0), 1);
    assert_eq!(getu(0b1011, 2, 0), 3);
    assert_eq!(getu(0b1011, 3, 0), 3);
    assert_eq!(gets(0b1011, 1, 0), -1);
    assert_eq!(gets(0b1011, 2, 0), -1);
    assert_eq!(gets(0b1011, 3, 0), 3);
    assert_eq!(gets(0b1011, 4, 0), -5);
}

#[test]
fn reads_are_zero_or_sign_extended() {
    let word: u64 = 0x0000_0000_00f0_0000;
    assert_eq!(getu(word, 4, 20), 15);
    assert_eq!(gets(word, 4, 20), -1);
    assert_eq!(getu(word, 5, 20), 15);
    assert_eq!(gets(word, 5, 20), 15);
    assert_eq!(getu(word, 8, 16), 0xf0);
    assert_eq!(gets(word, 8, 16), -16);
}
