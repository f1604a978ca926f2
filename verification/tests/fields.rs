use bitpack::bitpack::{fitss, fitsu, gets, getu, news, newu};

// fitss
// n bounded by {-128, 127}
#[test]
fn fitss_lower_bound() {
    assert!(fitss(-128, 8));
    assert!(!fitss(-129, 8));
}

#[test]
fn fitss_upper_bound() {
    assert!(fitss(127, 8));
    assert!(!fitss(128, 8));
}

// fitsu
// n bounded by {0, 255}
#[test]
fn fitsu_lower_wound() {
    assert!(fitsu(0, 8));
}

#[test]
fn fitsu_upper_bound() {
    assert!(fitsu(255, 8));
    assert!(!fitsu(256, 8));
}

#[test]
fn build_word() {
    // numbers to write, from the top field down:
    // -3 4 1 15 2 6 -8 -1
    let mut word: u64 = !0_u32 as u64;
    // each write has to clear the ones in its way
    word = news(word, 4, 28, -3).unwrap();
    word = newu(word, 4, 24, 4).unwrap();
    word = newu(word, 4, 20, 1).unwrap();
    word = newu(word, 4, 16, 15).unwrap();
    word = newu(word, 4, 12, 2).unwrap();
    word = newu(word, 4, 8, 6).unwrap();
    word = news(word, 4, 4, -8).unwrap();
    word = news(word, 4, 0, -1).unwrap();

    assert_eq!(word, 0xD41F268F);
}

#[test]
fn get_word() {
    let word: u64 = 0xD41F268F;
    assert_eq!(gets(word, 4, 28), -3);
    assert_eq!(getu(word, 4, 24), 4);
    assert_eq!(getu(word, 4, 20), 1);
    assert_eq!(getu(word, 4, 16), 15);
    assert_eq!(getu(word, 4, 12), 2);
    assert_eq!(getu(word, 4, 8), 6);
    assert_eq!(gets(word, 4, 4), -8);
    assert_eq!(gets(word, 4, 0), -1);
}

// a field as wide as the word
#[test]
fn newu_bounds() {
    let mut word: u64 = 0;
    word = newu(word, 64, 0, !0_u64).unwrap();
    assert_eq!(word, !0_u64);
}

#[test]
fn news_bounds() {
    let mut word: u64 = 0;
    word = news(word, 64, 0, -1_i64).unwrap();
    assert_eq!(word, !0_u64);
}

#[test]
fn getu_bounds() {
    let word: u64 = !0_u64;
    assert_eq!(getu(word, 64, 0), !0_u64);
}

#[test]
fn gets_bounds() {
    let word: u64 = !0_u64;
    assert_eq!(gets(word, 64, 0), -1_i64);
}
