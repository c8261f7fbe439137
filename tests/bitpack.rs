use rpeg::bitpack::{fitss, fitsu, gets, getu, i_to_u, news, newu, u_to_i};

#[test]
fn fitsu_bounds() {
    assert!(fitsu(0, 1));
    assert!(fitsu(1, 1));
    assert!(!fitsu(2, 1));
    assert!(fitsu(511, 9));
    assert!(!fitsu(512, 9));
    assert!(fitsu(u64::MAX, 64));
    assert!(fitsu(0, 0));
    assert!(!fitsu(1, 0));
}

#[test]
fn fitss_bounds() {
    assert!(fitss(-16, 5));
    assert!(fitss(15, 5));
    assert!(!fitss(16, 5));
    assert!(!fitss(-17, 5));
    assert!(fitss(0, 1));
    assert!(fitss(-1, 1));
    assert!(!fitss(1, 1));
    assert!(fitss(i64::MIN, 64));
    assert!(fitss(i64::MAX, 64));
}

#[test]
fn get_all_ones_word() {
    let word: u64 = 0xffff_ffff;
    assert_eq!(getu(word, 9, 23), 511);
}

#[test]
fn set_then_get_on_zero_word() {
    let result = newu(0, 9, 23, 511).unwrap();
    assert_eq!(getu(result, 9, 23), 511);
    assert_eq!(getu(result, 4, 0), 0);
    assert_eq!(result, 511u64 << 23);
}

#[test]
fn getu_edges() {
    assert_eq!(getu(0x1234, 0, 5), 0);
    assert_eq!(getu(0x1234, 0, 64), 0);
    assert_eq!(getu(u64::MAX, 64, 0), u64::MAX);
    assert_eq!(getu(0x8000_0000_0000_0000, 1, 63), 1);
    assert_eq!(getu(0xabcd, 8, 4), 0xbc);
}

#[test]
fn gets_reads_twos_complement() {
    let word: u64 = 0b10011 << 18;
    assert_eq!(gets(word, 5, 18), -13);
    assert_eq!(gets(0b01111 << 8, 5, 8), 15);
    assert_eq!(gets(u64::MAX, 64, 0), -1);
    assert_eq!(gets(u64::MAX, 0, 3), 0);
}

#[test]
fn newu_keeps_other_bits() {
    let word: u64 = 0xffff_ffff_ffff_ffff;
    let r = newu(word, 8, 8, 0).unwrap();
    assert_eq!(r, 0xffff_ffff_ffff_00ff);
    assert_eq!(newu(0x1234, 64, 0, 7), Some(7));
    assert_eq!(newu(0x1234, 0, 64, 0), Some(0x1234));
}

#[test]
fn newu_rejects_values_too_wide() {
    assert_eq!(newu(0, 9, 23, 512), None);
    assert_eq!(newu(0, 0, 0, 1), None);
}

#[test]
fn news_writes_and_rejects() {
    let r = news(0, 5, 18, -3).unwrap();
    assert_eq!(r, 0b11101 << 18);
    assert_eq!(gets(r, 5, 18), -3);
    assert_eq!(news(0, 5, 18, 16), None);
    assert_eq!(news(0, 5, 18, -17), None);
    assert_eq!(news(0, 64, 0, -1), Some(u64::MAX));
}

#[test]
fn signed_unsigned_conversions() {
    assert_eq!(i_to_u(-1, 5), 31);
    assert_eq!(i_to_u(-16, 5), 16);
    assert_eq!(i_to_u(7, 5), 7);
    assert_eq!(u_to_i(31, 5), -1);
    assert_eq!(u_to_i(16, 5), -16);
    assert_eq!(u_to_i(15, 5), 15);
    assert_eq!(i_to_u(i64::MIN, 64), 0x8000_0000_0000_0000);
    assert_eq!(u_to_i(0x8000_0000_0000_0000, 64), i64::MIN);
}

#[test]
fn signed_round_trip_over_five_bits() {
    for v in -16i64..16 {
        assert_eq!(u_to_i(i_to_u(v, 5), 5), v);
    }
}

#[test]
fn set_then_get_over_many_fields() {
    let word: u64 = 0x0123_4567_89ab_cdef;
    for width in 1u64..=16 {
        for lsb in 0u64..=(64 - width) {
            let value = (1u64 << width) - 1;
            let r = newu(word, width, lsb, value).unwrap();
            assert_eq!(getu(r, width, lsb), value);
            let mask = ((1u64 << width) - 1) << lsb;
            assert_eq!(r & !mask, word & !mask);
        }
    }
}
