use static_filez::slice::{pack_in_u64, unpack_from_u64};

#[test]
fn pack_puts_offset_high_and_length_low() {
    assert_eq!(pack_in_u64(1, 2), 0x0000_0001_0000_0002);
    assert_eq!(pack_in_u64(0, 0), 0);
    assert_eq!(pack_in_u64(0xFFFF_FFFF, 0xFFFF_FFFF), u64::MAX);
    assert_eq!(pack_in_u64(0x1234_5678, 0x9ABC_DEF0), 0x1234_5678_9ABC_DEF0);
}

#[test]
fn unpack_splits_high_and_low() {
    assert_eq!(unpack_from_u64(0x0000_0001_0000_0002), (1, 2));
    assert_eq!(unpack_from_u64(0), (0, 0));
    assert_eq!(unpack_from_u64(u64::MAX), (0xFFFF_FFFF, 0xFFFF_FFFF));
    assert_eq!(unpack_from_u64(0x1234_5678_9ABC_DEF0), (0x1234_5678, 0x9ABC_DEF0));
}

#[test]
fn slice_encoding_roundtrip() {
    let samples: [u32; 9] = [0, 1, 2, 255, 256, 65_535, 65_536, 0x7FFF_FFFF, 0xFFFF_FFFF];
    for &i in samples.iter() {
        for &l in samples.iter() {
            assert_eq!(
                (i as usize, l as usize),
                unpack_from_u64(pack_in_u64(i as usize, l as usize))
            );
        }
    }
}

#[test]
fn pack_inverts_unpack() {
    let samples: [u64; 5] = [0, 1, 0xFFFF_FFFF, 0x1_0000_0000, u64::MAX];
    for &key in samples.iter() {
        let (offset, length) = unpack_from_u64(key);
        assert_eq!(pack_in_u64(offset, length), key);
    }
}
