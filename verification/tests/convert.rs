use fast_blurhash::convert::{decode_ac, decode_dc, encode_ac, to_rgb, to_rgba};

#[test]
fn to_rgb_packs_red_first() {
    assert_eq!(to_rgb([0xca, 0xfe, 0xee]), 0xcafeee);
    assert_eq!(to_rgb([0, 0, 0]), 0);
    assert_eq!(to_rgb([255, 255, 255]), 0xffffff);
    assert_eq!(to_rgb([255, 127, 55]), 16744247);
    assert_eq!(to_rgb([1, 2, 3]), 0x010203);
}

#[test]
fn to_rgba_sets_full_alpha() {
    assert_eq!(to_rgba([0xca, 0xfe, 0xee]), 0xffcafeee);
    assert_eq!(to_rgba([0, 0, 0]), 0xff000000);
    assert_eq!(to_rgba([255, 255, 255]), 0xffffffff);
}

#[test]
fn decode_dc_unpacks_red_first() {
    assert_eq!(decode_dc(0xcafeee), [0xca, 0xfe, 0xee]);
    assert_eq!(decode_dc(0), [0, 0, 0]);
    assert_eq!(decode_dc(16744247), [255, 127, 55]);
    assert_eq!(decode_dc(0x010203), [1, 2, 3]);
}

#[test]
fn decode_dc_ignores_high_bits() {
    assert_eq!(decode_dc(0xffcafeee), [0xca, 0xfe, 0xee]);
    assert_eq!(decode_dc(47458320), [0xd4, 0x28, 0x10]);
}

#[test]
fn decode_dc_undoes_to_rgb() {
    for r in [0u8, 1, 127, 128, 254, 255] {
        for g in [0u8, 1, 127, 128, 254, 255] {
            for b in [0u8, 1, 127, 128, 254, 255] {
                assert_eq!(decode_dc(to_rgb([r, g, b])), [r, g, b]);
            }
        }
    }
}

#[test]
fn to_rgb_undoes_decode_dc() {
    for n in [0u32, 1, 255, 256, 65535, 65536, 0xcafeee, 0xfffffe, 0xffffff] {
        assert_eq!(to_rgb(decode_dc(n)), n);
    }
}

#[test]
fn encode_ac_packs_in_base_19() {
    assert_eq!(encode_ac([0, 0, 0]), 0);
    assert_eq!(encode_ac([9, 9, 9]), 3429);
    assert_eq!(encode_ac([18, 18, 18]), 6858);
    assert_eq!(encode_ac([14, 14, 14]), 5334);
    assert_eq!(encode_ac([16, 14, 14]), 6056);
    assert_eq!(encode_ac([1, 0, 0]), 361);
    assert_eq!(encode_ac([0, 1, 0]), 19);
    assert_eq!(encode_ac([0, 0, 1]), 1);
}

#[test]
fn decode_ac_unpacks_in_base_19() {
    assert_eq!(decode_ac(0), [0, 0, 0]);
    assert_eq!(decode_ac(3429), [9, 9, 9]);
    assert_eq!(decode_ac(6858), [18, 18, 18]);
    assert_eq!(decode_ac(1446), [4, 0, 2]);
    assert_eq!(decode_ac(1522), [4, 4, 2]);
}

#[test]
fn decode_ac_wraps_the_red_level() {
    assert_eq!(decode_ac(6859), [0, 0, 0]);
    assert_eq!(decode_ac(6888), [0, 1, 10]);
}

#[test]
fn decode_ac_undoes_encode_ac() {
    for r in 0u8..19 {
        for g in 0u8..19 {
            for b in 0u8..19 {
                assert_eq!(decode_ac(encode_ac([r, g, b])), [r, g, b]);
            }
        }
    }
}

#[test]
fn encode_ac_undoes_decode_ac() {
    for n in 0u32..6859 {
        assert_eq!(encode_ac(decode_ac(n)), n);
    }
}
