use fast_blurhash::base83::Base83ConversionError;
use fast_blurhash::{decode, encode, BlurhashError, QuantizedDct};

const WHITE: &str = "U~TSUA~qfQ~q~q%MfQ%MfQfQfQfQ~q%MfQ%M";
const BLACK: &str = "U00000fQfQfQfQfQfQfQfQfQfQfQfQfQfQfQ";
const MIXED: &str = "KzKUZY=|HZ=|$5e9HZe9IS";
const PHOTO: &str = "vbHLxdSgNHxD~pX9R+i_NfNIt7V@NL%Mt7Rj-;t7e:WCj[WXV[ofM{WXbHof";

fn bad_char() -> Result<QuantizedDct, BlurhashError> {
    Err(BlurhashError::BadFormat(Base83ConversionError::InvalidChar))
}

#[test]
fn decode_white() {
    let dct = decode(WHITE).unwrap();
    assert_eq!(dct.dim(), (4, 4));
    assert_eq!(dct.x_components(), 4);
    assert_eq!(dct.y_components(), 4);
    assert_eq!(dct.max_ac(), 82);
    assert_eq!(dct.dc(), &[255, 255, 255]);
    let high = [18, 18, 18];
    let mid = [14, 14, 14];
    let zero = [9, 9, 9];
    assert_eq!(
        dct.acs(),
        &[
            high, zero, high, high, mid, zero, mid, zero, zero, zero, zero, high, mid, zero,
            mid
        ]
    );
}

#[test]
fn decode_black() {
    let dct = decode(BLACK).unwrap();
    assert_eq!(dct.dim(), (4, 4));
    assert_eq!(dct.max_ac(), 0);
    assert_eq!(dct.dc(), &[0, 0, 0]);
    assert_eq!(dct.acs(), &[[9u8, 9, 9]; 15]);
}

#[test]
fn decode_mixed() {
    let dct = decode(MIXED).unwrap();
    assert_eq!(dct.dim(), (3, 3));
    assert_eq!(dct.max_ac(), 61);
    assert_eq!(dct.dc(), &[177, 177, 165]);
    assert_eq!(
        dct.acs(),
        &[
            [16, 14, 14],
            [4, 0, 2],
            [16, 14, 14],
            [14, 9, 9],
            [9, 4, 4],
            [4, 0, 2],
            [9, 4, 4],
            [4, 4, 2]
        ]
    );
}

#[test]
fn decode_photo() {
    let dct = decode(PHOTO).unwrap();
    assert_eq!(dct.dim(), (4, 7));
    assert_eq!(dct.max_ac(), 37);
    assert_eq!(dct.dc(), &[150, 154, 160]);
    assert_eq!(dct.acs().len(), 27);
    assert_eq!(dct.acs()[0], [6, 10, 10]);
    assert_eq!(dct.acs()[3], [18, 18, 17]);
    assert_eq!(dct.acs()[26], [11, 11, 11]);
}

#[test]
fn decode_rectangular_grid() {
    let dct = decode("LlMF%n00%#MwS|WCWEM{R*bbWBbH").unwrap();
    assert_eq!(dct.dim(), (4, 3));
    assert_eq!(dct.max_ac(), 47);
    assert_eq!(dct.dc(), &[193, 154, 138]);
    assert_eq!(dct.acs()[0], [0, 0, 0]);
    assert_eq!(dct.acs()[10], [8, 10, 10]);
}

#[test]
fn decode_single_component() {
    let dct = decode("0~TNl]").unwrap();
    assert_eq!(dct.dim(), (1, 1));
    assert_eq!(dct.max_ac(), 82);
    assert_eq!(dct.dc(), &[255, 127, 55]);
    assert!(dct.acs().is_empty());
}

#[test]
fn encode_white() {
    let high = [18, 18, 18];
    let mid = [14, 14, 14];
    let zero = [9, 9, 9];
    let acs = vec![
        high, zero, high, high, mid, zero, mid, zero, zero, zero, zero, high, mid, zero, mid,
    ];
    let dct = QuantizedDct::new(82, [255, 255, 255], acs, 4, 4);
    assert_eq!(encode(&dct), WHITE);
}

#[test]
fn encode_black() {
    let dct = QuantizedDct::new(0, [0, 0, 0], vec![[9, 9, 9]; 15], 4, 4);
    assert_eq!(encode(&dct), BLACK);
    assert_eq!(dct.into_blurhash(), BLACK);
}

#[test]
fn encode_mixed() {
    let acs = vec![
        [16, 14, 14],
        [4, 0, 2],
        [16, 14, 14],
        [14, 9, 9],
        [9, 4, 4],
        [4, 0, 2],
        [9, 4, 4],
        [4, 4, 2],
    ];
    let dct = QuantizedDct::new(61, [177, 177, 165], acs, 3, 3);
    assert_eq!(dct.into_blurhash(), MIXED);
}

#[test]
fn encode_single_component_writes_zero_maximum() {
    let dct = QuantizedDct::new(82, [255, 127, 55], vec![], 1, 1);
    assert_eq!(encode(&dct), "00TNl]");
    let dct = QuantizedDct::new(0, [255, 127, 55], Vec::new(), 1, 1);
    assert_eq!(encode(&dct), "00TNl]");
}

#[test]
fn encode_largest_grid() {
    let dct = QuantizedDct::new(82, [1, 2, 3], vec![[0, 9, 18]; 80], 9, 9);
    let blurhash = encode(&dct);
    assert_eq!(blurhash.len(), 1 + 1 + 4 + 2 * 80);
    assert!(blurhash.starts_with("|~09m+2N"));
    assert!(blurhash.ends_with("2N2N"));
    assert_eq!(decode(&blurhash), Ok(dct));
}

#[test]
fn encode_has_the_length_of_the_grid() {
    for x in 1usize..=9 {
        for y in 1usize..=9 {
            let n = x * y;
            let dct = QuantizedDct::new(7, [9, 8, 7], vec![[1, 2, 3]; n - 1], x, y);
            let blurhash = encode(&dct);
            assert_eq!(blurhash.len(), 1 + 1 + 4 + 2 * (n - 1));
            assert_eq!(decode(&blurhash).unwrap().dim(), (x, y));
        }
    }
}

#[test]
fn blurhash_decode_undoes_encode() {
    let acs = vec![[0, 1, 2], [3, 4, 5], [6, 7, 8], [9, 10, 11], [12, 13, 14]];
    let dct = QuantizedDct::new(33, [12, 200, 77], acs, 2, 3);
    assert_eq!(decode(&encode(&dct)), Ok(dct.clone()));
    assert_eq!(decode(&dct.clone().into_blurhash()), Ok(dct));
}

#[test]
fn blurhash_encode_undoes_decode() {
    for blurhash in [WHITE, BLACK, MIXED, PHOTO, "LlMF%n00%#MwS|WCWEM{R*bbWBbH", "00TNl]"] {
        assert_eq!(encode(&decode(blurhash).unwrap()), blurhash);
    }
}

#[test]
fn decode_empty_is_invalid_length() {
    assert_eq!(decode(""), Err(BlurhashError::InvalidLength));
}

#[test]
fn decode_length_mismatch_is_invalid_length() {
    assert_eq!(decode("0"), Err(BlurhashError::InvalidLength));
    assert_eq!(decode("0~TNl"), Err(BlurhashError::InvalidLength));
    assert_eq!(decode("0~TNl]0"), Err(BlurhashError::InvalidLength));
    assert_eq!(decode(&WHITE[..35]), Err(BlurhashError::InvalidLength));
    assert_eq!(decode(&format!("{WHITE}fQ")), Err(BlurhashError::InvalidLength));
    assert_eq!(decode(&format!("K{}", &WHITE[1..])), Err(BlurhashError::InvalidLength));
}

#[test]
fn decode_length_counts_before_later_characters() {
    assert_eq!(decode("0~TN "), Err(BlurhashError::InvalidLength));
    assert_eq!(decode("0~T°l"), Err(BlurhashError::InvalidLength));
}

#[test]
fn decode_bad_header_is_bad_format() {
    assert_eq!(decode(" "), bad_char());
    assert_eq!(decode("!~TNl]"), bad_char());
    assert_eq!(decode("°"), bad_char());
    assert_eq!(decode("°~TNl]"), bad_char());
    assert_eq!(decode("\u{1F600}0"), bad_char());
}

#[test]
fn decode_grid_above_nine_is_unsupported() {
    assert_eq!(decode("}"), Err(BlurhashError::UnsupportedMode));
    assert_eq!(decode("~"), Err(BlurhashError::UnsupportedMode));
    assert_eq!(decode("}~TNl]"), Err(BlurhashError::UnsupportedMode));
    assert_eq!(decode("~°"), Err(BlurhashError::UnsupportedMode));
}

#[test]
fn decode_largest_header_is_supported() {
    assert_eq!(decode("|"), Err(BlurhashError::InvalidLength));
    let blurhash = format!("|{}", "0".repeat(165));
    assert_eq!(decode(&blurhash).unwrap().dim(), (9, 9));
}

#[test]
fn decode_bad_field_is_bad_format() {
    assert_eq!(decode("0 TNl]"), bad_char());
    assert_eq!(decode("0~T\"l]"), bad_char());
    assert_eq!(decode("0~TNl\\"), bad_char());
    assert_eq!(decode("0°TNl]"), bad_char());
    assert_eq!(decode("0~TNl°"), bad_char());
    assert_eq!(decode(&format!("{}f ", &WHITE[..34])), bad_char());
    assert_eq!(decode(&format!("{}°Q", &WHITE[..34])), bad_char());
    assert_eq!(decode(&format!("{}\u{1F600}{}", &WHITE[..9], &WHITE[10..])), bad_char());
}

#[test]
fn decode_reads_fields_above_their_range() {
    let dct = decode("0~~~~~").unwrap();
    assert_eq!(dct.dc(), &[0xd4, 0x28, 0x10]);
    let dct = decode("100000~~").unwrap();
    assert_eq!(dct.dim(), (2, 1));
    assert_eq!(dct.acs(), &[[0, 1, 10]]);
}

#[test]
fn base83_error_becomes_bad_format() {
    assert_eq!(
        BlurhashError::from(Base83ConversionError::InvalidChar),
        BlurhashError::BadFormat(Base83ConversionError::InvalidChar)
    );
    assert_eq!(
        BlurhashError::from(Base83ConversionError::Overflow),
        BlurhashError::BadFormat(Base83ConversionError::Overflow)
    );
}

#[test]
fn error_messages() {
    assert_eq!(
        BlurhashError::InvalidLength.message(),
        "The extracted length of the blurhash does not match the actual length"
    );
    assert_eq!(
        BlurhashError::InvalidPunch.message(),
        "The punch parameter must be positive and non-zero"
    );
    assert_eq!(
        BlurhashError::BadFormat(Base83ConversionError::InvalidChar).message(),
        "The blurhash contains invalid base83 codes (InvalidChar)"
    );
    assert_eq!(
        BlurhashError::BadFormat(Base83ConversionError::Overflow).message(),
        "The blurhash contains invalid base83 codes (Overflow)"
    );
    assert_eq!(
        BlurhashError::UnsupportedMode.message(),
        "The blurhash's number of X or Y components was greater than 9"
    );
}

#[test]
fn getters_give_what_new_took() {
    let acs = vec![[1, 2, 3], [4, 5, 6], [7, 8, 9]];
    let dct = QuantizedDct::new(42, [10, 20, 30], acs.clone(), 2, 2);
    assert_eq!(dct.max_ac(), 42);
    assert_eq!(dct.dc(), &[10, 20, 30]);
    assert_eq!(dct.acs(), &acs[..]);
    assert_eq!(dct.x_components(), 2);
    assert_eq!(dct.y_components(), 2);
    assert_eq!(dct.dim(), (2, 2));
    assert_eq!(dct.clone(), dct);
}
