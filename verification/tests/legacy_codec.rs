use zsan_codec::zsan::numeric_all_ascii::compress_numeric_in_all_ascii;
use zsan_codec::zsan::numeric_all_ascii::decompress_numeric_in_all_ascii;
use zsan_codec::zsan::numeric_all_ascii::should_compress;
use zsan_codec::zsan::numeric_all_ascii::Sign;
use zsan_codec::zsan::space_all_ascii::decode_spaces_in_all_ascii;
use zsan_codec::zsan::space_all_ascii::encode_spaces_mode_all_ascii;
use zsan_codec::zsan::space_all_ascii::is_space_char;
use zsan_codec::zsan::space_has_non_ascii::decode_spaces_mode_non_ascii;
use zsan_codec::zsan::space_has_non_ascii::encode_spaces_mode_non_ascii;

#[test]
fn test_compress_numeric_mode_all_ascii() {
    let mut out_len = 0;
    let mut max = 0;
    for val in 1..1000 {
        let mut out: Vec<u8> = vec![];
        compress_numeric_in_all_ascii(val, 0, Sign::Positive, &mut out);

        if out.len() > out_len {
            if max > 0 {
                println!(" ~ {max}");
            }
            println!("{}\t{val}", out.len());
            out_len = out.len();
        }
        max = val;
    }
    println!(" ~ {max}");

    let mut out = vec![];
    compress_numeric_in_all_ascii(0b110010_01101_0010, 0, Sign::Positive, &mut out);
    assert_eq!(out, vec![0b_1000_1010, 0b_1001_1010, 0b_0001_1001]);
}

#[test]
fn numeric_all_ascii_test_decode_spaces_in_all_ascii() {
    let mut out = vec![];
    decompress_numeric_in_all_ascii(123, 0b0000_0000, &mut out);
    assert_eq!(out, vec![b'1', b'2', b'3']);
}

#[test]
fn test_decode_spaces_in_all_ascii_nagivate() {
    let mut out = vec![];
    decompress_numeric_in_all_ascii(123, 0b0010_0000, &mut out);
    assert_eq!(out, vec![b'-', b'1', b'2', b'3']);
}

#[test]
fn test_decode_spaces_in_all_ascii_decimal() {
    let mut out = vec![];
    decompress_numeric_in_all_ascii(123, 0b0011_0001, &mut out);
    assert_eq!(out, vec![b'-', b'1', b'2', b'.', b'3']);
}

#[test]
fn test_encode_spaces_mode_all_ascii() {
    let mut count = 127;
    let mut out = vec![];
    encode_spaces_mode_all_ascii(&mut count, &mut out);
    assert_eq!(out, vec![0b_1111_1111, 0b_1111_1111, 0b_1100_0001]);
}

#[test]
fn test_encode_spaces_mode_all_ascii_2() {
    let mut count = 63;
    let mut out = vec![];
    encode_spaces_mode_all_ascii(&mut count, &mut out);
    assert_eq!(out, vec![0b_1111_1111]);
}

#[test]
fn test_encode_spaces_mode_all_ascii_3() {
    let mut count = 62;
    let mut out = vec![];
    encode_spaces_mode_all_ascii(&mut count, &mut out);
    assert_eq!(out, vec![0b_1111_1110]);
}

#[test]
fn space_all_ascii_test_decode_spaces_in_all_ascii() {
    let mut out = vec![];
    decode_spaces_in_all_ascii(0b_1100_0011, &mut out);
    assert_eq!(out, vec![b' '; 3]);
}

#[test]
fn encode_spaces_resets_count() {
    let mut count = 200;
    let mut out = vec![];
    encode_spaces_mode_all_ascii(&mut count, &mut out);
    assert_eq!(count, 0);
    assert!(is_space_char(out[0]));
    assert!(!is_space_char(b' '));
}

#[test]
fn non_ascii_spaces_round_trip() {
    // 300 spaces: marker, one full count byte, remainder 45
    let mut count = 300;
    let mut out = vec![b'A'];
    encode_spaces_mode_non_ascii(&mut count, &mut out);
    assert_eq!(count, 0);
    assert_eq!(out, vec![b'A', b' ', 255, 45]);

    let mut text = vec![];
    decode_spaces_mode_non_ascii(&out, &mut text);
    let mut expected = vec![b'A'];
    expected.extend(vec![b' '; 300]);
    assert_eq!(text, expected);
}

#[test]
fn non_ascii_spaces_exact_multiple() {
    // 255 spaces: the remainder byte is zero so the run closes
    let mut count = 255;
    let mut out = vec![];
    encode_spaces_mode_non_ascii(&mut count, &mut out);
    assert_eq!(out, vec![b' ', 255, 0]);

    let mut text = vec![];
    decode_spaces_mode_non_ascii(&out, &mut text);
    assert_eq!(text, vec![b' '; 255]);
}

#[test]
fn should_compress_threshold() {
    assert!(!should_compress(100));
    assert!(should_compress(101));
    assert!(!should_compress(5));
}
