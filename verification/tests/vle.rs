use zsan_codec::vle_variants::vle_n::decode_5;
use zsan_codec::vle_variants::vle_n::encode_5;
use zsan_codec::vle_variants::vle_n::encode_6;
use zsan_codec::vle_variants::vle_one::decode_1;
use zsan_codec::vle_variants::vle_one::encode_1;
use zsan_codec::vle_variants::vle_zero::decode_0;
use zsan_codec::vle_variants::vle_zero::encode_0;

#[test]
fn vle_zero_test_encode() {
    let out = encode_0(0b_1_1101010_1001101_01100);
    out.iter().for_each(|i| {
        println!("{i:08b}");
    });
    assert_eq!(out, vec![0b_1010_1100, 0b_1101_0011, 0b_0011_1010]);
}

#[test]
fn vle_zero_test_all() {
    for i in [u64::MIN, 1258, 999999999, u64::MAX] {
        let out = encode_0(i as u64);
        let len = out.len();
        assert_eq!(decode_0(out.as_slice()), Some((i as u64, len)));
    }
}

#[test]
fn test_encode_1() {
    let out = encode_1(0b_1101010_1001101_0);
    assert_eq!(out, vec![0b_0000_0000, 0b_1100_1101, 0b_0110_1010]);
}

#[test]
fn test_encode_1_1() {
    let out = encode_1(0b_0000_0001);
    assert_eq!(out, vec![0b_0000_0001, 0b_0000_0000]);
}

#[test]
fn vle_one_test_all() {
    for i in 0..u8::MAX {
        let out = encode_1(i as u64);
        assert_eq!(decode_1(out.as_slice()).unwrap().0, i as u64);
    }
}

#[test]
fn vle_n_test_encode() {
    let out = encode_6(0b_1_1101010_1001101_01100);
    out.iter().for_each(|i| println!("{i:08b}"));
    assert_eq!(
        out,
        vec![0b_0010_1100, 0b_1100_1101, 0b_1110_1010, 0b_0000_0001]
    );
}

#[test]
fn vle_n_test_all() {
    for i in 0..u8::MAX {
        let out = encode_5(i as u64);
        assert_eq!(decode_5(out.as_slice()).unwrap().0, i as u64);
    }

    for i in [u64::MIN, 1258, 999999999, u64::MAX] {
        let out = encode_5(i as u64);
        assert_eq!(decode_5(out.as_slice()).unwrap().0, i as u64);
    }
}

#[test]
fn vle_decode_reports_truncation() {
    // a continuation flag with nothing after it cannot decode
    assert_eq!(decode_0(&[0b_1000_0001]), None);
    assert_eq!(decode_1(&[0b_0000_0001]), None);
    assert_eq!(decode_5(&[0b_0001_1111, 0b_1000_0000]), None);
    assert_eq!(decode_0(&[]), None);
}

#[test]
fn vle_decode_reports_overflow() {
    // eleven maximal continuation bytes stand for more than 64 bits
    let big = vec![0xFFu8; 10];
    let mut stream = big.clone();
    stream.push(0x01);
    assert_eq!(decode_0(&stream), None);
    // the same chain of zero chunks still decodes to zero
    let mut zeros = vec![0x80u8; 12];
    zeros.push(0x00);
    assert_eq!(decode_0(&zeros), Some((0, 13)));
}
