use zsan_codec::all_ascii::decimal::compress_decimal;
use zsan_codec::all_ascii::decimal::decompress_decimal;
use zsan_codec::all_ascii::integer::compress_integer;
use zsan_codec::all_ascii::integer::decompress_integer;
use zsan_codec::all_ascii::unsigned_decimal::compress_unsigned_decimal;
use zsan_codec::all_ascii::unsigned_decimal::decompress_unsigned_decimal;
use zsan_codec::all_ascii::unsigned_integer::compress_unsigned_integer;
use zsan_codec::all_ascii::unsigned_integer::decompress_unsigned_integer;

#[test]
fn test_unsigned_integer() {
    for x in 1..1000 {
        let mut out = Vec::new();
        if compress_unsigned_integer(x, false, 0, &mut out) {
            let result = format!("{}", x).into_bytes();
            println!("x:{x}\t {}\t>\t{}", result.len(), out.len());
            let mut final_out = Vec::new();
            decompress_unsigned_integer(out.as_slice(), &mut final_out);
            assert_eq!(final_out, result);
        }
    }
}

#[test]
fn integer_test_integer_positive() {
    for x in 1..1000 {
        let mut out = Vec::new();
        if compress_integer(x, false, 0, &mut out) {
            let result = format!("{}", x).into_bytes();
            println!("x:{x}\t {}\t>\t{}", result.len(), out.len());
            let mut final_out = Vec::new();
            decompress_integer(out.as_slice(), &mut final_out);
            assert_eq!(final_out, result);
        }
    }
}

#[test]
fn integer_test_integer_negative() {
    for x in 1..1000 {
        let mut out = Vec::new();
        if compress_integer(x, true, 0, &mut out) {
            let result = format!("-{}", x).into_bytes();
            println!("x:{x}\t {}\t>\t{}", result.len(), out.len());
            let mut final_out = Vec::new();
            decompress_integer(out.as_slice(), &mut final_out);
            assert_eq!(final_out, result);
        }
    }
}

#[test]
fn unsigned_decimal_test_integer_positive() {
    for x in 1..1000 {
        let mut out = Vec::new();
        if compress_unsigned_decimal(x, false, 0, &mut out) {
            let result = format!("{}", x).into_bytes();
            println!("x:{x}\t {}\t>\t{}", result.len(), out.len());
            let mut final_out = Vec::new();
            decompress_unsigned_decimal(out.as_slice(), &mut final_out);
            assert_eq!(final_out, result);
        }
    }
}

#[test]
fn unsigned_decimal_test_decimal_positive() {
    for x in 1..1000 {
        let mut out = Vec::new();
        if compress_unsigned_decimal(x, false, 1, &mut out) {
            let result = format!("{:.1}", x as f64 / 10.0);
            println!("x:{x}\t{}\t>\t{}\t{}", result.len(), out.len(), result);
            let mut final_out = Vec::new();
            decompress_unsigned_decimal(out.as_slice(), &mut final_out);
            assert_eq!(final_out, result.into_bytes());
        }
    }
}

#[test]
fn decimal_test_integer_positive() {
    for x in 1..1000 {
        let mut out = Vec::new();
        if compress_decimal(x, false, 0, &mut out) {
            let result = format!("{}", x).into_bytes();
            println!("x:{x}\t {}\t>\t{}", result.len(), out.len());
            let mut final_out = Vec::new();
            decompress_decimal(out.as_slice(), &mut final_out);
            assert_eq!(final_out, result);
        }
    }
}

#[test]
fn decimal_test_integer_negative() {
    for x in 1..1000 {
        let mut out = Vec::new();
        if compress_decimal(x, true, 0, &mut out) {
            let result = format!("-{}", x).into_bytes();
            println!("x:{x}\t {}\t>\t{}", result.len(), out.len());
            let mut final_out = Vec::new();
            decompress_decimal(out.as_slice(), &mut final_out);
            assert_eq!(final_out, result);
        }
    }
}

#[test]
fn decimal_test_decimal_positive() {
    for x in 1..1000 {
        let mut out = Vec::new();
        if compress_decimal(x, false, 1, &mut out) {
            let result = format!("{:.1}", x as f64 / 10.0);
            println!("x:{x}\t{}\t>\t{}\t{}", result.len(), out.len(), result);
            let mut final_out = Vec::new();
            decompress_decimal(out.as_slice(), &mut final_out);
            assert_eq!(final_out, result.into_bytes());
        }
    }
}

#[test]
fn decimal_negative_fraction_renders_padded() {
    // magnitude 5 with three decimal places renders "0.005"
    let mut out = Vec::new();
    assert!(compress_decimal(5, true, 3, &mut out));
    let mut text = Vec::new();
    let consumed = decompress_decimal(out.as_slice(), &mut text).unwrap();
    assert_eq!(consumed, out.len());
    assert_eq!(text, b"-0.005".to_vec());
}

#[test]
fn numeric_decoders_report_truncation() {
    let mut sink = Vec::new();
    assert_eq!(decompress_unsigned_integer(&[], &mut sink), None);
    assert_eq!(decompress_integer(&[0b_1111_0000], &mut sink), None);
    assert_eq!(decompress_unsigned_decimal(&[0b_1110_0010], &mut sink), None);
    assert_eq!(decompress_decimal(&[0b_1101_0001, 0x80], &mut sink), None);
    assert!(sink.is_empty());
}
