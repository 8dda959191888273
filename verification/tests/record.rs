use zsan_codec::zsan::compress;
use zsan_codec::zsan::decompress;
use zsan_codec::zsan::DecodeError;

#[test]
fn test_compress() {
    let input = "A  B";
    let mut out = Vec::new();
    compress(input.as_bytes(), &mut out);
    for o in out.iter() {
        println!("{:08b}", o);
    }

    let mut final_out = vec![];
    decompress(&out, &mut final_out).unwrap();
    for o in final_out.iter() {
        println!("out\t{:08b}", o);
    }

    assert_eq!(String::from_utf8(final_out).unwrap(), input);
}

#[test]
fn test_integer_compression() {
    let input = "A   123  B";
    let mut out = Vec::new();
    compress(input.as_bytes(), &mut out);
    for o in out.iter() {
        println!("{:08b}", o);
    }

    let mut final_out = vec![];
    decompress(&out, &mut final_out).unwrap();

    assert_eq!(String::from_utf8(final_out).unwrap(), input);
}

#[test]
fn test_unsigned_integer_compression() {
    let input = "A   123  B-1234";
    let mut out = Vec::new();
    compress(input.as_bytes(), &mut out);
    for o in out.iter() {
        println!("{:08b}", o);
    }

    let mut final_out = vec![];
    decompress(&out, &mut final_out).unwrap();

    assert_eq!(String::from_utf8(final_out).unwrap(), input);
}

#[test]
fn test_decimal_compression() {
    let input = "A   -1.23  B0.1-234";
    let mut out = Vec::new();
    compress(input.as_bytes(), &mut out);
    for o in out.iter() {
        println!("{:08b}", o);
    }
    let mut final_out = vec![];
    decompress(&out, &mut final_out).unwrap();
    assert_eq!(String::from_utf8(final_out).unwrap(), input);
}

#[test]
fn test_unsigned_decimal_compression() {
    let input = "A   123  B0.1234";
    let mut out = Vec::new();
    compress(input.as_bytes(), &mut out);
    for o in out.iter() {
        println!("{:08b}", o);
    }
    let mut final_out = vec![];
    decompress(&out, &mut final_out).unwrap();
    assert_eq!(String::from_utf8(final_out).unwrap(), input);
}

#[test]
fn test_one_space() {
    let input = "123 ";
    let mut out = Vec::new();
    compress(input.as_bytes(), &mut out);
    for o in out.iter() {
        println!("{:08b}", o);
    }
    let mut final_out = vec![];
    decompress(&out, &mut final_out).unwrap();
    assert_eq!(String::from_utf8(final_out).unwrap(), input);
}

#[test]
fn test_mixed_types() {
    let input = "30";
    let mut out = Vec::new();
    compress(input.as_bytes(), &mut out);

    for o in out.iter() {
        println!("{:08b}", o);
    }

    let mut final_out = vec![];
    decompress(&out, &mut final_out).unwrap();
    assert_eq!(String::from_utf8(final_out).unwrap(), input);
}

#[test]
fn empty_record_round_trips_to_nothing() {
    let mut out = Vec::new();
    compress(b"", &mut out);
    assert!(out.is_empty());
    let mut text = Vec::new();
    assert_eq!(decompress(&out, &mut text), Ok(()));
    assert!(text.is_empty());
}

#[test]
fn unrecognized_header_is_rejected() {
    let mut text = Vec::new();
    assert_eq!(
        decompress(&[0b_0001_0010, b'A'], &mut text),
        Err(DecodeError::InvalidHeader)
    );
    assert!(text.is_empty());
    assert_eq!(
        decompress(&[0b_1000_0001], &mut text),
        Err(DecodeError::InvalidHeader)
    );
    assert!(text.is_empty());
}

#[test]
fn truncated_token_is_rejected() {
    // a numeric lead byte whose continuation bytes are missing
    let mut text = Vec::new();
    assert_eq!(
        decompress(&[0b_0100_0000, 0b_1111_1111], &mut text),
        Err(DecodeError::Malformed)
    );
    assert!(text.is_empty());
    assert_eq!(
        decompress(&[0b_0100_0011, b'x', 0b_1101_0001, 0b_1000_0000], &mut text),
        Err(DecodeError::Malformed)
    );
    assert!(text.is_empty());
}
