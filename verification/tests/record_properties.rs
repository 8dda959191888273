use zsan_codec::all_ascii::unsigned_integer::compress_unsigned_integer;
use zsan_codec::zsan::compress;
use zsan_codec::zsan::decompress;
use zsan_codec::zsan_parser::retrave_blocks;
use zsan_codec::zsan_parser::Block;
use zsan_codec::zsan_parser::NumericalBlock;

fn round_trips(input: &[u8]) {
    let mut out = Vec::new();
    compress(input, &mut out);
    let mut text = Vec::new();
    decompress(&out, &mut text).unwrap();
    assert_eq!(text, input.to_vec());
}

#[test]
fn round_trip_assorted_records() {
    round_trips(b"");
    round_trips(b" ");
    round_trips(b"   ");
    round_trips(b"abc");
    round_trips(b"5");
    round_trips(b"123");
    round_trips(b"-0");
    round_trips(b"12.");
    round_trips(b"--5");
    round_trips(b"0.000");
    round_trips(b"-12.050  007.8  +3.00  0.0");
    round_trips(b"999999999999999999");
    round_trips(b"id-42 rate:0.25% [ok]");
    round_trips(" ".repeat(63).as_bytes());
    round_trips(" ".repeat(64).as_bytes());
    round_trips(" ".repeat(300).as_bytes());
}

#[test]
fn round_trip_keeps_leading_zeros() {
    // "007.8": two literal zero bytes, then one numeric block for "7.8"
    round_trips(b"007.8");
    let (_, _, blocks) = retrave_blocks(b"007.8");
    assert_eq!(
        blocks,
        vec![Block::Numerical(
            2,
            3,
            NumericalBlock { base: 78, negative: false, decimal_places: 1 }
        )]
    );

    // "0.0": a single block with magnitude zero and one decimal place
    round_trips(b"0.0");
    let (_, has_decimal, blocks) = retrave_blocks(b"0.0");
    assert!(has_decimal);
    assert_eq!(
        blocks,
        vec![Block::Numerical(
            0,
            3,
            NumericalBlock { base: 0, negative: false, decimal_places: 1 }
        )]
    );
}

#[test]
fn encoder_declines_small_values() {
    // "5" stays byte-identical after the header: the codec declines
    let mut out = Vec::new();
    compress(b"5", &mut out);
    assert_eq!(out, vec![0b_0100_0000, b'5']);

    let mut token = Vec::new();
    assert!(!compress_unsigned_integer(5, false, 0, &mut token));
    assert!(token.is_empty());

    // "123" shrinks: a two-byte token beats three digit bytes
    assert!(compress_unsigned_integer(123, false, 0, &mut token));
    assert!(token.len() < 3);
    round_trips(b"5");
    round_trips(b"123");
}

#[test]
fn one_negative_and_one_decimal_select_signed_decimal_mode() {
    // both flag bits of the header are set, so every numeric token in the
    // record goes through the signed-decimal codec
    let mut out = Vec::new();
    compress(b"-7 1.5 200", &mut out);
    assert_eq!(out[0], 0b_0100_0011);
    round_trips(b"-7 1.5 200");
}

#[test]
fn mixed_record_uses_signed_decimal_mode() {
    let input = b"  -12.050  007.8  +3.00  0.0  abc   ";
    let (has_negative, has_decimal, _) = retrave_blocks(input);
    assert!(has_negative);
    assert!(has_decimal);
    let mut out = Vec::new();
    compress(input, &mut out);
    assert_eq!(out[0], 0b_0100_0011);
    round_trips(input);
}

#[test]
fn header_mode_matches_flags() {
    let mut out = Vec::new();
    compress(b"123", &mut out);
    assert_eq!(out[0], 0b_0100_0000);
    out.clear();
    compress(b"1.5", &mut out);
    assert_eq!(out[0], 0b_0100_0001);
    out.clear();
    compress(b"-123", &mut out);
    assert_eq!(out[0], 0b_0100_0010);
    out.clear();
    compress(b"-1.5", &mut out);
    assert_eq!(out[0], 0b_0100_0011);
}

#[test]
fn overflow_split_round_trips() {
    // twenty nines and eights split into an 18-digit and a 2-digit block,
    // and the record still reproduces exactly
    let input = b"99999999999999999988";
    let (_, _, blocks) = retrave_blocks(input);
    assert_eq!(blocks.len(), 2);
    assert_eq!(
        blocks[0],
        Block::Numerical(
            0,
            18,
            NumericalBlock {
                base: 999_999_999_999_999_999,
                negative: false,
                decimal_places: 0
            }
        )
    );
    assert_eq!(
        blocks[1],
        Block::Numerical(
            18,
            2,
            NumericalBlock { base: 88, negative: false, decimal_places: 0 }
        )
    );
    round_trips(input);
    // each half round-trips on its own too
    round_trips(b"999999999999999999");
    round_trips(b"88");
}

#[test]
fn oversized_fraction_round_trips_verbatim() {
    // sixteen fractional digits exceed the four-bit field; the assembler
    // copies the span instead of encoding it
    round_trips(b"99.999999999999999988");
    round_trips(b"0.00000000000000000001");
}
