use zsan_codec::zsan_parser::retrave_blocks;
use zsan_codec::zsan_parser::Block;
use zsan_codec::zsan_parser::NumericalBlock;

#[test]
fn split_large() {
    let (has_negative, has_decimal, out) = retrave_blocks("99999999999999999988".as_bytes());
    assert_eq!(has_negative, false);
    assert_eq!(has_decimal, false);
    assert_eq!(
        out,
        vec![
            Block::Numerical(
                0,
                18,
                NumericalBlock {
                    base: 999_999_999_999_999_999,
                    negative: false,
                    decimal_places: 0
                }
            ),
            Block::Numerical(
                18,
                2,
                NumericalBlock {
                    base: 88,
                    negative: false,
                    decimal_places: 0
                }
            ),
        ]
    );
}

#[test]
fn split_decimal() {
    let (has_negative, has_decimal, out) = retrave_blocks("99.999999999999999988".as_bytes());
    assert_eq!(has_negative, false);
    assert_eq!(has_decimal, true);
    assert_eq!(
        out,
        vec![
            Block::Numerical(
                0,
                19,
                NumericalBlock {
                    base: 999_999_999_999_999_999,
                    negative: false,
                    decimal_places: 16
                }
            ),
            Block::Numerical(
                19,
                2,
                NumericalBlock {
                    base: 88,
                    negative: false,
                    decimal_places: 0
                }
            ),
        ]
    );
}

#[test]
fn mix() {
    let input = "  -12.050  007.8  +3.00  0.0  abc   ";
    let (has_negative, has_decimal, out) = retrave_blocks(input.as_bytes());
    assert_eq!(has_negative, true);
    assert_eq!(has_decimal, true);
    assert_eq!(
        out,
        vec![
            Block::Space(0, 2),
            Block::Numerical(
                2,
                7,
                NumericalBlock {
                    base: 12050,
                    negative: true,
                    decimal_places: 3
                }
            ),
            Block::Space(9, 2),
            Block::Numerical(
                13,
                3,
                NumericalBlock {
                    base: 78,
                    negative: false,
                    decimal_places: 1
                }
            ),
            Block::Space(16, 2),
            Block::Numerical(
                19,
                4,
                NumericalBlock {
                    base: 300,
                    negative: false,
                    decimal_places: 2
                }
            ),
            Block::Space(23, 2),
            Block::Numerical(
                25,
                3,
                NumericalBlock {
                    base: 0,
                    negative: false,
                    decimal_places: 1
                }
            ),
            Block::Space(28, 2),
            Block::Space(33, 3),
        ]
    );
}

#[test]
fn bare_zero_stays_literal() {
    // "0" without a following point never becomes a block
    let (has_negative, has_decimal, out) = retrave_blocks(b"0");
    assert_eq!(has_negative, false);
    assert_eq!(has_decimal, false);
    assert_eq!(out, vec![]);
}

#[test]
fn leading_zeros_stay_literal() {
    // only the "7.8" span is a block; both zeros are literal bytes
    let (_, _, out) = retrave_blocks(b"007.8");
    assert_eq!(
        out,
        vec![Block::Numerical(
            2,
            3,
            NumericalBlock {
                base: 78,
                negative: false,
                decimal_places: 1
            }
        )]
    );
}

#[test]
fn lone_minus_is_not_numeric() {
    let (has_negative, _, out) = retrave_blocks(b"-x5");
    assert_eq!(has_negative, false);
    assert_eq!(
        out,
        vec![Block::Numerical(
            2,
            1,
            NumericalBlock {
                base: 5,
                negative: false,
                decimal_places: 0
            }
        )]
    );
}
