use zsan_codec::all_ascii::space::compress_space;
use zsan_codec::all_ascii::space::decompress_space;

#[test]
fn test_space() {
    let x = " ".repeat(65);

    let mut out = Vec::new();
    compress_space(x.len(), &mut out);
    assert_eq!(out, vec![0b_1011_1111, 0b_1000_0010]);

    let mut final_out = Vec::new();
    for i in out {
        println!("out: {:08b}", i);
        decompress_space(i, &mut final_out);
    }

    assert_eq!(final_out, x.as_bytes());
}

#[test]
fn space_boundary_sixty_three() {
    // exactly 63 spaces fit one tagged byte
    let mut out = Vec::new();
    compress_space(63, &mut out);
    assert_eq!(out, vec![0b_1011_1111]);
}

#[test]
fn space_boundary_sixty_four() {
    // 64 spaces split into a full chunk of 63 and a chunk of 1
    let mut out = Vec::new();
    compress_space(64, &mut out);
    assert_eq!(out, vec![0b_1011_1111, 0b_1000_0001]);
}

#[test]
fn space_single_stays_literal() {
    // one space is cheapest as the literal space byte, never a tagged byte
    let mut out = Vec::new();
    compress_space(1, &mut out);
    assert_eq!(out, vec![b' ']);
}

#[test]
fn space_zero_emits_nothing() {
    let mut out = Vec::new();
    compress_space(0, &mut out);
    assert!(out.is_empty());
}

#[test]
fn space_decode_returns_count() {
    let mut out = Vec::new();
    let n = decompress_space(0b_1010_0000, &mut out);
    assert_eq!(n, 32);
    assert_eq!(out, vec![b' '; 32]);
}
