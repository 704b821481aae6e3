use wordle_codec::arith::{arithmetic_compression, arithmetic_fits};

#[test]
fn arithmetic_code_of_a_repetitive_text() {
    let src = b"abracadabra abracadabra abracadabra".to_vec();
    assert!(arithmetic_fits(&src));
    let (bytes, n) = arithmetic_compression(&src);
    assert_eq!(bytes, vec![42, 197, 175, 223, 185, 39, 33, 192, 141, 113]);
    assert_eq!(n, 10);
}

#[test]
fn arithmetic_code_of_short_texts() {
    assert_eq!(arithmetic_compression(&b"ab".to_vec()), (vec![6], 1));
    assert_eq!(arithmetic_compression(&b"hello world".to_vec()), (vec![210, 132, 101, 69], 4));
    // one symbol: the interval never narrows, only the final bit is set, and
    // it lies in the first byte, which the cut leaves out
    assert_eq!(arithmetic_compression(&b"a".to_vec()), (vec![], 0));
    assert_eq!(arithmetic_compression(&b"aaaa".to_vec()), (vec![], 0));
}

#[test]
fn arithmetic_code_of_an_index_count_stream() {
    let src = vec![
        101, 100, 125, 125, 125, 125, 105, 105, 125, 125, 125, 125, 125, 125, 103, 104, 116, 105, 124, 99, 97, 99,
        105, 125, 97, 98, 97, 115, 101, 100, 101, 115, 101, 121, 111, 116, 125, 125, 125, 97, 109, 108, 101, 116,
        115, 125, 125, 125, 111, 114, 125, 100, 101, 125, 125, 125, 101, 114, 101, 115, 125, 125, 125, 100, 101,
    ];
    let (bytes, n) = arithmetic_compression(&src);
    assert_eq!(
        bytes,
        vec![140, 210, 221, 211, 88, 114, 135, 118, 118, 136, 129, 190, 106, 137, 183, 57, 163, 11, 68, 10, 188, 13, 216, 208, 234, 180, 6]
    );
    assert_eq!(n, 27);
}

#[test]
fn streams_the_arithmetic_coder_refuses() {
    // no byte at all: the final bit has nowhere to go
    assert!(!arithmetic_fits(&Vec::new()));
    // the byte 255 has no frequency slot above it
    assert!(!arithmetic_fits(&vec![1, 255, 3]));
    assert!(arithmetic_fits(&vec![1, 254, 3]));
}

#[test]
fn long_inputs_pass_the_interval_checks() {
    let mut src = Vec::new();
    let mut x: u32 = 12345;
    for _ in 0..200_000 {
        x = x.wrapping_mul(1103515245).wrapping_add(12345);
        src.push(b'a' + ((x >> 16) % 26) as u8);
    }
    assert!(arithmetic_fits(&src));
    let (bytes, n) = arithmetic_compression(&src);
    assert_eq!(bytes.len(), n);
    assert!(n < src.len());
}
