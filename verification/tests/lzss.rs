use wordle_codec::lzss::{lzss, lzss_encode, lzss_sep_matches, LzssParams, LzssToken};
use wordle_codec::lzss::LzssToken::{Copy as C, Literal as L};

#[test]
fn plain_lzss_tokens_of_a_repetitive_text() {
    let src = b"abracadabra abracadabra abracadabra".to_vec();
    let p = LzssParams { window_len: 1024, match_min: 4, match_max: 11, fill: b'2' };
    let ts = lzss_encode(&src, p);
    assert_eq!(
        ts,
        vec![
            L(97), L(98), L(114), L(97), L(99), L(97), L(100), C(1017, 4), L(32), C(1019, 4), L(99),
            L(97), L(100), C(1005, 4), L(32), C(1007, 4), L(99), L(97), L(100), L(97), L(98), L(114),
            L(97)
        ]
    );
}

#[test]
fn plain_lzss_output() {
    let out = lzss(&b"abracadabra abracadabra abracadabra".to_vec());
    assert_eq!(
        out.encoded,
        vec![97, 98, 114, 97, 99, 97, 100, 126, 32, 126, 99, 97, 100, 126, 32, 126, 99, 97, 100, 97, 98, 114, 97]
    );
    assert_eq!(out.matches, vec![(1017, 4), (1019, 4), (1005, 4), (1007, 4)]);
    assert_eq!(out.packed, vec![254, 255, 255, 254, 255, 255, 240]);
}

#[test]
fn plain_lzss_matches_the_filled_window() {
    let out = lzss(&b"2222abcdabcdabcdabcd2222xyzxyzxyzxyz".to_vec());
    assert_eq!(
        out.encoded,
        vec![126, 97, 98, 99, 100, 97, 98, 99, 100, 97, 126, 126, 120, 121, 122, 120, 121, 122, 120, 121, 122, 120, 121, 122]
    );
    assert_eq!(out.matches, vec![(0, 4), (1016, 7), (0, 4)]);
    assert_eq!(out.packed, vec![0, 7, 7, 0, 0]);
}

#[test]
fn word_list_lzss_of_an_index_count_stream() {
    let src = vec![
        101, 100, 125, 125, 125, 125, 105, 105, 125, 125, 125, 125, 125, 125, 103, 104, 116, 105, 124, 99, 97, 99,
        105, 125, 97, 98, 97, 115, 101, 100, 101, 115, 101, 121, 111, 116, 125, 125, 125, 97, 109, 108, 101, 116,
        115, 125, 125, 125, 111, 114, 125, 100, 101, 125, 125, 125, 101, 114, 101, 115, 125, 125, 125, 100, 101,
    ];
    let out = lzss_sep_matches(&src);
    assert_eq!(
        out.encoded,
        vec![
            101, 100, 125, 125, 125, 125, 105, 105, 126, 103, 104, 116, 105, 124, 99, 97, 99, 105, 125, 97, 98, 97,
            115, 101, 100, 101, 115, 101, 121, 111, 116, 125, 125, 125, 97, 109, 108, 101, 116, 115, 125, 125, 125,
            111, 114, 125, 100, 101, 125, 125, 125, 101, 114, 101, 115, 125, 125, 125, 100, 101
        ]
    );
    assert_eq!(out.matches, vec![(0, 0)]);
    assert_eq!(out.packed, vec![0, 0]);
}

#[test]
fn a_match_that_runs_to_the_end_of_the_lookahead_counts_as_none() {
    let mut src = vec![b'}'; 30];
    src.extend_from_slice(b"ab");
    let out = lzss_sep_matches(&src);
    let mut expected = vec![125u8; 18];
    expected.extend_from_slice(&[126, 97, 98]);
    assert_eq!(out.encoded, expected);
    assert_eq!(out.matches, vec![(0, 6)]);
    assert_eq!(out.packed, vec![0, 48]);
}

#[test]
fn word_list_lzss_reference_inside_the_input() {
    let out = lzss_sep_matches(&b"xyzxyzxyzxyzxyzxyzq".to_vec());
    assert_eq!(out.encoded, vec![120, 121, 122, 120, 121, 122, 120, 121, 122, 120, 126, 113]);
    assert_eq!(out.matches, vec![(2039, 2)]);
    assert_eq!(out.packed, vec![247, 23]);
}

#[test]
fn single_byte_is_a_literal() {
    let out = lzss_sep_matches(&vec![b'a']);
    assert_eq!(out.encoded, vec![b'a']);
    assert!(out.matches.is_empty());
    assert!(out.packed.is_empty());
}

/// Replays an encoded stream over a window of `fill` bytes.
fn expand(encoded: &[u8], matches: &[(usize, usize)], window: usize, fill: u8, base: usize) -> Vec<u8> {
    let mut hist = vec![fill; window];
    let mut next = 0;
    for &b in encoded {
        if b == 126 {
            let (off, len) = matches[next];
            next += 1;
            for _ in 0..len + base {
                let c = hist[hist.len() - window + off];
                hist.push(c);
            }
        } else {
            hist.push(b);
        }
    }
    hist.split_off(window)
}

#[test]
fn decoding_the_word_list_lzss_gives_the_input_back() {
    for s in [
        b"xyzxyzxyzxyzxyzxyzq".to_vec(),
        b"}}}}}}}}}}}}}}}}}}}}}}}}}}}}}}ab".to_vec(),
        b"abcdefghabcdefghabcdefgh}}}}}}}abcdefgh".to_vec(),
        b"a".to_vec(),
    ] {
        let out = lzss_sep_matches(&s);
        assert_eq!(expand(&out.encoded, &out.matches, 2048, b'}', 6), s);
    }
}

#[test]
fn decoding_the_plain_lzss_gives_the_input_back() {
    for s in [b"abracadabra abracadabra abracadabra".to_vec(), b"2222abcdabcdabcdabcd2222xyzxyzxyzxyz".to_vec()] {
        let out = lzss(&s);
        assert_eq!(expand(&out.encoded, &out.matches, 1024, b'2', 0), s);
    }
}

#[test]
fn the_packed_match_list_reads_back() {
    use_read_back(&b"abcdefghabcdefghabcdefgh}}}}}}}abcdefgh".to_vec());
    use_read_back(&b"xyzxyzxyzxyzxyzxyzq".to_vec());
}

fn use_read_back(s: &Vec<u8>) {
    let out = lzss_sep_matches(s);
    assert!(!out.matches.is_empty());
    for (j, &(off, len)) in out.matches.iter().enumerate() {
        assert_eq!(wordle_codec::bits::read_bits(&out.packed, 14 * j, 11) as usize, off);
        assert_eq!(wordle_codec::bits::read_bits(&out.packed, 14 * j + 11, 3) as usize, len);
    }
}
