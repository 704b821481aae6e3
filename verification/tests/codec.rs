use wordle_codec::decoder::{decode_query, parse_query, Answer, DecoderTables, Query};
use wordle_codec::roundtrip::{build_decoder_tables, can_build_decoder_tables, letters_below_markers};

fn sample_words() -> Vec<Vec<u8>> {
    "aahed aalii aargh aarti abaca abaci abbab abbas abbed abbes abbey abbot abeam abele abets abhor abide abler ables abode"
        .split(' ')
        .map(|w| w.as_bytes().to_vec())
        .collect()
}

fn word_query(w: &[u8]) -> Query {
    Query::Word(w[0], w[1], w[2], w[3], w[4])
}

#[test]
fn built_tables_match_reference_bytes() {
    let words = sample_words();
    assert!(can_build_decoder_tables(&words));
    let t = build_decoder_tables(&words);
    assert_eq!(
        t.blob,
        vec![74, 128, 42, 115, 159, 41, 195, 134, 45, 98, 69, 43, 213, 250, 110, 128, 120, 87, 211, 128, 243, 164, 0, 121, 53, 144, 2]
    );
    assert_eq!(t.matches, vec![0, 0]);
    assert_eq!(
        t.tree,
        vec![22, 2, 16, 4, 12, 6, 10, 8, -109, -121, -104, -108, -116, 14, -98, -103, 20, 18, -105, -115, -97, -100, -125, 24, -101, 26, 30, 28, -111, -114, 32, -99, -124, -126]
    );
    assert_eq!(t.word_count, 20);
}

#[test]
fn every_listed_word_is_valid() {
    let words = sample_words();
    let t = build_decoder_tables(&words);
    for w in &words {
        assert_eq!(decode_query(&t, word_query(w)), Answer::Valid);
    }
}

#[test]
fn every_index_gives_its_word() {
    let words = sample_words();
    let t = build_decoder_tables(&words);
    for (i, w) in words.iter().enumerate() {
        assert_eq!(decode_query(&t, Query::Index(i)), Answer::Word(w[0], w[1], w[2], w[3], w[4]));
    }
}

#[test]
fn absent_words_and_indices_past_the_end_are_invalid() {
    let words = sample_words();
    let t = build_decoder_tables(&words);
    for w in [b"zzzzz", b"aahea", b"abbez", b"aaaaa", b"abodf"] {
        assert_eq!(decode_query(&t, word_query(w)), Answer::Invalid);
    }
    assert_eq!(decode_query(&t, Query::Index(20)), Answer::Invalid);
    assert_eq!(decode_query(&t, Query::Index(21)), Answer::Invalid);
    assert_eq!(decode_query(&t, Query::Index(4000)), Answer::Invalid);
}

#[test]
fn single_word_list_round_trips() {
    let words = vec![b"abbey".to_vec(), b"abbot".to_vec()];
    assert!(can_build_decoder_tables(&words));
    let t = build_decoder_tables(&words);
    assert_eq!(decode_query(&t, Query::Word(b'a', b'b', b'b', b'e', b'y')), Answer::Valid);
    assert_eq!(decode_query(&t, Query::Word(b'a', b'b', b'b', b'o', b't')), Answer::Valid);
    assert_eq!(decode_query(&t, Query::Word(b'a', b'b', b'b', b'o', b'x')), Answer::Invalid);
    assert_eq!(decode_query(&t, Query::Index(1)), Answer::Word(b'a', b'b', b'b', b'o', b't'));
    assert_eq!(decode_query(&t, Query::Index(2)), Answer::Invalid);
}

#[test]
fn lists_the_coder_refuses() {
    let empty: Vec<Vec<u8>> = Vec::new();
    assert!(!can_build_decoder_tables(&empty));
    // a word shorter than five letters
    assert!(!can_build_decoder_tables(&vec![b"abbey".to_vec(), b"abb".to_vec()]));
    // the second word's first letters lie below the counters (not sorted)
    assert!(!can_build_decoder_tables(&vec![b"abbey".to_vec(), b"aahed".to_vec()]));
    // a prefix below the starting counters "aah"
    assert!(!can_build_decoder_tables(&vec![b"aaaaa".to_vec()]));
    // a fourth letter that is a marker byte
    assert!(!can_build_decoder_tables(&vec![b"abb}y".to_vec(), b"abbot".to_vec()]));
    // one word only: the LZSS stream has a single symbol, no Huffman branch
    assert!(!can_build_decoder_tables(&vec![b"aahhh".to_vec()]));
}

#[test]
fn letters_below_markers_checks_fourth_and_fifth_letters() {
    assert!(letters_below_markers(&vec![b"abcde".to_vec(), b"zzzz}".to_vec()]));
    assert!(!letters_below_markers(&vec![b"abc{e".to_vec()]));
    assert!(!letters_below_markers(&vec![b"abcd~".to_vec()]));
    assert!(!letters_below_markers(&vec![vec![97, 98, 99, 0, 101]]));
}

#[test]
fn parse_query_reads_words_and_octal_indices() {
    assert_eq!(parse_query(&b"abbey".to_vec()), Query::Word(b'a', b'b', b'b', b'e', b'y'));
    assert_eq!(parse_query(&b"abbeys".to_vec()), Query::Word(b'a', b'b', b'b', b'e', b'y'));
    assert_eq!(parse_query(&b"00000".to_vec()), Query::Index(0));
    assert_eq!(parse_query(&b"00017".to_vec()), Query::Index(15));
    assert_eq!(parse_query(&b"12345".to_vec()), Query::Index(0o12345));
    assert_eq!(parse_query(&b"31263".to_vec()), Query::Index(12979));
    // digits past 7 overlap the next digit's bits
    assert_eq!(parse_query(&b"00009".to_vec()), Query::Index(9));
    assert_eq!(parse_query(&b"00090".to_vec()), Query::Index(72));
}

#[test]
fn garbage_tables_are_malformed() {
    // a table whose root entry points past its end
    let t = DecoderTables { blob: vec![0, 0], matches: vec![], tree: vec![5, 6], word_count: 10 };
    assert_eq!(decode_query(&t, Query::Index(0)), Answer::Malformed);
    // codes run past the stream
    let t = DecoderTables { blob: vec![], matches: vec![], tree: vec![-97, -98], word_count: 10 };
    assert_eq!(decode_query(&t, Query::Index(0)), Answer::Malformed);
    // no words at all: the list is exhausted before anything is read
    let t = DecoderTables { blob: vec![], matches: vec![], tree: vec![], word_count: 0 };
    assert_eq!(decode_query(&t, Query::Index(0)), Answer::Invalid);
}
