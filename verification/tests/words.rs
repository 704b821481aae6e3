use wordle_codec::words::is_utf8_text;
use wordle_codec::words::{
    contains_word, create_answers_bitmap, join_lines, lex_less, radix_trie_encode, sort_word_list, sort_words,
    split_lines, trim_line, words_of_text,
};

fn v(s: &str) -> Vec<u8> {
    s.as_bytes().to_vec()
}

fn list(s: &str) -> Vec<Vec<u8>> {
    s.split(' ').map(|w| w.as_bytes().to_vec()).collect()
}

#[test]
fn trim_matches_str_trim() {
    for s in ["  abc \t", "abc", "", "   ", "\r\nabc\r\n", "a b", "\u{a0}abc\u{2003}", "\u{3000}x\u{85}", "\u{205f}\u{1680}"] {
        assert_eq!(trim_line(&v(s)), v(s.trim()), "{:?}", s);
    }
}

#[test]
fn trim_keeps_other_multibyte_characters() {
    for s in ["é", " é ", "\u{2030}x\u{200b}", "\u{2029}y"] {
        assert_eq!(trim_line(&v(s)), v(s.trim()), "{:?}", s);
    }
}

#[test]
fn split_lines_matches_str_split() {
    for s in ["a\nb\n", "a\nb", "", "\n", "\n\n", "abc"] {
        let got = split_lines(&v(s));
        let want: Vec<Vec<u8>> = s.split('\n').map(|p| p.as_bytes().to_vec()).collect();
        assert_eq!(got, want, "{:?}", s);
    }
}

#[test]
fn words_of_a_text_are_its_trimmed_lines() {
    assert_eq!(
        words_of_text(&v("abbey\r\n aahed \nzonal\n")),
        vec![v("abbey"), v("aahed"), v("zonal"), v("")]
    );
}

#[test]
fn lexicographic_order_is_byte_order() {
    assert!(lex_less(&v("abc"), &v("abd")));
    assert!(!lex_less(&v("abd"), &v("abc")));
    assert!(lex_less(&v("ab"), &v("abc")));
    assert!(!lex_less(&v("abc"), &v("ab")));
    assert!(!lex_less(&v("abc"), &v("abc")));
    assert!(lex_less(&v(""), &v("a")));
    assert!(!lex_less(&v(""), &v("")));
    assert!(lex_less(&v("Z"), &v("a")));
}

#[test]
fn sorting_a_list() {
    let ws = list("zonal abbey aahed abbey abb aahed");
    let mut want = ws.clone();
    want.sort();
    assert_eq!(sort_word_list(&ws), want);
    assert_eq!(sort_word_list(&Vec::new()), Vec::<Vec<u8>>::new());
}

#[test]
fn sort_words_writes_the_sorted_lines() {
    let text = v("zonal\nabbey\n aahed\n");
    // the empty last line sorts first
    assert_eq!(sort_words(&text), v("\naahed\nabbey\nzonal\n"));
    assert_eq!(sort_words(&v("")), v("\n"));
}

#[test]
fn joining_a_list() {
    assert_eq!(join_lines(&list("ab cd")), v("ab\ncd\n"));
    assert_eq!(join_lines(&Vec::new()), Vec::<u8>::new());
}

#[test]
fn membership_of_a_word() {
    let ws = list("aahed abbey zonal");
    assert!(contains_word(&ws, &v("abbey")));
    assert!(!contains_word(&ws, &v("abbe")));
    assert!(!contains_word(&ws, &v("abbeys")));
    assert!(!contains_word(&Vec::new(), &v("abbey")));
}

#[test]
fn answer_bitmap_and_longest_gap() {
    let ws = list("aahed aalii aargh aarti abaca abaci abbab abbas abbed abbes abbey abbot abeam abele abets abhor abide abler ables abode");
    let answers = list("abaci abbey aargh abode");
    let (bytes, longest) = create_answers_bitmap(&ws, &answers);
    // word 2 and word 5 in the first byte, word 10 in the second; the last
    // four words do not fill a byte
    assert_eq!(bytes, vec![0b0010_0100, 0b0000_0100]);
    assert_eq!(longest, 4);
}

#[test]
fn answer_bitmap_edge_cases() {
    let (bytes, longest) = create_answers_bitmap(&list("a b c d e f g"), &list("a"));
    assert_eq!(bytes, Vec::<u8>::new());
    assert_eq!(longest, 0);
    // a run that no answer closes is not counted
    let (bytes, longest) = create_answers_bitmap(&list("a b c d e f g h"), &list("a"));
    assert_eq!(bytes, vec![1]);
    assert_eq!(longest, 0);
    let (bytes, longest) = create_answers_bitmap(&list("x b c d e f g a"), &list("a"));
    assert_eq!(bytes, vec![0b1000_0000]);
    assert_eq!(longest, 7);
}

#[test]
fn prefix_trie_code() {
    let ws = list("aahed aalii aargh aarti abaca abaci abbab");
    assert_eq!(radix_trie_encode(&ws), v("ed}lii}rghti}}bacaci}bab"));
    assert_eq!(radix_trie_encode(&list("aahed aahzz")), v("edzz"));
    assert_eq!(radix_trie_encode(&list("bbbbb")), v("}}}bbbbb"));
    assert_eq!(radix_trie_encode(&Vec::new()), Vec::<u8>::new());
}

#[test]
fn a_sorted_file_reads_back_as_the_sorted_words() {
    let text = v(" zonal\nabbey \r\naahed\nabbey");
    let back = words_of_text(&sort_words(&text));
    assert_eq!(back, vec![v("aahed"), v("abbey"), v("abbey"), v("zonal"), v("")]);
    let mut want = words_of_text(&text);
    want.sort();
    want.push(Vec::new());
    assert_eq!(back, want);
}

#[test]
fn utf8_check_agrees_with_std() {
    let cases: Vec<Vec<u8>> = vec![
        vec![],
        b"abbey\n".to_vec(),
        "é\u{2003}\u{10ffff}\u{ffff}\u{e000}".as_bytes().to_vec(),
        vec![0xff],
        vec![0xc0, 0x80],
        vec![0xc1, 0xbf],
        vec![0xc2],
        vec![0xe0, 0x80, 0x80],
        vec![0xe0, 0xa0, 0x80],
        vec![0xed, 0xa0, 0x80],
        vec![0xed, 0x9f, 0xbf],
        vec![0xf0, 0x8f, 0xbf, 0xbf],
        vec![0xf0, 0x90, 0x80, 0x80],
        vec![0xf4, 0x90, 0x80, 0x80],
        vec![0xf4, 0x8f, 0xbf, 0xbf],
        vec![0xf5, 0x80, 0x80, 0x80],
        vec![0x61, 0x80],
        vec![0xe2, 0x80],
    ];
    for c in cases {
        assert_eq!(is_utf8_text(&c), std::str::from_utf8(&c).is_ok(), "{:?}", c);
    }
}

/// Reads a prefix-trie code back: `r` leading markers, then `2 + r` letters
/// that replace the last `r` letters of the previous prefix.
fn trie_decode(code: &[u8]) -> Vec<Vec<u8>> {
    let mut p = b"aah".to_vec();
    let mut out = Vec::new();
    let mut i = 0;
    while i < code.len() {
        let mut r = 0;
        while r < 3 && code[i + r] == b'}' {
            r += 1;
        }
        let mut w = p[..3 - r].to_vec();
        w.extend_from_slice(&code[i + r..i + 2 * r + 2]);
        p = w[..3].to_vec();
        out.push(w);
        i += 2 * r + 2;
    }
    out
}

#[test]
fn prefix_trie_code_reads_back() {
    for s in [
        "aahed aalii aargh aarti abaca abaci abbab abbas abbed abbes abbey abbot abeam abele abets abhor abide abler ables abode",
        "aahed aahzz bbbbb bbbbc zzzzz",
        "zonal",
    ] {
        let ws = list(s);
        assert_eq!(trie_decode(&radix_trie_encode(&ws)), ws);
    }
}
