use wordle_codec::indexing::{countable_prefix, index_count_words, words_countable, Walker};

fn words(s: &str) -> Vec<Vec<u8>> {
    s.split(' ').map(|w| w.as_bytes().to_vec()).collect()
}

#[test]
fn index_count_code_of_a_sorted_list() {
    let ws = words("aahed aalii aargh aarti abaca abaci abbab abbas abbed abbes abbey abbot abeam abele abets abhor abide abler ables abode");
    assert!(words_countable(&ws));
    assert_eq!(
        index_count_words(&ws),
        vec![
            101, 100, 125, 125, 125, 125, 105, 105, 125, 125, 125, 125, 125, 125, 103, 104, 116, 105, 124, 99, 97,
            99, 105, 125, 97, 98, 97, 115, 101, 100, 101, 115, 101, 121, 111, 116, 125, 125, 125, 97, 109, 108,
            101, 116, 115, 125, 125, 125, 111, 114, 125, 100, 101, 125, 125, 125, 101, 114, 101, 115, 125, 125,
            125, 100, 101
        ]
    );
}

#[test]
fn a_moving_counter_restarts_the_later_ones() {
    // "b" moves the first counter once (the second and third restart at 'a');
    // then the third counts up to 'c'
    let ws = words("bacde");
    assert_eq!(index_count_words(&ws), vec![b'{', b'}', b'}', b'd', b'e']);
    let ws = words("aahaa aahzz");
    assert_eq!(index_count_words(&ws), vec![b'a', b'a', b'z', b'z']);
    let ws: Vec<Vec<u8>> = Vec::new();
    assert!(words_countable(&ws));
    assert_eq!(index_count_words(&ws), Vec::<u8>::new());
}

#[test]
fn lists_the_index_count_coder_refuses() {
    assert!(!words_countable(&words("aaaaa")));
    assert!(!words_countable(&words("abcde abbde")));
    assert!(!words_countable(&words("abcd")));
    assert!(words_countable(&words("abcde abcde")));
}

#[test]
fn walker_reads_markers_and_words() {
    let w = Walker::new();
    assert_eq!((w.zero, w.one, w.two, w.count, w.awaiting), (b'a', b'a', b'h', 0, false));
    let (w, done) = w.step(b'e').unwrap();
    assert_eq!(done, None);
    assert!(w.awaiting);
    let (w, done) = w.step(b'd').unwrap();
    assert_eq!(done, Some(*b"aahed"));
    assert_eq!(w.count, 1);
    let (w, _) = w.step(b'}').unwrap();
    assert_eq!(w.two, b'i');
    let (w, _) = w.step(b'|').unwrap();
    assert_eq!((w.one, w.two), (b'b', b'a'));
    let (w, _) = w.step(b'{').unwrap();
    assert_eq!((w.zero, w.one, w.two), (b'b', b'a', b'a'));
    let (w, _) = w.step(b'x').unwrap();
    let (w, done) = w.step(b'}').unwrap();
    // an awaited fifth letter is a letter even when it is a marker byte
    assert_eq!(done, Some(*b"baax}"));
    assert_eq!(w.count, 2);
}

#[test]
fn walker_refuses_overflowing_counters() {
    let w = Walker { zero: 255, one: 97, two: 97, pending: 0, awaiting: false, count: 0 };
    assert!(w.step(b'{').is_none());
    assert!(w.step(b'|').is_some());
    let w = Walker { zero: 97, one: 97, two: 255, pending: 0, awaiting: false, count: 0 };
    assert!(w.step(b'}').is_none());
    let w = Walker { zero: 97, one: 97, two: 97, pending: 1, awaiting: true, count: usize::MAX };
    assert!(w.step(b'a').is_none());
}

#[test]
fn the_walker_reads_the_index_count_code_back() {
    let ws = words("aahed aalii aargh aarti abaca abaci abbab abbas abbed abbes abbey abbot abeam abele abets abhor abide abler ables abode");
    let code = index_count_words(&ws);
    let mut w = Walker::new();
    let mut back = Vec::new();
    for &c in &code {
        let (w2, done) = w.step(c).unwrap();
        if let Some(word) = done {
            back.push(word.to_vec());
        }
        w = w2;
    }
    assert_eq!(back, ws);
    assert_eq!(w.count, ws.len());
    assert!(!w.awaiting);
}

#[test]
fn countable_prefix_stops_before_the_first_bad_word() {
    assert_eq!(countable_prefix(&words("aahed abbey zonal")), 3);
    assert_eq!(countable_prefix(&words("aahed abbey aargh zonal")), 2);
    assert_eq!(countable_prefix(&words("aahed abc zonal")), 1);
    assert_eq!(countable_prefix(&words("aaaaa")), 0);
    assert_eq!(countable_prefix(&Vec::new()), 0);
}
