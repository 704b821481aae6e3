use wordle_codec::huffman::{
    can_huffman_encode, decode_symbol, huffman_codes, huffman_encode, huffman_fits, huffman_height,
    huffman_pack, huffman_table, huffman_tree, initial_pairs, merge_pairs, symbol_counts, Node,
};

fn leaf(v: u8) -> Box<Node> {
    Box::new(Node::Leaf(v))
}

fn branch(a: Box<Node>, b: Box<Node>) -> Box<Node> {
    Box::new(Node::Branch((a, b)))
}

fn abracadabra_tree() -> Node {
    Node::Branch((branch(branch(leaf(b'b'), leaf(b'r')), branch(leaf(b'c'), leaf(b'd'))), leaf(b'a')))
}

#[test]
fn counts_of_each_byte() {
    let c = symbol_counts(&b"abracadabra".to_vec());
    assert_eq!(c.len(), 256);
    assert_eq!(c[b'a' as usize], 5);
    assert_eq!(c[b'b' as usize], 2);
    assert_eq!(c[b'r' as usize], 2);
    assert_eq!(c[b'c' as usize], 1);
    assert_eq!(c[b'd' as usize], 1);
    assert_eq!(c.iter().sum::<usize>(), 11);
}

#[test]
fn leaves_ordered_by_count_then_symbol() {
    let c = symbol_counts(&b"abracadabra".to_vec());
    let l = initial_pairs(&c);
    let got: Vec<(u8, usize)> = l
        .iter()
        .map(|(n, c)| match n {
            Node::Leaf(v) => (*v, *c),
            _ => panic!("a branch among the leaves"),
        })
        .collect();
    assert_eq!(got, vec![(b'a', 5), (b'b', 2), (b'r', 2), (b'c', 1), (b'd', 1)]);
    let merged = merge_pairs(l);
    assert_eq!(merged.len(), 1);
    assert_eq!(merged[0].1, 11);
    assert_eq!(merged[0].0, abracadabra_tree());
}

#[test]
fn tree_codes_table_and_packing() {
    let src = b"abracadabra".to_vec();
    let t = huffman_tree(&src);
    assert_eq!(t, abracadabra_tree());
    assert_eq!(huffman_height(&t), 3);
    let codes = huffman_codes(&t);
    assert_eq!(codes.len(), 256);
    assert_eq!(codes[b'a' as usize], Some((1, 1)));
    assert_eq!(codes[b'b' as usize], Some((0, 3)));
    assert_eq!(codes[b'r' as usize], Some((4, 3)));
    assert_eq!(codes[b'c' as usize], Some((2, 3)));
    assert_eq!(codes[b'd' as usize], Some((6, 3)));
    assert_eq!(codes[b'z' as usize], None);
    assert!(huffman_fits(&src, &codes));
    assert!(!huffman_fits(&b"abz".to_vec(), &codes));
    let (packed, bits) = huffman_pack(&src, &codes);
    assert_eq!(packed, vec![193, 234, 96]);
    assert_eq!(bits, 23);
    let table = huffman_table(&t);
    assert_eq!(table, vec![2, -97, 6, 4, -99, -100, -98, -114]);
}

#[test]
fn decoding_the_packed_stream_gives_the_source_back() {
    let src = b"abracadabra".to_vec();
    let out = huffman_encode(&src);
    assert_eq!(out.tree, abracadabra_tree());
    assert_eq!(out.table, vec![2, -97, 6, 4, -99, -100, -98, -114]);
    assert_eq!(out.packed, vec![193, 234, 96]);
    assert_eq!(out.bits, 23);
    let mut bit = 0;
    let mut back = Vec::new();
    while bit < out.bits {
        let (v, next) = decode_symbol(&out.table, &out.packed, bit).unwrap();
        back.push(v);
        bit = next;
    }
    assert_eq!(bit, out.bits);
    assert_eq!(back, src);
}

#[test]
fn decode_symbol_fails_past_the_stream_or_the_table() {
    let table = vec![2, -97, 6, 4, -99, -100, -98, -114];
    assert_eq!(decode_symbol(&table, &vec![0b1], 0), Some((b'a', 1)));
    assert_eq!(decode_symbol(&table, &vec![0b0], 0), Some((b'b', 3)));
    assert_eq!(decode_symbol(&table, &vec![0b0], 7), None);
    assert_eq!(decode_symbol(&vec![5, 6], &vec![0], 0), None);
    assert_eq!(decode_symbol(&vec![-128, -128], &vec![0], 0), None);
}

#[test]
fn streams_the_coder_refuses() {
    assert!(can_huffman_encode(&b"ab".to_vec()));
    assert!(can_huffman_encode(&b"abracadabra".to_vec()));
    assert!(!can_huffman_encode(&Vec::new()));
    assert!(!can_huffman_encode(&b"aaaa".to_vec()));
    assert!(!can_huffman_encode(&vec![b'a', 128, b'b']));
}

#[test]
fn two_symbols_take_one_bit_each() {
    let out = huffman_encode(&b"abba".to_vec());
    assert_eq!(out.tree, Node::Branch((leaf(b'a'), leaf(b'b'))));
    assert_eq!(out.table, vec![-97, -98]);
    assert_eq!(out.packed, vec![0b0110]);
    assert_eq!(out.bits, 4);
}

#[test]
fn decoding_a_larger_stream_symbol_by_symbol() {
    for m in [57u32, 64] {
        decode_stream_of(m);
    }
}

fn decode_stream_of(m: u32) {
    let mut src = Vec::new();
    for i in 0..5000u32 {
        src.push(1 + ((i * i + 7 * i) % m) as u8);
    }
    assert!(can_huffman_encode(&src));
    let out = huffman_encode(&src);
    assert!(out.table.len() <= 126);
    let mut bit = 0;
    let mut back = Vec::new();
    while back.len() < src.len() {
        let (v, next) = decode_symbol(&out.table, &out.packed, bit).unwrap();
        back.push(v);
        bit = next;
    }
    assert_eq!(bit, out.bits);
    assert_eq!(back, src);
    let again = huffman_encode(&src);
    assert_eq!((again.table, again.packed, again.bits), (out.table, out.packed, out.bits));
}
