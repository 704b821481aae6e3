//! The word-list decoder: walks the Huffman table over the coded stream,
//! expands LZSS references from the packed match list through a 2048-byte
//! window, and reads the index-count stream word by word until a word answers
//! the query or the list is exhausted.
use vstd::prelude::*;
use crate::bits::{read_bits, stream_value};
use crate::huffman::{decode_symbol, huff_walk};
use crate::indexing::{completed_word, initial_walker, walk_char, walk_char_ok, Walker, TWOS_INDEX_CHAR};
use crate::lzss::{window_copy, LZSS_MATCH_CHAR};

verus! {

/// The window the decoder copies references from.
pub const WINDOW_LEN: usize = 2048;

/// The shortest reference; stored lengths are counted from it.
pub const MATCH_MIN: usize = 6;

/// The packed word list the decoder reads.
pub struct DecoderTables {
    /// The Huffman-coded stream.
    pub blob: Vec<u8>,
    /// The match list, 14 bits per reference.
    pub matches: Vec<u8>,
    /// The flat Huffman table.
    pub tree: Vec<i8>,
    /// How many words the list holds.
    pub word_count: usize,
}

/// What is asked: whether a five-letter word is in the list, or the word at an index.
#[derive(Clone, Copy, Debug, PartialEq, Eq)]
pub enum Query {
    Word(u8, u8, u8, u8, u8),
    Index(usize),
}

/// The decoder's answer.
#[derive(Clone, Copy, Debug, PartialEq, Eq)]
pub enum Answer {
    /// The word is in the list.
    Valid,
    /// The word is not in the list, or the index is past its end.
    Invalid,
    /// The word at the index.
    Word(u8, u8, u8, u8, u8),
    /// The tables are not a coded word list: a code runs past the stream or
    /// the table, or a letter counter overflows.
    Malformed,
}

/// The query read from the program argument: a first byte from `'a'` up asks
/// for the five bytes as a word; otherwise the five bytes are digits of an
/// index, each taken off `'0'` and put 3 bits apart (so octal digits give the
/// octal number).
pub open spec fn query_of(arg: Seq<u8>) -> Query {
    if arg[0] >= 97 {
        Query::Word(arg[0], arg[1], arg[2], arg[3], arg[4])
    } else {
        Query::Index(
            ((((arg[0] - 48) as usize) << 12usize) | (((arg[1] - 48) as usize) << 9usize) | (((arg[2]
                - 48) as usize) << 6usize) | (((arg[3] - 48) as usize) << 3usize) | (((arg[4]
                - 48) as usize) << 0usize)) as usize,
        )
    }
}

/// An argument that starts with a letter from `'a'` up asks whether the word of
/// its first five bytes, in order, is in the list.
pub proof fn lemma_word_query(arg: Seq<u8>)
    requires
        arg.len() >= 5,
        arg[0] >= 97,
    ensures
        query_of(arg) == Query::Word(arg[0], arg[1], arg[2], arg[3], arg[4]),
        match query_of(arg) {
            Query::Word(a, b, c, d, e) => seq![a, b, c, d, e] == arg.take(5),
            Query::Index(_) => false,
        },
{
    assert(seq![arg[0], arg[1], arg[2], arg[3], arg[4]] =~= arg.take(5));
}

/// An argument of five octal digits asks for the index they write in octal.
pub proof fn lemma_octal_index(arg: Seq<u8>)
    requires
        arg.len() >= 5,
        forall|i: int| 0 <= i < 5 ==> 48 <= #[trigger] arg[i] <= 55,
    ensures
        query_of(arg) == Query::Index(
            ((arg[0] - 48) * 4096 + (arg[1] - 48) * 512 + (arg[2] - 48) * 64 + (arg[3] - 48) * 8 + (
            arg[4] - 48)) as usize,
        ),
{
    assert(48 <= arg[0] <= 55 && 48 <= arg[1] <= 55 && 48 <= arg[2] <= 55);
    assert(48 <= arg[3] <= 55 && 48 <= arg[4] <= 55);
    let d0 = (arg[0] - 48) as usize;
    let d1 = (arg[1] - 48) as usize;
    let d2 = (arg[2] - 48) as usize;
    let d3 = (arg[3] - 48) as usize;
    let d4 = (arg[4] - 48) as usize;
    assert((d0 << 12usize) | (d1 << 9usize) | (d2 << 6usize) | (d3 << 3usize) | (d4 << 0usize) == d0
        * 4096 + d1 * 512 + d2 * 64 + d3 * 8 + d4) by (bit_vector)
        requires
            d0 < 8,
            d1 < 8,
            d2 < 8,
            d3 < 8,
            d4 < 8,
    ;
}

/// Reads the query from the first five bytes of the argument.  An index needs
/// every one of the five bytes to be at least `'0'`.
pub fn parse_query(arg: &Vec<u8>) -> (q: Query)
    requires
        arg.len() >= 5,
        arg[0] < 97 ==> forall|i: int| 0 <= i < 5 ==> #[trigger] arg[i] >= 48,
    ensures
        q == query_of(arg@),
        arg[0] >= 97 ==> q == Query::Word(arg[0], arg[1], arg[2], arg[3], arg[4]),
        arg[0] < 97 && (forall|i: int| 0 <= i < 5 ==> #[trigger] arg[i] <= 55) ==> q == Query::Index(
            ((arg[0] - 48) * 4096 + (arg[1] - 48) * 512 + (arg[2] - 48) * 64 + (arg[3] - 48) * 8
                + (arg[4] - 48)) as usize,
        ),
{
    proof {
        if arg[0] >= 97 {
            lemma_word_query(arg@);
        } else if forall|i: int| 0 <= i < 5 ==> #[trigger] arg[i] <= 55 {
            lemma_octal_index(arg@);
        }
    }
    if arg[0] >= 97 {
        Query::Word(arg[0], arg[1], arg[2], arg[3], arg[4])
    } else {
        assert(arg[0] >= 48 && arg[1] >= 48 && arg[2] >= 48 && arg[3] >= 48 && arg[4] >= 48);
        let index = ((arg[0] - 48) as usize) << 12usize | ((arg[1] - 48) as usize) << 9usize | ((
        arg[2] - 48) as usize) << 6usize | ((arg[3] - 48) as usize) << 3usize | ((arg[4]
            - 48) as usize) << 0usize;
        Query::Index(index)
    }
}

/// A completed word answers the query: it is the word asked for, or it is the
/// word at the index asked for (`count` words completed, itself included).
pub open spec fn hits(q: Query, word: Seq<u8>, count: int) -> bool {
    match q {
        Query::Word(a, b, c, d, e) => word == seq![a, b, c, d, e],
        Query::Index(n) => count - 1 == n,
    }
}

/// The answer a completed word gives to the query it hits.
pub open spec fn hit_answer(q: Query, word: Seq<u8>) -> Answer {
    match q {
        Query::Word(_, _, _, _, _) => Answer::Valid,
        Query::Index(_) => Answer::Word(word[0], word[1], word[2], word[3], word[4]),
    }
}

/// Reads bytes with the walker; the first completed word that answers the
/// query ends the reading with its answer.
pub open spec fn walk_query(w: Walker, s: Seq<u8>, q: Query) -> Result<Walker, Answer>
    decreases s.len(),
{
    if s.len() == 0 {
        Ok(w)
    } else if !walk_char_ok(w, s[0]) {
        Err(Answer::Malformed)
    } else {
        let w2 = walk_char(w, s[0]);
        match completed_word(w, s[0]) {
            Some(word) => if hits(q, word, w2.count as int) {
                Err(hit_answer(q, word))
            } else {
                walk_query(w2, s.drop_first(), q)
            },
            None => walk_query(w2, s.drop_first(), q),
        }
    }
}

pub proof fn lemma_huff_walk_advances(table: Seq<i8>, blob: Seq<u8>, bit: int, idx: int)
    ensures
        huff_walk(table, blob, bit, idx) matches Some((_, b)) ==> bit < b <= 8 * blob.len(),
    decreases 8 * blob.len() - bit,
{
    if 0 <= bit < 8 * blob.len() {
        lemma_huff_walk_advances(table, blob, bit + 1, idx + 1);
        let i = idx + if crate::bits::stream_bit(blob, bit) {
            1int
        } else {
            0int
        };
        if 0 <= i < table.len() && table[i] >= 0 {
            lemma_huff_walk_advances(table, blob, bit + 1, table[i] as int);
        }
    }
}

/// The decoder from a given state: `hist` is the window followed by everything
/// decoded so far, `bit` and `mbit` the read positions in the coded stream and
/// in the match list, `w` the walker.  Before each symbol the decoder stops
/// with `Invalid` once `n` words are complete.
pub open spec fn decode_from(
    blob: Seq<u8>,
    matches: Seq<u8>,
    tree: Seq<i8>,
    n: usize,
    q: Query,
    hist: Seq<u8>,
    bit: int,
    mbit: int,
    w: Walker,
) -> Answer
    decreases 8 * blob.len() - bit,
{
    if w.count == n {
        Answer::Invalid
    } else {
        match huff_walk(tree, blob, bit, 0) {
            None => Answer::Malformed,
            Some((sym, bit2)) => {
                let hist2 = if sym == LZSS_MATCH_CHAR {
                    window_copy(
                        hist,
                        stream_value(matches, mbit, 11) as int,
                        (stream_value(matches, mbit + 11, 3) + MATCH_MIN) as nat,
                        WINDOW_LEN as int,
                    )
                } else {
                    hist.push(sym)
                };
                let mbit2 = if sym == LZSS_MATCH_CHAR {
                    mbit + 14
                } else {
                    mbit
                };
                match walk_query(w, hist2.skip(hist.len() as int), q) {
                    Err(a) => a,
                    Ok(w2) => {
                        proof {
                            lemma_huff_walk_advances(tree, blob, bit, 0);
                        }
                        decode_from(blob, matches, tree, n, q, hist2, bit2, mbit2, w2)
                    },
                }
            },
        }
    }
}

/// The decoder's answer for the tables: from an empty history behind a window
/// of `TWOS_INDEX_CHAR`, the start of both streams, and the initial walker.
pub open spec fn decode_spec(
    blob: Seq<u8>,
    matches: Seq<u8>,
    tree: Seq<i8>,
    n: usize,
    q: Query,
) -> Answer {
    decode_from(
        blob,
        matches,
        tree,
        n,
        q,
        Seq::new(WINDOW_LEN as nat, |i: int| TWOS_INDEX_CHAR),
        0,
        0,
        initial_walker(),
    )
}

/// Appends `n` bytes copied one at a time from `off` bytes into the last
/// `WINDOW_LEN` bytes.
fn copy_window(hist: &mut Vec<u8>, off: usize, n: usize)
    requires
        off < WINDOW_LEN,
        old(hist).len() >= WINDOW_LEN,
        old(hist).len() + n <= usize::MAX,
    ensures
        final(hist)@ == window_copy(old(hist)@, off as int, n as nat, WINDOW_LEN as int),
        final(hist).len() == old(hist).len() + n,
{
    let ghost target = window_copy(hist@, off as int, n as nat, WINDOW_LEN as int);
    let ghost len0 = hist.len();
    let mut k: usize = 0;
    while k < n
        invariant
            off < WINDOW_LEN,
            k <= n,
            hist.len() == len0 + k,
            len0 >= WINDOW_LEN,
            len0 + n <= usize::MAX,
            window_copy(hist@, off as int, (n - k) as nat, WINDOW_LEN as int) == target,
        decreases n - k,
    {
        let c = hist[hist.len() - WINDOW_LEN + off];
        hist.push(c);
        k = k + 1;
    }
}

/// Reads `hist[start..]` with the walker, answering the query as soon as a
/// completed word answers it.
fn walk_chunk(w: Walker, hist: &Vec<u8>, start: usize, q: Query) -> (r: Result<Walker, Answer>)
    requires
        start <= hist.len(),
    ensures
        r == walk_query(w, hist@.skip(start as int), q),
{
    let mut cur = w;
    let mut i = start;
    while i < hist.len()
        invariant
            start <= i <= hist.len(),
            walk_query(cur, hist@.skip(i as int), q) == walk_query(w, hist@.skip(start as int), q),
        decreases hist.len() - i,
    {
        let c = hist[i];
        proof {
            assert(hist@.skip(i as int)[0] == c);
            assert(hist@.skip(i as int).drop_first() =~= hist@.skip(i + 1));
        }
        match cur.step(c) {
            None => {
                return Err(Answer::Malformed);
            },
            Some((w2, done)) => {
                match done {
                    Some(word) => {
                        let hit = match q {
                            Query::Word(a, b, cc, d, e) => {
                                let h = word[0] == a && word[1] == b && word[2] == cc && word[3]
                                    == d && word[4] == e;
                                proof {
                                    if h {
                                        assert(word@ =~= seq![a, b, cc, d, e]);
                                    } else {
                                        assert(word@ != seq![a, b, cc, d, e]) by {
                                            if word@ == seq![a, b, cc, d, e] {
                                                assert(word@[0] == a && word@[1] == b && word@[2]
                                                    == cc && word@[3] == d && word@[4] == e);
                                            }
                                        }
                                    }
                                }
                                h
                            },
                            Query::Index(n) => w2.count - 1 == n,
                        };
                        if hit {
                            let a = match q {
                                Query::Word(_, _, _, _, _) => Answer::Valid,
                                Query::Index(_) => Answer::Word(
                                    word[0],
                                    word[1],
                                    word[2],
                                    word[3],
                                    word[4],
                                ),
                            };
                            return Err(a);
                        }
                    },
                    None => {},
                }
                cur = w2;
            },
        }
        i = i + 1;
    }
    proof {
        assert(hist@.skip(i as int) =~= Seq::<u8>::empty());
    }
    Ok(cur)
}

/// Answers a query from the packed tables (the decoder program's main loop).
pub fn decode_query(t: &DecoderTables, q: Query) -> (a: Answer)
    requires
        t.blob.len() <= usize::MAX / 256,
    ensures
        a == decode_spec(t.blob@, t.matches@, t.tree@, t.word_count, q),
{
    let mut hist: Vec<u8> = Vec::new();
    let mut i: usize = 0;
    while i < WINDOW_LEN
        invariant
            i <= WINDOW_LEN,
            hist@ =~= Seq::new(i as nat, |k: int| TWOS_INDEX_CHAR),
        decreases WINDOW_LEN - i,
    {
        hist.push(TWOS_INDEX_CHAR);
        i = i + 1;
    }
    let mut bit: usize = 0;
    let mut mbit: usize = 0;
    let mut w = Walker::new();
    loop
        invariant
            t.blob.len() <= usize::MAX / 256,
            bit <= 8 * t.blob.len(),
            mbit <= 14 * bit,
            WINDOW_LEN <= hist.len() <= WINDOW_LEN + 13 * bit,
            decode_from(
                t.blob@,
                t.matches@,
                t.tree@,
                t.word_count,
                q,
                hist@,
                bit as int,
                mbit as int,
                w,
            ) == decode_spec(t.blob@, t.matches@, t.tree@, t.word_count, q),
        decreases 8 * t.blob.len() - bit,
    {
        if w.count == t.word_count {
            return Answer::Invalid;
        }
        proof {
            lemma_huff_walk_advances(t.tree@, t.blob@, bit as int, 0);
        }
        match decode_symbol(&t.tree, &t.blob, bit) {
            None => {
                return Answer::Malformed;
            },
            Some((sym, bit2)) => {
                let ghost h0 = hist@;
                let start = hist.len();
                if sym == LZSS_MATCH_CHAR {
                    let off = read_bits(&t.matches, mbit, 11);
                    let l = read_bits(&t.matches, mbit + 11, 3);
                    assert(off < 2048) by (bit_vector)
                        requires
                            off >> 11u64 == 0,
                    ;
                    assert(l < 8) by (bit_vector)
                        requires
                            l >> 3u64 == 0,
                    ;
                    copy_window(&mut hist, off as usize, l as usize + MATCH_MIN);
                    mbit = mbit + 14;
                } else {
                    hist.push(sym);
                }
                match walk_chunk(w, &hist, start, q) {
                    Err(a) => {
                        return a;
                    },
                    Ok(w2) => {
                        w = w2;
                        bit = bit2;
                    },
                }
            },
        }
    }
}

} // verus!
