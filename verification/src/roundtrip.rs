//! What the whole codec promises: the decoder, run on the tables the coder
//! produces for a word list, answers every query about that list.
use vstd::prelude::*;
use crate::bits::{packs, stream_value};
use crate::decoder::{
    DecoderTables,
    decode_from, decode_spec, hit_answer, hits, walk_query, Answer, Query, MATCH_MIN, WINDOW_LEN,
};
use crate::huffman::{
    can_huffman_encode, huffman_encodable, huffman_encode, huffman_tree, size_within,
    count_sum, counts_of, huff_walk, huffman_tree_of,
    lemma_count_sum_update, lemma_count_sum_zero, lemma_huffman_roundtrip, lemma_huffman_tree_leaves,
    lemma_occurrences_le, occurrences, symbols_of, tree_bits, tree_size, tree_table, Node,
};
use crate::lzss::{
    lzss_sep_matches,
    best_match, history, lemma_best_match, lemma_record_read, lemma_token_copies_push,
    lemma_tokens_bounds, lemma_window_copy, lower_lengths, lzss_tokens, record_bits, sep_params,
    token_bytes, token_copies, window_copy, LzssParams, LzssToken, LZSS_MATCH_CHAR,
};
use crate::indexing::{
    index_count_words, words_countable,
    at_boundary, completed_word, counters_upto, first_fives, fourth_letters_ok, index_stream,
    initial_counters, initial_walker, lemma_index_roundtrip, lemma_walk_marks, lemma_walk_stream_append, lemma_walk_word,
    level_marks, walk_char, walk_char_ok, walk_stream, word_code, word_ok, words_ok, Walker,
    ZERO_INDEX_CHAR, TWOS_INDEX_CHAR,
};

verus! {

/// The first completed word (the `j`-th being word number `k + j + 1`) that
/// answers the query, with its answer.
pub open spec fn first_hit(ws: Seq<Seq<u8>>, q: Query, k: int) -> Option<Answer>
    decreases ws.len(),
{
    if ws.len() == 0 {
        None
    } else if hits(q, ws[0], k + 1) {
        Some(hit_answer(q, ws[0]))
    } else {
        first_hit(ws.drop_first(), q, k + 1)
    }
}

pub proof fn lemma_walk_stream_count(w: Walker, s: Seq<u8>)
    ensures
        walk_stream(w, s) matches Some((w2, ws)) ==> w2.count == w.count + ws.len(),
    decreases s.len(),
{
    if s.len() > 0 && walk_char_ok(w, s[0]) {
        lemma_walk_stream_count(walk_char(w, s[0]), s.drop_first());
    }
}

/// Answering while reading is finding the first completed word that answers.
pub proof fn lemma_walk_query_hit(w: Walker, s: Seq<u8>, q: Query)
    requires
        walk_stream(w, s) is Some,
    ensures
        walk_query(w, s, q) == match first_hit(walk_stream(w, s).unwrap().1, q, w.count as int) {
            Some(a) => Err(a),
            None => Ok(walk_stream(w, s).unwrap().0),
        },
    decreases s.len(),
{
    if s.len() > 0 {
        let w1 = walk_char(w, s[0]);
        lemma_walk_query_hit(w1, s.drop_first(), q);
        let ws1 = walk_stream(w1, s.drop_first()).unwrap().1;
        match completed_word(w, s[0]) {
            Some(x) => {
                assert(w1.count == w.count + 1);
                let ws = seq![x] + ws1;
                assert(ws[0] == x);
                assert(ws.drop_first() =~= ws1);
            },
            None => {
                assert(w1.count == w.count);
            },
        }
    }
}

pub proof fn lemma_walk_query_append(w: Walker, a: Seq<u8>, b: Seq<u8>, q: Query)
    ensures
        walk_query(w, a + b, q) == match walk_query(w, a, q) {
            Err(x) => Err(x),
            Ok(w1) => walk_query(w1, b, q),
        },
    decreases a.len(),
{
    if a.len() == 0 {
        assert(a + b =~= b);
    } else {
        assert((a + b)[0] == a[0]);
        assert((a + b).drop_first() =~= a.drop_first() + b);
        if walk_char_ok(w, a[0]) {
            lemma_walk_query_append(walk_char(w, a[0]), a.drop_first(), b, q);
        }
    }
}

/// The answer the list itself gives: the word at an index in range, or whether
/// some word's first five letters are the word asked for.
pub open spec fn expected_answer(words: Seq<Seq<u8>>, q: Query) -> Answer {
    match q {
        Query::Index(n) => if n < words.len() {
            let w = words[n as int];
            Answer::Word(w[0], w[1], w[2], w[3], w[4])
        } else {
            Answer::Invalid
        },
        Query::Word(a, b, c, d, e) => if exists|j: int|
            0 <= j < words.len() && #[trigger] words[j].take(5) == seq![a, b, c, d, e] {
            Answer::Valid
        } else {
            Answer::Invalid
        },
    }
}

pub proof fn lemma_first_hit_words(words: Seq<Seq<u8>>, q: Query, j: int)
    requires
        0 <= j <= words.len(),
        forall|i: int| 0 <= i < words.len() ==> #[trigger] words[i].len() >= 5,
        match q {
            Query::Index(n) => j <= n,
            Query::Word(a, b, c, d, e) => forall|i: int|
                0 <= i < j ==> #[trigger] words[i].take(5) != seq![a, b, c, d, e],
        },
    ensures
        match first_hit(first_fives(words).skip(j), q, j) {
            Some(x) => x == expected_answer(words, q) && x != Answer::Invalid,
            None => expected_answer(words, q) == Answer::Invalid,
        },
    decreases words.len() - j,
{
    let ff = first_fives(words).skip(j);
    if j == words.len() {
        assert(ff.len() == 0);
        match q {
            Query::Index(n) => {},
            Query::Word(a, b, c, d, e) => {
                if exists|i: int| 0 <= i < words.len() && #[trigger] words[i].take(5) == seq![a, b, c, d, e] {
                    let i = choose|i: int| 0 <= i < words.len() && #[trigger] words[i].take(5) == seq![a, b, c, d, e];
                    assert(words[i].take(5) != seq![a, b, c, d, e]);
                }
            },
        }
    } else {
        assert(ff[0] == words[j].take(5));
        assert(ff.drop_first() =~= first_fives(words).skip(j + 1));
        let x = words[j].take(5);
        if hits(q, x, j + 1) {
            match q {
                Query::Index(n) => {
                    assert(n == j);
                    assert(x[0] == words[j][0] && x[1] == words[j][1] && x[2] == words[j][2]
                        && x[3] == words[j][3] && x[4] == words[j][4]);
                },
                Query::Word(a, b, c, d, e) => {},
            }
        } else {
            lemma_first_hit_words(words, q, j + 1);
        }
    }
}

/// Reading the code of a word without its last byte completes nothing and
/// ends awaiting that byte.
pub proof fn lemma_walk_word_but_last(w: Walker, c: (u8, u8, u8), k: nat, word: Seq<u8>)
    requires
        at_boundary(w, c, k),
        word_ok(c, word),
        word[3] != ZERO_INDEX_CHAR && word[3] != crate::indexing::ONES_INDEX_CHAR && word[3]
            != TWOS_INDEX_CHAR,
    ensures
        ({
            let code = word_code(c, word);
            let r = walk_stream(w, code.take(code.len() - 1));
            &&& r is Some
            &&& r.unwrap().1 == Seq::<Seq<u8>>::empty()
            &&& r.unwrap().0.awaiting
            &&& r.unwrap().0.count == k
        }),
{
    let c1 = counters_upto(c, word, 1);
    let c2 = counters_upto(c, word, 2);
    assert(word[0] >= crate::indexing::counter(counters_upto(c, word, 0), 0));
    assert(word[1] >= crate::indexing::counter(counters_upto(c, word, 1), 1));
    assert(word[2] >= crate::indexing::counter(counters_upto(c, word, 2), 2));
    let m0 = level_marks(c, 0, word[0]);
    let m1 = level_marks(c1, 1, word[1]);
    let m2 = level_marks(c2, 2, word[2]);
    lemma_walk_marks(w, c, k, 0, word[0]);
    let w1 = walk_stream(w, m0).unwrap().0;
    lemma_walk_marks(w1, c1, k, 1, word[1]);
    let w2 = walk_stream(w1, m1).unwrap().0;
    lemma_walk_marks(w2, c2, k, 2, word[2]);
    let w3 = walk_stream(w2, m2).unwrap().0;
    let code = word_code(c, word);
    assert(code.take(code.len() - 1) =~= m0 + (m1 + (m2 + seq![word[3]])));
    assert(seq![word[3]].drop_first() =~= Seq::<u8>::empty());
    assert(!w3.awaiting);
    assert(walk_char_ok(w3, word[3]));
    assert(completed_word(w3, word[3]) is None);
    assert(walk_stream(walk_char(w3, word[3]), Seq::<u8>::empty()) == Some((walk_char(w3, word[3]), Seq::<Seq<u8>>::empty())));
    assert(walk_stream(w3, seq![word[3]]) == Some((walk_char(w3, word[3]), Seq::<Seq<u8>>::empty())));
    lemma_walk_stream_append(w2, m2, seq![word[3]]);
    lemma_walk_stream_append(w1, m1, m2 + seq![word[3]]);
    lemma_walk_stream_append(w, m0, m1 + (m2 + seq![word[3]]));
    assert(Seq::<Seq<u8>>::empty() + (Seq::<Seq<u8>>::empty() + (Seq::<Seq<u8>>::empty()
        + Seq::<Seq<u8>>::empty())) =~= Seq::<Seq<u8>>::empty());
}

/// Reading all but the last byte of a non-empty list's code ends awaiting the
/// last word's fifth letter, one word short of the list.
pub proof fn lemma_walk_but_last(w: Walker, c: (u8, u8, u8), k: nat, words: Seq<Seq<u8>>)
    requires
        words.len() >= 1,
        at_boundary(w, c, k),
        k + words.len() <= usize::MAX,
        words_ok(words, c),
        fourth_letters_ok(words),
    ensures
        ({
            let s = index_stream(words, c);
            let r = walk_stream(w, s.take(s.len() - 1));
            &&& s.len() >= 1
            &&& r is Some
            &&& r.unwrap().0.awaiting
            &&& r.unwrap().0.count == k + words.len() - 1
        }),
    decreases words.len(),
{
    let w0 = words[0];
    let rest = words.drop_first();
    let c1 = counters_upto(c, w0, 3);
    let code = word_code(c, w0);
    assert(w0[3] != ZERO_INDEX_CHAR && w0[3] != crate::indexing::ONES_INDEX_CHAR && w0[3]
        != TWOS_INDEX_CHAR);
    let s = index_stream(words, c);
    assert(s == code + index_stream(rest, c1));
    if rest.len() == 0 {
        assert(index_stream(rest, c1) =~= Seq::<u8>::empty());
        assert(s =~= code);
        lemma_walk_word_but_last(w, c, k, w0);
    } else {
        lemma_walk_word(w, c, k, w0);
        let w1 = walk_stream(w, code).unwrap().0;
        assert(fourth_letters_ok(rest)) by {
            assert forall|j: int| 0 <= j < rest.len() implies #[trigger] rest[j][3]
                != ZERO_INDEX_CHAR && rest[j][3] != crate::indexing::ONES_INDEX_CHAR && rest[j][3]
                != TWOS_INDEX_CHAR by {
                assert(rest[j] == words[j + 1]);
            }
        }
        lemma_walk_but_last(w1, c1, k + 1, rest);
        let s1 = index_stream(rest, c1);
        assert(s.take(s.len() - 1) =~= code + s1.take(s1.len() - 1));
        lemma_walk_stream_append(w, code, s1.take(s1.len() - 1));
    }
}

/// Before the end of a list's code, fewer words than the list holds are complete.
pub proof fn lemma_walk_prefix_count(words: Seq<Seq<u8>>, p: int)
    requires
        words.len() >= 1,
        words.len() <= usize::MAX,
        words_ok(words, initial_counters()),
        fourth_letters_ok(words),
        0 <= p < index_stream(words, initial_counters()).len(),
    ensures
        walk_stream(initial_walker(), index_stream(words, initial_counters()).take(p)) is Some,
        walk_stream(
            initial_walker(),
            index_stream(words, initial_counters()).take(p),
        ).unwrap().0.count < words.len(),
{
    let s = index_stream(words, initial_counters());
    let w0 = initial_walker();
    lemma_walk_but_last(w0, initial_counters(), 0, words);
    let l1 = s.take(s.len() - 1);
    assert(l1 =~= s.take(p) + l1.skip(p));
    lemma_walk_stream_append(w0, s.take(p), l1.skip(p));
    let (wp, x) = walk_stream(w0, s.take(p)).unwrap();
    lemma_walk_stream_count(w0, s.take(p));
    lemma_walk_stream_count(wp, l1.skip(p));
    lemma_walk_stream_count(w0, l1);
}

/// Every literal the coder emits from `pos` on is a byte of the input from
/// that position on; so a range that holds all those bytes holds the literals.
pub proof fn lemma_tokens_literal_range(s: Seq<u8>, pos: int, p: LzssParams, lo: u8, hi: u8)
    requires
        p.wf(),
        0 <= pos,
        forall|i: int| pos + p.window_len <= i < s.len() ==> lo <= #[trigger] s[i] <= hi,
    ensures
        forall|j: int|
            0 <= j < lzss_tokens(s, pos, p).len() ==> match #[trigger] lzss_tokens(s, pos, p)[j] {
                LzssToken::Literal(c) => lo <= c <= hi,
                LzssToken::Copy(_, _) => true,
            },
    decreases s.len() - pos,
{
    if pos + p.window_len < s.len() {
        let (o, l) = best_match(s, pos, p.window_len as int, p);
        lemma_best_match(s, pos, p.window_len as int, p);
        let ts = lzss_tokens(s, pos, p);
        let next = if l >= p.match_min {
            pos + l
        } else {
            pos + 1
        };
        lemma_tokens_literal_range(s, next, p, lo, hi);
        assert forall|j: int| 0 <= j < ts.len() implies match #[trigger] ts[j] {
            LzssToken::Literal(c) => lo <= c <= hi,
            LzssToken::Copy(_, _) => true,
        } by {
            if j > 0 {
                assert(ts[j] == lzss_tokens(s, next, p)[j - 1]);
            }
        }
    }
}

pub proof fn lemma_token_copies_append(a: Seq<LzssToken>, b: Seq<LzssToken>)
    ensures
        token_copies(a + b) == token_copies(a) + token_copies(b),
    decreases a.len(),
{
    if a.len() == 0 {
        assert(a + b =~= b);
        assert(Seq::<(usize, usize)>::empty() + token_copies(b) =~= token_copies(b));
    } else {
        assert((a + b).drop_first() =~= a.drop_first() + b);
        assert((a + b)[0] == a[0]);
        lemma_token_copies_append(a.drop_first(), b);
        match a[0] {
            LzssToken::Literal(_) => {},
            LzssToken::Copy(o, l) => {
                assert(seq![(o, l)] + (token_copies(a.drop_first()) + token_copies(b)) =~= (seq![
                    (o, l),
                ] + token_copies(a.drop_first())) + token_copies(b));
            },
        }
    }
}

pub proof fn lemma_occurrences_pos(s: Seq<u8>, k: int)
    requires
        0 <= k < s.len(),
    ensures
        occurrences(s, s[k]) > 0,
    decreases s.len(),
{
    if k < s.len() - 1 {
        lemma_occurrences_pos(s.drop_last(), k);
        assert(s.drop_last()[k] == s[k]);
    }
}

pub proof fn lemma_counts_of_sum(s: Seq<u8>)
    requires
        s.len() <= usize::MAX,
    ensures
        count_sum(counts_of(s), 256) == s.len(),
    decreases s.len(),
{
    if s.len() == 0 {
        lemma_count_sum_zero(counts_of(s), 256);
    } else {
        let d = s.drop_last();
        lemma_counts_of_sum(d);
        let x = s.last();
        lemma_occurrences_le(d, x);
        assert(counts_of(s) =~= counts_of(d).update(x as int, (counts_of(d)[x as int] + 1) as usize)) by {
            assert forall|b: int| 0 <= b < 256 implies #[trigger] counts_of(s)[b] == counts_of(d).update(
                x as int,
                (counts_of(d)[x as int] + 1) as usize,
            )[b] by {
                lemma_occurrences_le(d, b as u8);
                if b == x as int {
                } else {
                    assert(b as u8 != x);
                }
            }
        }
        lemma_count_sum_update(counts_of(d), 256, x as int, (counts_of(d)[x as int] + 1) as usize);
    }
}

/// The fourth and fifth letters of every word are bytes from 1 to 122 and
/// from 1 to 125 (below the markers, and not the match mark).
pub open spec fn letters_ok(words: Seq<Seq<u8>>) -> bool {
    forall|j: int|
        0 <= j < words.len() ==> 1 <= #[trigger] words[j][3] <= 122 && 1 <= words[j][4] <= 125
}

pub proof fn lemma_index_stream_bytes(words: Seq<Seq<u8>>, c: (u8, u8, u8))
    requires
        words_ok(words, c),
        letters_ok(words),
    ensures
        forall|i: int|
            0 <= i < index_stream(words, c).len() ==> 1 <= #[trigger] index_stream(words, c)[i]
                <= 125,
    decreases words.len(),
{
    if words.len() > 0 {
        let w0 = words[0];
        let rest = words.drop_first();
        let c1 = counters_upto(c, w0, 3);
        assert(letters_ok(rest)) by {
            assert forall|j: int| 0 <= j < rest.len() implies 1 <= #[trigger] rest[j][3] <= 122 && 1
                <= rest[j][4] <= 125 by {
                assert(rest[j] == words[j + 1]);
            }
        }
        lemma_index_stream_bytes(rest, c1);
        let code = word_code(c, w0);
        let s = index_stream(words, c);
        assert(s == code + index_stream(rest, c1));
        assert(1 <= w0[3] <= 122 && 1 <= w0[4] <= 125);
        assert forall|i: int| 0 <= i < s.len() implies 1 <= #[trigger] s[i] <= 125 by {
            if i >= code.len() {
                assert(s[i] == index_stream(rest, c1)[i - code.len()]);
            }
        }
    }
}

/// The index-count code of a word list.
pub open spec fn coded_stream(words: Seq<Seq<u8>>) -> Seq<u8> {
    index_stream(words, initial_counters())
}

/// The window followed by the index-count code.
pub open spec fn coded_history(words: Seq<Seq<u8>>) -> Seq<u8> {
    history(coded_stream(words), sep_params())
}

/// The LZSS tokens of the index-count code.
pub open spec fn coded_tokens(words: Seq<Seq<u8>>) -> Seq<LzssToken> {
    lzss_tokens(coded_history(words), 0, sep_params())
}

/// The LZSS-coded stream, the input of the Huffman coder.
pub open spec fn coded_symbols(words: Seq<Seq<u8>>) -> Seq<u8> {
    token_bytes(coded_tokens(words))
}

/// The match list, lengths counted from 6.
pub open spec fn coded_matches(words: Seq<Seq<u8>>) -> Seq<(usize, usize)> {
    lower_lengths(token_copies(coded_tokens(words)), MATCH_MIN as nat)
}

/// The Huffman tree of the LZSS-coded stream.
pub open spec fn coded_tree(words: Seq<Seq<u8>>) -> Node {
    huffman_tree_of(coded_symbols(words))
}

/// The tables are what the coder makes of `words`: `blob` packs the Huffman
/// code of the LZSS stream under a code table of its tree, and `packed` the
/// match list.  The list is one the coder accepts, its fourth and fifth
/// letters lie below the markers, and its Huffman tree has a branch at the root
/// and at most 128 table entries.
pub open spec fn coded_tables(
    words: Seq<Seq<u8>>,
    blob: Seq<u8>,
    packed: Seq<u8>,
) -> bool {
    &&& 1 <= words.len() < usize::MAX
    &&& words_ok(words, initial_counters())
    &&& letters_ok(words)
    &&& coded_symbols(words).len() <= usize::MAX
    &&& coded_tree(words) is Branch
    &&& tree_size(coded_tree(words)) <= 128
    &&& packs(blob, tree_bits(coded_tree(words), coded_symbols(words)))
    &&& packs(packed, record_bits(coded_matches(words)))
}

/// The answer read off the whole index-count code (`Invalid` when no word answers).
pub open spec fn stream_answer(words: Seq<Seq<u8>>, q: Query) -> Answer {
    match walk_query(initial_walker(), coded_stream(words), q) {
        Err(a) => a,
        Ok(_) => Answer::Invalid,
    }
}

pub proof fn lemma_coded_facts(words: Seq<Seq<u8>>)
    requires
        1 <= words.len() < usize::MAX,
        words_ok(words, initial_counters()),
        letters_ok(words),
        coded_symbols(words).len() <= usize::MAX,
    ensures
        fourth_letters_ok(words),
        forall|i: int| 0 <= i < coded_stream(words).len() ==> 1 <= #[trigger] coded_stream(words)[i] <= 125,
        coded_stream(words).len() >= 1,
        coded_symbols(words).len() >= 1,
        forall|i: int|
            0 <= i < coded_symbols(words).len() ==> #[trigger] symbols_of(coded_symbols(words)).contains(
                coded_symbols(words)[i],
            ),
        forall|v: u8| #[trigger] symbols_of(coded_symbols(words)).contains(v) ==> 1 <= v <= 126,
        crate::huffman::distinct_leaves(coded_tree(words)),
        crate::huffman::leaf_set(coded_tree(words)) == symbols_of(coded_symbols(words)),
{
    assert(fourth_letters_ok(words)) by {
        assert forall|j: int| 0 <= j < words.len() implies #[trigger] words[j][3] != ZERO_INDEX_CHAR
            && words[j][3] != crate::indexing::ONES_INDEX_CHAR && words[j][3] != TWOS_INDEX_CHAR by {
            assert(1 <= words[j][3] <= 122);
        }
    }
    lemma_index_stream_bytes(words, initial_counters());
    let i3 = coded_stream(words);
    let h = coded_history(words);
    let sp = sep_params();
    let syms = coded_symbols(words);
    assert(words[0].len() >= 5);
    assert(i3.len() >= 1) by {
        assert(i3 == word_code(initial_counters(), words[0]) + index_stream(
            words.drop_first(),
            counters_upto(initial_counters(), words[0], 3),
        ));
    }
    assert(coded_tokens(words).len() >= 1);
    assert forall|i: int| sp.window_len <= i < h.len() implies 1 <= #[trigger] h[i] <= 125 by {
        assert(h[i] == i3[i - sp.window_len]);
    }
    lemma_tokens_literal_range(h, 0, sp, 1, 125);
    assert forall|i: int| 0 <= i < syms.len() implies #[trigger] symbols_of(syms).contains(syms[i]) by {
        lemma_occurrences_pos(syms, i);
    }
    assert forall|v: u8| #[trigger] symbols_of(syms).contains(v) implies 1 <= v <= 126 by {
        if !(1 <= v <= 126) {
            lemma_occurrences_absent(syms, v);
        }
    }
    lemma_counts_of_sum(syms);
    lemma_huffman_tree_leaves(syms);
}

pub proof fn lemma_occurrences_absent(s: Seq<u8>, v: u8)
    requires
        forall|i: int| 0 <= i < s.len() ==> #[trigger] s[i] != v,
    ensures
        occurrences(s, v) == 0,
    decreases s.len(),
{
    if s.len() > 0 {
        lemma_occurrences_absent(s.drop_last(), v);
    }
}

proof fn lemma_decode_run(
    words: Seq<Seq<u8>>,
    q: Query,
    blob: Seq<u8>,
    packed: Seq<u8>,
    k: int,
    p: int,
    w: Walker,
)
    requires
        coded_tables(words, blob, packed),
        0 <= p <= coded_stream(words).len(),
        0 <= k <= coded_tokens(words).len(),
        coded_tokens(words) == coded_tokens(words).take(k) + lzss_tokens(
            coded_history(words),
            p,
            sep_params(),
        ),
        walk_query(initial_walker(), coded_stream(words).take(p), q) == Ok::<Walker, Answer>(w),
    ensures
        decode_from(
            blob,
            packed,
            tree_table(coded_tree(words)),
            words.len() as usize,
            q,
            coded_history(words).take(p + WINDOW_LEN),
            tree_bits(coded_tree(words), coded_symbols(words).take(k)).len() as int,
            14 * token_copies(coded_tokens(words).take(k)).len() as int,
            w,
        ) == stream_answer(words, q),
    decreases coded_stream(words).len() - p,
{
    let i3 = coded_stream(words);
    let h = coded_history(words);
    let sp = sep_params();
    let ts = coded_tokens(words);
    let syms = coded_symbols(words);
    let t = coded_tree(words);
    let table = tree_table(t);
    let n = words.len() as usize;
    let wl = WINDOW_LEN as int;
    lemma_coded_facts(words);
    lemma_index_roundtrip(words);
    let bitk = tree_bits(coded_tree(words), syms.take(k)).len() as int;
    let mbitk = 14 * token_copies(ts.take(k)).len() as int;
    if p == i3.len() {
        assert(i3.take(p) =~= i3);
        lemma_walk_query_hit(initial_walker(), i3, q);
    } else {
        lemma_walk_prefix_count(words, p);
        lemma_walk_query_hit(initial_walker(), i3.take(p), q);
        assert(w.count < n);
        let rest = lzss_tokens(h, p, sp);
        assert(p + wl < h.len());
        let (o, l) = best_match(h, p, wl, sp);
        lemma_best_match(h, p, wl, sp);
        lemma_tokens_bounds(h, 0, sp);
        assert(rest.len() >= 1);
        assert(k < ts.len());
        assert(ts[k] == rest[0]);
        assert(syms[k] == token_bytes(ts)[k]);
        assert forall|v: u8| crate::huffman::leaf_set(t).contains(v) implies 1 <= v <= 127 by {
            assert(symbols_of(syms).contains(v));
        }
        assert forall|j: int| 0 <= j < syms.len() implies #[trigger] crate::huffman::leaf_set(
            t,
        ).contains(syms[j]) by {
            assert(symbols_of(syms).contains(syms[j]));
        }
        lemma_huffman_roundtrip(t, syms, blob, k);
        let bit2 = tree_bits(coded_tree(words), syms.take(k + 1)).len() as int;
        assert(huff_walk(table, blob, bitk, 0) == Some((syms[k], bit2)));
        assert(ts.take(k + 1) =~= ts.take(k).push(ts[k]));
        lemma_token_copies_push(ts.take(k), ts[k]);
        let hist = h.take(p + wl);
        let len: int = if l >= sp.match_min {
            l
        } else {
            1
        };
        let p2 = p + len;
        let hist2 = h.take(p2 + wl);
        let next = lzss_tokens(h, p2, sp);
        assert(rest == seq![rest[0]] + next);
        assert(ts == ts.take(k + 1) + next) by {
            assert(ts.take(k) + rest =~= ts.take(k).push(ts[k]) + next);
        }
        if l >= sp.match_min {
            assert(rest[0] == LzssToken::Copy(o as usize, l as usize));
            assert(syms[k] == LZSS_MATCH_CHAR);
            let j = token_copies(ts.take(k)).len() as int;
            lemma_token_copies_append(ts.take(k), rest);
            assert(rest.drop_first() =~= next);
            assert(token_copies(rest) == seq![(o as usize, l as usize)] + token_copies(next));
            assert(token_copies(ts)[j] == (o as usize, l as usize));
            let ms = coded_matches(words);
            assert(ms[j] == (o as usize, (l - 6) as usize));
            assert(0 <= k < ts.len());
            assert(match ts[k] {
                LzssToken::Copy(oo, ll) => oo < 2048 && 6 <= ll <= 13,
                LzssToken::Literal(_) => true,
            });
            lemma_record_read(ms, packed, j);
            assert(stream_value(packed, mbitk, 11) == o);
            assert(stream_value(packed, mbitk + 11, 3) + MATCH_MIN == l);
            lemma_window_copy(h, p + wl, o, l as nat, wl, p + o);
            assert(window_copy(hist, o, l as nat, wl) == hist2);
            assert(14 * token_copies(ts.take(k + 1)).len() == mbitk + 14);
        } else {
            assert(rest[0] == LzssToken::Literal(h[p + wl]));
            assert(h[p + wl] == i3[p]);
            assert(syms[k] == i3[p]);
            assert(syms[k] != LZSS_MATCH_CHAR);
            assert(hist.push(syms[k]) =~= hist2);
            assert(token_copies(ts.take(k).push(ts[k])) == token_copies(ts.take(k)) + Seq::<(usize, usize)>::empty());
            assert(token_copies(ts.take(k + 1)) =~= token_copies(ts.take(k)));
        }
        let chunk = hist2.skip(hist.len() as int);
        assert(chunk =~= i3.subrange(p, p2));
        assert(i3.take(p2) =~= i3.take(p) + chunk);
        lemma_walk_query_append(initial_walker(), i3.take(p), chunk, q);
        assert(i3 =~= i3.take(p2) + i3.skip(p2));
        lemma_walk_query_append(initial_walker(), i3.take(p2), i3.skip(p2), q);
        match walk_query(w, chunk, q) {
            Err(a) => {},
            Ok(w2) => {
                lemma_decode_run(words, q, blob, packed, k + 1, p2, w2);
            },
        }
    }
}

pub proof fn lemma_words_long(words: Seq<Seq<u8>>, c: (u8, u8, u8))
    requires
        words_ok(words, c),
    ensures
        forall|i: int| 0 <= i < words.len() ==> #[trigger] words[i].len() >= 5,
    decreases words.len(),
{
    if words.len() > 0 {
        lemma_words_long(words.drop_first(), counters_upto(c, words[0], 3));
        assert forall|i: int| 0 <= i < words.len() implies #[trigger] words[i].len() >= 5 by {
            if i > 0 {
                assert(words[i] == words.drop_first()[i - 1]);
            }
        }
    }
}

/// The codec's promise: on the tables the coder makes of a word list, the
/// decoder gives the word at an index within the list (`Invalid` past its
/// end), and tells whether a five-letter word is the start of some word of the
/// list.
pub proof fn lemma_decoder_answers(
    words: Seq<Seq<u8>>,
    q: Query,
    blob: Seq<u8>,
    packed: Seq<u8>,
)
    requires
        coded_tables(words, blob, packed),
    ensures
        decode_spec(blob, packed, tree_table(coded_tree(words)), words.len() as usize, q)
            == expected_answer(words, q),
{
    let i3 = coded_stream(words);
    let h = coded_history(words);
    let ts = coded_tokens(words);
    let syms = coded_symbols(words);
    lemma_coded_facts(words);
    assert(ts.take(0) + ts =~= ts);
    assert(h.take(WINDOW_LEN as int) =~= Seq::new(
        WINDOW_LEN as nat,
        |i: int| TWOS_INDEX_CHAR,
    ));
    assert(syms.take(0) =~= Seq::<u8>::empty());
    assert(ts.take(0) =~= Seq::<LzssToken>::empty());
    assert(i3.take(0) =~= Seq::<u8>::empty());
    lemma_decode_run(words, q, blob, packed, 0, 0, initial_walker());
    lemma_index_roundtrip(words);
    lemma_walk_query_hit(initial_walker(), i3, q);
    lemma_words_long(words, initial_counters());
    assert(first_fives(words).skip(0) =~= first_fives(words));
    lemma_first_hit_words(words, q, 0);
}

/// The word lists from which the coder builds tables that the decoder reads
/// back: a list the index-count coder accepts, with fourth and fifth letters
/// below the markers, whose coded stream fits the LZSS window arithmetic, whose
/// LZSS stream the Huffman coder accepts, and whose flat table has at most 128
/// entries (its offsets fit an `i8`).
pub open spec fn tables_buildable(words: Seq<Seq<u8>>) -> bool {
    &&& 1 <= words.len() < usize::MAX
    &&& words_ok(words, initial_counters())
    &&& letters_ok(words)
    &&& coded_stream(words).len() + 2048 <= usize::MAX
    &&& huffman_encodable(coded_symbols(words))
    &&& tree_size(coded_tree(words)) <= 128
}

/// The conditions each pass of the coder puts on a list (the index-count
/// coder accepts it, its fourth and fifth letters lie below the markers, its
/// stream fits beside the window, the Huffman coder accepts the LZSS stream)
/// and a flat table that the `i8` offsets can address: at most 128 entries.
pub open spec fn table_fits_list(words: Seq<Seq<u8>>) -> bool {
    &&& 1 <= words.len() < usize::MAX
    &&& words_ok(words, initial_counters())
    &&& letters_ok(words)
    &&& coded_stream(words).len() + 2048 <= usize::MAX
    &&& huffman_encodable(coded_symbols(words))
    &&& tree_table(coded_tree(words)).len() <= 128
}

/// Tables are built for a list exactly when every pass accepts it and its flat
/// table has at most 128 entries, as many as `i8` offsets reach; on those
/// lists the decoder answers every query (`lemma_decoder_answers`).
pub proof fn lemma_buildable_table_fits(words: Seq<Seq<u8>>)
    ensures
        tables_buildable(words) <==> table_fits_list(words),
        tables_buildable(words) <==> ({
            &&& 1 <= words.len() < usize::MAX
            &&& words_ok(words, initial_counters())
            &&& letters_ok(words)
            &&& coded_stream(words).len() + 2048 <= usize::MAX
            &&& huffman_encodable(coded_symbols(words))
            &&& tree_table(coded_tree(words)).len() <= 128
        }),
        tables_buildable(words) ==> tree_table(coded_tree(words)).len() == tree_size(
            coded_tree(words),
        ),
{
    crate::huffman::lemma_layout_len(coded_tree(words), -1, Seq::empty());
}

/// The coder's passes over a word list (index-count code, LZSS with the match
/// list apart, Huffman code of the LZSS stream), gathered as the decoder's tables.
pub fn build_decoder_tables(words: &Vec<Vec<u8>>) -> (t: DecoderTables)
    requires
        tables_buildable(words.deep_view()),
    ensures
        coded_tables(words.deep_view(), t.blob@, t.matches@),
        t.tree@ == tree_table(coded_tree(words.deep_view())),
        t.word_count == words.len(),
{
    let ghost ws = words.deep_view();
    let i3 = index_count_words(words);
    proof {
        lemma_words_long(ws, initial_counters());
        assert(ws[0].len() >= 5);
        lemma_index_stream_len(ws, initial_counters());
    }
    let lz = lzss_sep_matches(&i3);
    let h = huffman_encode(&lz.encoded);
    DecoderTables { blob: h.packed, matches: lz.packed, tree: h.table, word_count: words.len() }
}

pub proof fn lemma_index_stream_len(words: Seq<Seq<u8>>, c: (u8, u8, u8))
    requires
        words_ok(words, c),
    ensures
        index_stream(words, c).len() >= 2 * words.len(),
    decreases words.len(),
{
    if words.len() > 0 {
        lemma_index_stream_len(words.drop_first(), counters_upto(c, words[0], 3));
    }
}

/// Whether every word's fourth and fifth letters lie in 1..=122 and 1..=125.
pub fn letters_below_markers(words: &Vec<Vec<u8>>) -> (ok: bool)
    requires
        forall|j: int| 0 <= j < words.len() ==> (#[trigger] words@[j]).len() >= 5,
    ensures
        ok == letters_ok(words.deep_view()),
{
    let ghost ws = words.deep_view();
    let mut i: usize = 0;
    while i < words.len()
        invariant
            i <= words.len(),
            ws == words.deep_view(),
            forall|j: int| 0 <= j < words.len() ==> (#[trigger] words@[j]).len() >= 5,
            forall|j: int| 0 <= j < i ==> 1 <= #[trigger] ws[j][3] <= 122 && 1 <= ws[j][4] <= 125,
        decreases words.len() - i,
    {
        let w = &words[i];
        proof {
            assert(ws[i as int] == w@);
            assert(w@.len() >= 5);
        }
        if !(1 <= w[3] && w[3] <= 122 && 1 <= w[4] && w[4] <= 125) {
            return false;
        }
        i = i + 1;
    }
    true
}

/// Whether `build_decoder_tables` accepts the list (see `tables_buildable`).
pub fn can_build_decoder_tables(words: &Vec<Vec<u8>>) -> (ok: bool)
    ensures
        ok == tables_buildable(words.deep_view()),
        ok <==> table_fits_list(words.deep_view()),
{
    proof {
        lemma_buildable_table_fits(words.deep_view());
    }
    let ghost ws = words.deep_view();
    if words.len() == 0 || words.len() == usize::MAX {
        return false;
    }
    if !words_countable(words) {
        return false;
    }
    proof {
        lemma_words_long(ws, initial_counters());
        assert forall|j: int| 0 <= j < words.len() implies (#[trigger] words@[j]).len() >= 5 by {
            assert(ws[j] == words@[j]@);
        }
    }
    if !letters_below_markers(words) {
        return false;
    }
    let i3 = index_count_words(words);
    if i3.len() > usize::MAX - 2048 {
        return false;
    }
    proof {
        assert(ws[0].len() >= 5);
        lemma_index_stream_len(ws, initial_counters());
    }
    let lz = lzss_sep_matches(&i3);
    if !can_huffman_encode(&lz.encoded) {
        return false;
    }
    let t = huffman_tree(&lz.encoded);
    size_within(&t, 128).is_some()
}

} // verus!
