//! The index-count coding of a sorted word list: the first three letters of
//! each word are not written but counted up with marker bytes, the last two
//! are written as they are.  The walker reads such a stream back into words.
use vstd::prelude::*;

verus! {

/// Marker: the first letter counts up by one, the second and third restart at `'a'`.
pub const ZERO_INDEX_CHAR: u8 = 123;

/// Marker: the second letter counts up by one, the third restarts at `'a'`.
pub const ONES_INDEX_CHAR: u8 = 124;

/// Marker: the third letter counts up by one.
pub const TWOS_INDEX_CHAR: u8 = 125;

/// The letter counters before the first word: `a`, `a`, `h`.
pub open spec fn initial_counters() -> (u8, u8, u8) {
    (97, 97, 104)
}

/// Counter `i` of `c`.
pub open spec fn counter(c: (u8, u8, u8), i: int) -> u8 {
    if i == 0 {
        c.0
    } else if i == 1 {
        c.1
    } else {
        c.2
    }
}

/// Counting counter `i` up to `x`: when it moves, the counters after it
/// restart at `'a'`.
pub open spec fn level_step(c: (u8, u8, u8), i: int, x: u8) -> (u8, u8, u8) {
    if x <= counter(c, i) {
        c
    } else if i == 0 {
        (x, 97, 97)
    } else if i == 1 {
        (c.0, x, 97)
    } else {
        (c.0, c.1, x)
    }
}

/// The markers that count counter `i` up to `x`.
pub open spec fn level_marks(c: (u8, u8, u8), i: int, x: u8) -> Seq<u8> {
    Seq::new((x - counter(c, i)) as nat, |k: int| (ZERO_INDEX_CHAR + i) as u8)
}

/// The counters after the first `i` letters of `w` are counted.
pub open spec fn counters_upto(c: (u8, u8, u8), w: Seq<u8>, i: int) -> (u8, u8, u8)
    decreases i,
{
    if i <= 0 {
        c
    } else {
        level_step(counters_upto(c, w, i - 1), i - 1, w[i - 1])
    }
}

/// A word can be coded after counters `c`: it has five letters, and none of its
/// first three letters lies below the counter that codes it.
pub open spec fn word_ok(c: (u8, u8, u8), w: Seq<u8>) -> bool {
    &&& w.len() >= 5
    &&& forall|i: int| 0 <= i < 3 ==> #[trigger] w[i] >= counter(counters_upto(c, w, i), i)
}

/// The code of one word: markers for its first three letters, then its fourth
/// and fifth letter.
pub open spec fn word_code(c: (u8, u8, u8), w: Seq<u8>) -> Seq<u8> {
    level_marks(c, 0, w[0]) + level_marks(counters_upto(c, w, 1), 1, w[1]) + level_marks(
        counters_upto(c, w, 2),
        2,
        w[2],
    ) + seq![w[3], w[4]]
}

/// Every word of the list can be coded in turn, starting from counters `c`.
pub open spec fn words_ok(words: Seq<Seq<u8>>, c: (u8, u8, u8)) -> bool
    decreases words.len(),
{
    if words.len() == 0 {
        true
    } else {
        word_ok(c, words[0]) && words_ok(words.drop_first(), counters_upto(c, words[0], 3))
    }
}

/// The index-count code of a word list, starting from counters `c`.
pub open spec fn index_stream(words: Seq<Seq<u8>>, c: (u8, u8, u8)) -> Seq<u8>
    decreases words.len(),
{
    if words.len() == 0 {
        Seq::empty()
    } else {
        word_code(c, words[0]) + index_stream(words.drop_first(), counters_upto(c, words[0], 3))
    }
}

/// The counters after a word are its first three letters.
pub proof fn lemma_counters_after(c: (u8, u8, u8), w: Seq<u8>)
    requires
        word_ok(c, w),
    ensures
        counters_upto(c, w, 3) == (w[0], w[1], w[2]),
{
    assert(w[0] >= counter(counters_upto(c, w, 0), 0));
    assert(w[1] >= counter(counters_upto(c, w, 1), 1));
    assert(w[2] >= counter(counters_upto(c, w, 2), 2));
}

/// Codes counter `i` up to `x`, appending the markers to `out`.
fn count_level(c: &mut (u8, u8, u8), i: usize, x: u8, out: &mut Vec<u8>)
    requires
        i < 3,
        x >= counter(*old(c), i as int),
    ensures
        *final(c) == level_step(*old(c), i as int, x),
        final(out)@ == old(out)@ + level_marks(*old(c), i as int, x),
{
    let cur = if i == 0 {
        c.0
    } else if i == 1 {
        c.1
    } else {
        c.2
    };
    let n = x - cur;
    let mark = ZERO_INDEX_CHAR + i as u8;
    let mut k: u8 = 0;
    let ghost out0 = out@;
    while k < n
        invariant
            k <= n,
            out@ =~= out0 + Seq::new(k as nat, |j: int| mark),
        decreases n - k,
    {
        out.push(mark);
        k = k + 1;
    }
    if n > 0 {
        if i == 0 {
            *c = (x, 97, 97);
        } else if i == 1 {
            *c = (c.0, x, 97);
        } else {
            *c = (c.0, c.1, x);
        }
    }
    assert(out@ =~= out0 + level_marks(*old(c), i as int, x));
}

/// Whether a word can be coded after counters `c`.
fn word_codable(c: (u8, u8, u8), w: &Vec<u8>) -> (ok: bool)
    ensures
        ok == word_ok(c, w@),
{
    if w.len() < 5 {
        return false;
    }
    let mut d = c;
    let mut i: usize = 0;
    while i < 3
        invariant
            w.len() >= 5,
            i <= 3,
            d == counters_upto(c, w@, i as int),
            forall|j: int| 0 <= j < i ==> #[trigger] w@[j] >= counter(counters_upto(c, w@, j), j),
        decreases 3 - i,
    {
        let cur = if i == 0 {
            d.0
        } else if i == 1 {
            d.1
        } else {
            d.2
        };
        if w[i] < cur {
            return false;
        }
        if w[i] > cur {
            if i == 0 {
                d = (w[i], 97, 97);
            } else if i == 1 {
                d = (d.0, w[i], 97);
            } else {
                d = (d.0, d.1, w[i]);
            }
        }
        i = i + 1;
    }
    true
}

/// Whether `index_count_srtd_words_3` accepts the list: every word has five
/// letters and its first three letters never lie below the counters.
pub fn words_countable(words: &Vec<Vec<u8>>) -> (ok: bool)
    ensures
        ok == words_ok(words.deep_view(), initial_counters()),
{
    let mut c: (u8, u8, u8) = (97, 97, 104);
    let mut i: usize = 0;
    let ghost ws = words.deep_view();
    proof {
        assert(ws.skip(0) =~= ws);
    }
    while i < words.len()
        invariant
            ws == words.deep_view(),
            i <= words.len(),
            words_ok(ws, initial_counters()) == words_ok(ws.skip(i as int), c),
        decreases words.len() - i,
    {
        let ok = word_codable(c, &words[i]);
        proof {
            assert(ws.skip(i as int)[0] == words[i as int]@);
            assert(ws.skip(i as int).drop_first() =~= ws.skip(i + 1));
        }
        if !ok {
            return false;
        }
        proof {
            lemma_counters_after(c, words[i as int]@);
        }
        c = (words[i][0], words[i][1], words[i][2]);
        i = i + 1;
    }
    true
}

/// The counters after coding the words of `ws` in turn from counters `c`.
pub open spec fn counters_after(ws: Seq<Seq<u8>>, c: (u8, u8, u8)) -> (u8, u8, u8)
    decreases ws.len(),
{
    if ws.len() == 0 {
        c
    } else {
        counters_after(ws.drop_first(), counters_upto(c, ws[0], 3))
    }
}

/// A list followed by one more word can be coded exactly when the list can
/// and the word can after it.
pub proof fn lemma_words_ok_push(ws: Seq<Seq<u8>>, w: Seq<u8>, c: (u8, u8, u8))
    ensures
        words_ok(ws.push(w), c) == (words_ok(ws, c) && word_ok(counters_after(ws, c), w)),
        counters_after(ws.push(w), c) == counters_upto(counters_after(ws, c), w, 3),
    decreases ws.len(),
{
    let wp = ws.push(w);
    let c1 = counters_upto(c, wp[0], 3);
    if ws.len() == 0 {
        assert(wp[0] == w);
        assert(wp.drop_first() =~= Seq::<Seq<u8>>::empty());
        assert(words_ok(wp.drop_first(), c1));
        assert(counters_after(wp.drop_first(), c1) == c1);
        assert(words_ok(wp, c) == word_ok(c, w));
        assert(counters_after(wp, c) == c1);
    } else {
        lemma_words_ok_push(ws.drop_first(), w, counters_upto(c, ws[0], 3));
        assert(wp[0] == ws[0]);
        assert(wp.drop_first() =~= ws.drop_first().push(w));
        assert(words_ok(wp, c) == (word_ok(c, ws[0]) && words_ok(ws.drop_first().push(w), c1)));
        assert(counters_after(wp, c) == counters_after(ws.drop_first().push(w), c1));
    }
}

/// The longest leading part of the list that the index-count coder accepts:
/// where the list cannot be coded, the words before the first word that
/// cannot be coded after them.
pub fn countable_prefix(words: &Vec<Vec<u8>>) -> (n: usize)
    ensures
        n <= words.len(),
        words_ok(words.deep_view().take(n as int), initial_counters()),
        n < words.len() ==> !words_ok(words.deep_view().take(n + 1), initial_counters()),
{
    let ghost ws = words.deep_view();
    let mut c: (u8, u8, u8) = (97, 97, 104);
    let mut i: usize = 0;
    proof {
        assert(ws.take(0) =~= Seq::<Seq<u8>>::empty());
    }
    while i < words.len()
        invariant
            ws == words.deep_view(),
            i <= words.len(),
            words_ok(ws.take(i as int), initial_counters()),
            c == counters_after(ws.take(i as int), initial_counters()),
        decreases words.len() - i,
    {
        let ok = word_codable(c, &words[i]);
        proof {
            assert(ws[i as int] == words[i as int]@);
            assert(ws.take(i + 1) =~= ws.take(i as int).push(ws[i as int]));
            lemma_words_ok_push(ws.take(i as int), ws[i as int], initial_counters());
        }
        if !ok {
            return i;
        }
        proof {
            lemma_counters_after(c, words[i as int]@);
        }
        c = (words[i][0], words[i][1], words[i][2]);
        i = i + 1;
    }
    i
}

/// The index-count code of a word list (`index_count_srtd_words_3`): for each
/// word, markers that count the three letter counters up to its first three
/// letters (a counter that moves restarts the ones after it at `'a'`), then its
/// fourth and fifth letter.
pub fn index_count_words(words: &Vec<Vec<u8>>) -> (out: Vec<u8>)
    requires
        words_ok(words.deep_view(), initial_counters()),
    ensures
        out@ == index_stream(words.deep_view(), initial_counters()),
{
    let mut out: Vec<u8> = Vec::new();
    let mut c: (u8, u8, u8) = (97, 97, 104);
    let mut i: usize = 0;
    let ghost ws = words.deep_view();
    proof {
        assert(ws.skip(0) =~= ws);
    }
    while i < words.len()
        invariant
            ws == words.deep_view(),
            i <= words.len(),
            words_ok(ws.skip(i as int), c),
            out@ + index_stream(ws.skip(i as int), c) == index_stream(ws, initial_counters()),
        decreases words.len() - i,
    {
        let w = &words[i];
        let ghost c0 = c;
        let ghost out0 = out@;
        proof {
            assert(ws.skip(i as int)[0] == w@);
            assert(ws.skip(i as int).drop_first() =~= ws.skip(i + 1));
            assert(w@[0] >= counter(counters_upto(c0, w@, 0), 0));
            assert(w@[1] >= counter(counters_upto(c0, w@, 1), 1));
            assert(w@[2] >= counter(counters_upto(c0, w@, 2), 2));
        }
        count_level(&mut c, 0, w[0], &mut out);
        count_level(&mut c, 1, w[1], &mut out);
        count_level(&mut c, 2, w[2], &mut out);
        out.push(w[3]);
        out.push(w[4]);
        proof {
            assert(out@ =~= out0 + word_code(c0, w@));
            assert(c == counters_upto(c0, w@, 3));
        }
        i = i + 1;
    }
    proof {
        assert(ws.skip(i as int) =~= Seq::<Seq<u8>>::empty());
        assert(out@ + Seq::<u8>::empty() =~= out@);
    }
    out
}

/// The decoder's reader of an index-count stream: the three letter counters,
/// the fourth letter once read, whether a fifth letter is awaited, and how many
/// words have been completed.
#[derive(Clone, Copy, Debug)]
pub struct Walker {
    pub zero: u8,
    pub one: u8,
    pub two: u8,
    pub pending: u8,
    pub awaiting: bool,
    pub count: usize,
}

/// The walker before the first byte.
pub open spec fn initial_walker() -> Walker {
    Walker { zero: 97, one: 97, two: 104, pending: 0, awaiting: false, count: 0 }
}

/// Reading `c` keeps every counter within a byte and the word count within a `usize`.
pub open spec fn walk_char_ok(w: Walker, c: u8) -> bool {
    if w.awaiting {
        w.count < usize::MAX
    } else if c == ZERO_INDEX_CHAR {
        w.zero < 255
    } else if c == ONES_INDEX_CHAR {
        w.one < 255
    } else if c == TWOS_INDEX_CHAR {
        w.two < 255
    } else {
        true
    }
}

/// The walker after reading `c`: an awaited fifth letter completes a word; a
/// marker counts its letter up; any other byte is a fourth letter.
pub open spec fn walk_char(w: Walker, c: u8) -> Walker {
    if w.awaiting {
        Walker { awaiting: false, count: (w.count + 1) as usize, ..w }
    } else if c == ZERO_INDEX_CHAR {
        Walker { zero: (w.zero + 1) as u8, one: 97, two: 97, ..w }
    } else if c == ONES_INDEX_CHAR {
        Walker { one: (w.one + 1) as u8, two: 97, ..w }
    } else if c == TWOS_INDEX_CHAR {
        Walker { two: (w.two + 1) as u8, ..w }
    } else {
        Walker { awaiting: true, pending: c, ..w }
    }
}

/// The word that reading `c` completes, if it completes one.
pub open spec fn completed_word(w: Walker, c: u8) -> Option<Seq<u8>> {
    if w.awaiting {
        Some(seq![w.zero, w.one, w.two, w.pending, c])
    } else {
        None
    }
}

impl Walker {
    pub fn new() -> (w: Walker)
        ensures
            w == initial_walker(),
    {
        Walker { zero: 97, one: 97, two: 104, pending: 0, awaiting: false, count: 0 }
    }

    /// Reads one byte; `None` where a counter or the word count would overflow.
    /// On success also returns the word the byte completes, if any.
    pub fn step(&self, c: u8) -> (r: Option<(Walker, Option<[u8; 5]>)>)
        ensures
            match r {
                None => !walk_char_ok(*self, c),
                Some((w2, done)) => {
                    &&& walk_char_ok(*self, c)
                    &&& w2 == walk_char(*self, c)
                    &&& match done {
                        None => completed_word(*self, c) is None,
                        Some(word) => completed_word(*self, c) == Some(word@),
                    }
                },
            },
    {
        if self.awaiting {
            if self.count == usize::MAX {
                return None;
            }
            let word = [self.zero, self.one, self.two, self.pending, c];
            assert(word@ =~= seq![self.zero, self.one, self.two, self.pending, c]);
            Some((Walker { awaiting: false, count: self.count + 1, ..*self }, Some(word)))
        } else if c == ZERO_INDEX_CHAR {
            if self.zero == 255 {
                return None;
            }
            Some((Walker { zero: self.zero + 1, one: 97, two: 97, ..*self }, None))
        } else if c == ONES_INDEX_CHAR {
            if self.one == 255 {
                return None;
            }
            Some((Walker { one: self.one + 1, two: 97, ..*self }, None))
        } else if c == TWOS_INDEX_CHAR {
            if self.two == 255 {
                return None;
            }
            Some((Walker { two: self.two + 1, ..*self }, None))
        } else {
            Some((Walker { awaiting: true, pending: c, ..*self }, None))
        }
    }
}

/// Reads a whole stream: the final walker and the completed words, `None` if a
/// counter overflows on the way.
pub open spec fn walk_stream(w: Walker, s: Seq<u8>) -> Option<(Walker, Seq<Seq<u8>>)>
    decreases s.len(),
{
    if s.len() == 0 {
        Some((w, Seq::empty()))
    } else if !walk_char_ok(w, s[0]) {
        None
    } else {
        match walk_stream(walk_char(w, s[0]), s.drop_first()) {
            None => None,
            Some((w2, ws)) => Some(
                (
                    w2,
                    match completed_word(w, s[0]) {
                        Some(x) => seq![x] + ws,
                        None => ws,
                    },
                ),
            ),
        }
    }
}

/// A walker at a word boundary with counters `c` and `k` words read.
pub open spec fn at_boundary(w: Walker, c: (u8, u8, u8), k: nat) -> bool {
    &&& w.zero == c.0
    &&& w.one == c.1
    &&& w.two == c.2
    &&& !w.awaiting
    &&& w.count == k
}

pub proof fn lemma_walk_stream_append(w: Walker, a: Seq<u8>, b: Seq<u8>)
    ensures
        walk_stream(w, a + b) == match walk_stream(w, a) {
            None => None,
            Some((w1, x)) => match walk_stream(w1, b) {
                None => None,
                Some((w2, y)) => Some((w2, x + y)),
            },
        },
    decreases a.len(),
{
    if a.len() == 0 {
        assert(a + b =~= b);
        match walk_stream(w, b) {
            None => {},
            Some((w2, y)) => {
                assert(Seq::<Seq<u8>>::empty() + y =~= y);
            },
        }
    } else {
        assert((a + b)[0] == a[0]);
        assert((a + b).drop_first() =~= a.drop_first() + b);
        if walk_char_ok(w, a[0]) {
            lemma_walk_stream_append(walk_char(w, a[0]), a.drop_first(), b);
            match walk_stream(walk_char(w, a[0]), a.drop_first()) {
                None => {},
                Some((w1, x)) => match walk_stream(w1, b) {
                    None => {},
                    Some((w2, y)) => {
                        match completed_word(w, a[0]) {
                            Some(z) => {
                                assert(seq![z] + (x + y) =~= (seq![z] + x) + y);
                            },
                            None => {},
                        }
                    },
                },
            }
        }
    }
}

/// Reading `n` markers for counter `i` from a boundary counts it up by `n`.
pub proof fn lemma_walk_marks(w: Walker, c: (u8, u8, u8), k: nat, i: int, x: u8)
    requires
        0 <= i < 3,
        at_boundary(w, c, k),
        x >= counter(c, i),
    ensures
        ({
            let r = walk_stream(w, level_marks(c, i, x));
            &&& r is Some
            &&& r.unwrap().1 == Seq::<Seq<u8>>::empty()
            &&& at_boundary(r.unwrap().0, level_step(c, i, x), k)
            &&& r.unwrap().0.pending == w.pending
        }),
    decreases x - counter(c, i),
{
    let m = level_marks(c, i, x);
    if x > counter(c, i) {
        let mark = (ZERO_INDEX_CHAR + i) as u8;
        assert(m[0] == mark);
        let w1 = walk_char(w, mark);
        let c1 = if i == 0 {
            ((c.0 + 1) as u8, 97u8, 97u8)
        } else if i == 1 {
            (c.0, (c.1 + 1) as u8, 97u8)
        } else {
            (c.0, c.1, (c.2 + 1) as u8)
        };
        assert(at_boundary(w1, c1, k));
        assert(m.drop_first() =~= level_marks(c1, i, x));
        lemma_walk_marks(w1, c1, k, i, x);
        assert(level_step(c1, i, x) == level_step(c, i, x));
    } else {
        assert(m =~= Seq::<u8>::empty());
    }
}

/// Reading the code of one word from a boundary completes exactly that word's
/// first five letters and stops at the next boundary.
pub proof fn lemma_walk_word(w: Walker, c: (u8, u8, u8), k: nat, word: Seq<u8>)
    requires
        at_boundary(w, c, k),
        k < usize::MAX,
        word_ok(c, word),
        word[3] != ZERO_INDEX_CHAR && word[3] != ONES_INDEX_CHAR && word[3] != TWOS_INDEX_CHAR,
    ensures
        ({
            let r = walk_stream(w, word_code(c, word));
            &&& r is Some
            &&& r.unwrap().1 == seq![word.take(5)]
            &&& at_boundary(r.unwrap().0, counters_upto(c, word, 3), k + 1)
        }),
{
    let c1 = counters_upto(c, word, 1);
    let c2 = counters_upto(c, word, 2);
    let c3 = counters_upto(c, word, 3);
    assert(word[0] >= counter(counters_upto(c, word, 0), 0));
    assert(word[1] >= counter(counters_upto(c, word, 1), 1));
    assert(word[2] >= counter(counters_upto(c, word, 2), 2));
    let m0 = level_marks(c, 0, word[0]);
    let m1 = level_marks(c1, 1, word[1]);
    let m2 = level_marks(c2, 2, word[2]);
    let tail = seq![word[3], word[4]];
    lemma_walk_marks(w, c, k, 0, word[0]);
    let w1 = walk_stream(w, m0).unwrap().0;
    lemma_walk_marks(w1, c1, k, 1, word[1]);
    let w2 = walk_stream(w1, m1).unwrap().0;
    lemma_walk_marks(w2, c2, k, 2, word[2]);
    let w3 = walk_stream(w2, m2).unwrap().0;
    let wa = walk_char(w3, word[3]);
    let wb = walk_char(wa, word[4]);
    assert(tail.drop_first() =~= seq![word[4]]);
    assert(seq![word[4]].drop_first() =~= Seq::<u8>::empty());
    assert(walk_stream(wb, Seq::<u8>::empty()) == Some((wb, Seq::<Seq<u8>>::empty())));
    assert(walk_stream(wa, seq![word[4]]) == Some((wb, seq![seq![w3.zero, w3.one, w3.two, word[3], word[4]]])));
    assert(walk_stream(w3, tail) == Some((wb, seq![seq![w3.zero, w3.one, w3.two, word[3], word[4]]])));
    lemma_counters_after(c, word);
    assert(seq![w3.zero, w3.one, w3.two, word[3], word[4]] =~= word.take(5));
    lemma_walk_stream_append(w2, m2, tail);
    lemma_walk_stream_append(w1, m1, m2 + tail);
    lemma_walk_stream_append(w, m0, m1 + (m2 + tail));
    assert(word_code(c, word) =~= m0 + (m1 + (m2 + tail)));
    assert(Seq::<Seq<u8>>::empty() + (Seq::<Seq<u8>>::empty() + (Seq::<Seq<u8>>::empty() + seq![word.take(5)])) =~= seq![word.take(5)]);
}

/// The fourth letter of every word is not a marker.
pub open spec fn fourth_letters_ok(words: Seq<Seq<u8>>) -> bool {
    forall|j: int|
        0 <= j < words.len() ==> #[trigger] words[j][3] != ZERO_INDEX_CHAR && words[j][3]
            != ONES_INDEX_CHAR && words[j][3] != TWOS_INDEX_CHAR
}

/// The first five letters of each word.
pub open spec fn first_fives(words: Seq<Seq<u8>>) -> Seq<Seq<u8>> {
    Seq::new(words.len(), |j: int| words[j].take(5))
}

pub proof fn lemma_walk_words(w: Walker, c: (u8, u8, u8), k: nat, words: Seq<Seq<u8>>)
    requires
        at_boundary(w, c, k),
        k + words.len() <= usize::MAX,
        words_ok(words, c),
        fourth_letters_ok(words),
    ensures
        ({
            let r = walk_stream(w, index_stream(words, c));
            &&& r is Some
            &&& r.unwrap().1 == first_fives(words)
            &&& r.unwrap().0.count == k + words.len()
            &&& !r.unwrap().0.awaiting
        }),
    decreases words.len(),
{
    if words.len() == 0 {
        assert(first_fives(words) =~= Seq::<Seq<u8>>::empty());
    } else {
        let w0 = words[0];
        let rest = words.drop_first();
        assert(w0[3] != ZERO_INDEX_CHAR && w0[3] != ONES_INDEX_CHAR && w0[3] != TWOS_INDEX_CHAR);
        lemma_walk_word(w, c, k, w0);
        let w1 = walk_stream(w, word_code(c, w0)).unwrap().0;
        assert(fourth_letters_ok(rest)) by {
            assert forall|j: int| 0 <= j < rest.len() implies #[trigger] rest[j][3]
                != ZERO_INDEX_CHAR && rest[j][3] != ONES_INDEX_CHAR && rest[j][3]
                != TWOS_INDEX_CHAR by {
                assert(rest[j] == words[j + 1]);
            }
        }
        lemma_walk_words(w1, counters_upto(c, w0, 3), k + 1, rest);
        lemma_walk_stream_append(w, word_code(c, w0), index_stream(rest, counters_upto(c, w0, 3)));
        assert(seq![w0.take(5)] + first_fives(rest) =~= first_fives(words));
    }
}

/// Index-count round trip: the walker reads the code of a codable word list
/// (no fourth letter a marker) back as the list of the words' first five
/// letters, ending between words.
pub proof fn lemma_index_roundtrip(words: Seq<Seq<u8>>)
    requires
        words_ok(words, initial_counters()),
        fourth_letters_ok(words),
        words.len() <= usize::MAX,
    ensures
        ({
            let r = walk_stream(initial_walker(), index_stream(words, initial_counters()));
            &&& r is Some
            &&& r.unwrap().1 == first_fives(words)
            &&& r.unwrap().0.count == words.len()
        }),
{
    lemma_walk_words(initial_walker(), initial_counters(), 0, words);
}

} // verus!
