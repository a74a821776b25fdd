//! Splitting a line of text into words.
//!
//! A line is cut at every separator byte. Nothing is merged or skipped: two
//! separators in a row enclose an empty word, and a line without separators is
//! one word. Each word therefore starts one byte after the previous word ends,
//! which is what lets a scanner report offsets by adding up word lengths.

use vstd::prelude::*;

verus! {

/// The length of the first word of `s`: the index of its first separator, or
/// the length of `s` if it holds none.
pub open spec fn word_len(s: Seq<u8>, seps: Seq<u8>) -> int
    decreases s.len(),
{
    if s.len() == 0 || seps.contains(s[0]) {
        0
    } else {
        1 + word_len(s.skip(1), seps)
    }
}

/// The words of `s`, in order, empty words included.
pub open spec fn split(s: Seq<u8>, seps: Seq<u8>) -> Seq<Seq<u8>>
    decreases s.len(),
{
    let n = word_len(s, seps);
    if 0 <= n < s.len() {
        seq![s.take(n)] + split(s.skip(n + 1), seps)
    } else {
        seq![s]
    }
}

/// Where word `i` starts when every earlier word is followed by exactly one
/// separator byte.
pub open spec fn word_offset(words: Seq<Seq<u8>>, i: int) -> int
    decreases i,
{
    if i <= 0 {
        0
    } else {
        word_offset(words, i - 1) + words[i - 1].len() + 1
    }
}

/// The first word ends at the first separator and holds none itself.
pub proof fn lemma_word_len(s: Seq<u8>, seps: Seq<u8>)
    ensures
        0 <= word_len(s, seps) <= s.len(),
        word_len(s, seps) < s.len() ==> seps.contains(s[word_len(s, seps)]),
        forall|j: int| 0 <= j < word_len(s, seps) ==> !seps.contains(#[trigger] s[j]),
    decreases s.len(),
{
    if s.len() == 0 || seps.contains(s[0]) {
    } else {
        let t = s.skip(1);
        lemma_word_len(t, seps);
        assert forall|j: int| 0 <= j < word_len(s, seps) implies !seps.contains(
            #[trigger] s[j],
        ) by {
            if j > 0 {
                assert(t[j - 1] == s[j]);
            }
        }
    }
}

/// A run of `n` bytes without a separator that ends at a separator, or at the
/// end of `s`, is the first word of `s`.
pub proof fn lemma_word_len_is(s: Seq<u8>, seps: Seq<u8>, n: int)
    requires
        0 <= n <= s.len(),
        n < s.len() ==> seps.contains(s[n]),
        forall|j: int| 0 <= j < n ==> !seps.contains(#[trigger] s[j]),
    ensures
        word_len(s, seps) == n,
    decreases n,
{
    if n > 0 {
        let t = s.skip(1);
        assert forall|j: int| 0 <= j < n - 1 implies !seps.contains(#[trigger] t[j]) by {
            assert(t[j] == s[j + 1]);
        }
        lemma_word_len_is(t, seps, n - 1);
    }
}

/// A line always has at least one word.
pub proof fn lemma_split_nonempty(s: Seq<u8>, seps: Seq<u8>)
    ensures
        split(s, seps).len() >= 1,
{
}

/// The words lie in the line where `word_offset` says they do, each of them
/// enclosed by separators or by the ends of the line, and none of them holds
/// a separator.
pub proof fn lemma_split_layout(s: Seq<u8>, seps: Seq<u8>, i: int)
    requires
        0 <= i < split(s, seps).len(),
    ensures
        0 <= word_offset(split(s, seps), i),
        word_offset(split(s, seps), i) + split(s, seps)[i].len() <= s.len(),
        split(s, seps)[i] == s.subrange(
            word_offset(split(s, seps), i),
            word_offset(split(s, seps), i) + split(s, seps)[i].len(),
        ),
        i > 0 ==> seps.contains(s[word_offset(split(s, seps), i) - 1]),
        i + 1 < split(s, seps).len() ==> word_offset(split(s, seps), i) + split(
            s,
            seps,
        )[i].len() < s.len() && seps.contains(
            s[word_offset(split(s, seps), i) + split(s, seps)[i].len()],
        ),
        i + 1 == split(s, seps).len() ==> word_offset(split(s, seps), i) + split(
            s,
            seps,
        )[i].len() == s.len(),
        forall|j: int|
            0 <= j < split(s, seps)[i].len() ==> !seps.contains(#[trigger] split(s, seps)[i][j]),
    decreases i,
{
    let words = split(s, seps);
    let n = word_len(s, seps);
    lemma_word_len(s, seps);
    if n < s.len() {
        let rest = s.skip(n + 1);
        let tail = split(rest, seps);
        assert(words =~= seq![s.take(n)] + tail);
        if i == 0 {
            assert(words[0] =~= s.subrange(0, n));
            assert forall|j: int| 0 <= j < words[0].len() implies !seps.contains(
                #[trigger] words[0][j],
            ) by {
                assert(words[0][j] == s[j]);
            }
        } else {
            lemma_split_layout(rest, seps, i - 1);
            lemma_word_offset_shift(s.take(n), tail, i - 1);
            let a = word_offset(tail, i - 1);
            assert(words[i] == tail[i - 1]);
            assert(word_offset(words, i) == a + n + 1);
            assert(rest.subrange(a, a + tail[i - 1].len()) =~= s.subrange(
                a + n + 1,
                a + n + 1 + tail[i - 1].len(),
            ));
            if i - 1 > 0 {
                lemma_word_offset_monotonic(tail, 0, i - 1);
                assert(rest[a - 1] == s[a + n]);
            }
            if i + 1 < words.len() {
                assert(rest[a + tail[i - 1].len()] == s[a + n + 1 + tail[i - 1].len()]);
            }
        }
    } else {
        assert(words =~= seq![s]);
        assert(s.subrange(0, s.len() as int) =~= s);
        assert forall|j: int| 0 <= j < words[0].len() implies !seps.contains(
            #[trigger] words[0][j],
        ) by {
        }
    }
}

/// Putting a word in front moves every later word by its length and one
/// separator.
pub proof fn lemma_word_offset_shift(first: Seq<u8>, tail: Seq<Seq<u8>>, i: int)
    requires
        0 <= i <= tail.len(),
    ensures
        word_offset(seq![first] + tail, i + 1) == word_offset(tail, i) + first.len() + 1,
    decreases i,
{
    let words = seq![first] + tail;
    if i > 0 {
        lemma_word_offset_shift(first, tail, i - 1);
        assert(words[i] == tail[i - 1]);
    } else {
        assert(words[0] == first);
        assert(word_offset(words, 0) == 0);
    }
}

/// Word offsets depend only on the words before them.
pub proof fn lemma_word_offset_prefix(a: Seq<Seq<u8>>, b: Seq<Seq<u8>>, i: int)
    requires
        0 <= i <= a.len(),
        i <= b.len(),
        forall|j: int| 0 <= j < i ==> a[j].len() == b[j].len(),
    ensures
        word_offset(a, i) == word_offset(b, i),
    decreases i,
{
    if i > 0 {
        lemma_word_offset_prefix(a, b, i - 1);
    }
}

/// Offsets grow with the index.
pub proof fn lemma_word_offset_monotonic(words: Seq<Seq<u8>>, i: int, j: int)
    requires
        0 <= i <= j,
    ensures
        word_offset(words, i) <= word_offset(words, j),
        i < j ==> word_offset(words, i) + words[i].len() < word_offset(words, j),
    decreases j - i,
{
    if i < j {
        lemma_word_offset_monotonic(words, i, j - 1);
    }
}

/// Walking along the words: if word `k` of a line starts at `from`, then it
/// ends where the first word of the rest of the line ends, and word `k + 1`,
/// if there is one, starts one byte after that.
pub proof fn lemma_split_step(s: Seq<u8>, seps: Seq<u8>, from: int, k: int)
    requires
        0 <= from <= s.len(),
        0 <= k <= split(s, seps).len(),
        split(s, seps).skip(k) =~= split(s.skip(from), seps),
    ensures
        0 <= word_len(s.skip(from), seps) <= s.len() - from,
        k < split(s, seps).len(),
        split(s, seps)[k] == s.subrange(from, from + word_len(s.skip(from), seps)),
        from + word_len(s.skip(from), seps) < s.len() ==> k + 1 < split(s, seps).len() && split(
            s,
            seps,
        ).skip(k + 1) =~= split(s.skip(from + word_len(s.skip(from), seps) + 1), seps),
        from + word_len(s.skip(from), seps) == s.len() ==> k + 1 == split(s, seps).len(),
{
    let words = split(s, seps);
    let rest = s.skip(from);
    let n = word_len(rest, seps);
    lemma_word_len(rest, seps);
    lemma_split_nonempty(rest, seps);
    assert(words.skip(k).len() == split(rest, seps).len());
    assert(words.skip(k)[0] == words[k]);
    if n < rest.len() {
        let tail = split(rest.skip(n + 1), seps);
        assert(split(rest, seps) =~= seq![rest.take(n)] + tail);
        assert(rest.take(n) =~= s.subrange(from, from + n));
        assert(rest.skip(n + 1) =~= s.skip(from + n + 1));
        assert(words.skip(k + 1) =~= words.skip(k).skip(1));
        assert(split(rest, seps).skip(1) =~= tail);
    } else {
        assert(split(rest, seps) =~= seq![rest]);
        assert(rest =~= s.subrange(from, from + n));
    }
}

/// The first word of a line starts at its first byte.
pub proof fn lemma_split_start(s: Seq<u8>, seps: Seq<u8>)
    ensures
        split(s, seps).skip(0) =~= split(s.skip(0), seps),
{
    assert(s.skip(0) =~= s);
}

/// Joining two lines with a separator joins their lists of words.
pub proof fn lemma_split_concat(a: Seq<u8>, sep: u8, b: Seq<u8>, seps: Seq<u8>)
    requires
        seps.contains(sep),
    ensures
        split(a + seq![sep] + b, seps) =~= split(a, seps) + split(b, seps),
    decreases a.len(),
{
    let s = a + seq![sep] + b;
    let n = word_len(a, seps);
    lemma_word_len(a, seps);
    assert forall|j: int| 0 <= j < n implies !seps.contains(#[trigger] s[j]) by {
        assert(s[j] == a[j]);
    }
    if n < a.len() {
        assert(s[n] == a[n]);
        lemma_word_len_is(s, seps, n);
        assert(s.take(n) =~= a.take(n));
        assert(s.skip(n + 1) =~= a.skip(n + 1) + seq![sep] + b);
        lemma_split_concat(a.skip(n + 1), sep, b, seps);
    } else {
        assert(s[n] == sep);
        lemma_word_len_is(s, seps, n);
        assert(s.take(n) =~= a);
        assert(s.skip(n + 1) =~= b);
    }
}

/// A line that does not hold the separator is a single word.
pub proof fn lemma_split_single(s: Seq<u8>, sep: u8)
    requires
        !s.contains(sep),
    ensures
        split(s, seq![sep]) =~= seq![s],
{
    let seps = seq![sep];
    assert forall|j: int| 0 <= j < s.len() implies !seps.contains(#[trigger] s[j]) by {
        if seps.contains(s[j]) {
            assert(s[j] == sep);
            assert(s.contains(sep));
        }
    }
    lemma_word_len_is(s, seps, s.len() as int);
}

/// One byte after the last word ends the offset that a further word would
/// have.
pub proof fn lemma_word_offset_end(s: Seq<u8>, seps: Seq<u8>)
    ensures
        word_offset(split(s, seps), split(s, seps).len() as int) == s.len() + 1,
{
    let words = split(s, seps);
    lemma_split_layout(s, seps, words.len() - 1);
}

/// In a list of words that is made of two lists, the words of the second
/// list follow the end of the first.
pub proof fn lemma_word_offset_concat(a: Seq<Seq<u8>>, b: Seq<Seq<u8>>, j: int)
    requires
        0 <= j <= b.len(),
    ensures
        word_offset(a + b, a.len() + j) == word_offset(a, a.len() as int) + word_offset(b, j),
    decreases j,
{
    if j > 0 {
        lemma_word_offset_concat(a, b, j - 1);
        assert((a + b)[a.len() + j - 1] == b[j - 1]);
    } else {
        lemma_word_offset_prefix(a + b, a, a.len() as int);
    }
}

/// Whether `b` is one of the separator bytes.
pub fn is_separator(b: u8, seps: &[u8]) -> (r: bool)
    ensures
        r == seps@.contains(b),
{
    let mut i: usize = 0;
    while i < seps.len()
        invariant
            0 <= i <= seps.len(),
            forall|j: int| 0 <= j < i ==> seps@[j] != b,
        decreases seps.len() - i,
    {
        if seps[i] == b {
            return true;
        }
        i = i + 1;
    }
    false
}

/// The length of the word that starts at `from`.
pub fn scan_word(s: &[u8], from: usize, seps: &[u8]) -> (n: usize)
    requires
        from <= s.len(),
    ensures
        n == word_len(s@.skip(from as int), seps@),
        from + n <= s.len(),
{
    let ghost rest = s@.skip(from as int);
    let mut end: usize = from;
    while end < s.len() && !is_separator(s[end], seps)
        invariant
            from <= end <= s.len(),
            rest == s@.skip(from as int),
            forall|j: int| 0 <= j < end - from ==> !seps@.contains(#[trigger] rest[j]),
        decreases s.len() - end,
    {
        proof {
            assert(rest[end - from] == s@[end as int]);
        }
        end = end + 1;
    }
    proof {
        if end < s.len() {
            assert(rest[end - from] == s@[end as int]);
        }
        lemma_word_len_is(rest, seps@, end - from);
    }
    end - from
}

} // verus!
