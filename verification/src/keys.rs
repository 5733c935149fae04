//! Character-level helpers on key expression strings: locating separators,
//! splitting a suffix into its first chunk and the rest, and the chunk
//! decomposition of a whole key.

use vstd::prelude::*;

verus! {

/// Index of the first occurrence of `c` in `s` at or after `start`.
pub open spec fn first_from(s: Seq<char>, c: char, start: int) -> Option<int>
    decreases s.len() - start,
{
    if start < 0 || start >= s.len() {
        None
    } else if s[start] == c {
        Some(start)
    } else {
        first_from(s, c, start + 1)
    }
}

/// What `first_from` returns, stated without recursion.
pub proof fn lemma_first_from(s: Seq<char>, c: char, start: int)
    requires
        0 <= start,
    ensures
        match first_from(s, c, start) {
            Some(i) => start <= i < s.len() && s[i] == c && forall|j: int|
                start <= j < i ==> s[j] != c,
            None => forall|j: int| start <= j < s.len() ==> s[j] != c,
        },
    decreases s.len() - start,
{
    if start < s.len() && s[start] != c {
        lemma_first_from(s, c, start + 1);
    }
}

/// `first_from` is determined by the positions of `c`.
pub proof fn lemma_first_from_is(s: Seq<char>, c: char, start: int, r: Option<int>)
    requires
        0 <= start,
        match r {
            Some(i) => start <= i < s.len() && s[i] == c && forall|j: int|
                start <= j < i ==> s[j] != c,
            None => forall|j: int| start <= j < s.len() ==> s[j] != c,
        },
    ensures
        first_from(s, c, start) == r,
{
    lemma_first_from(s, c, start);
    match first_from(s, c, start) {
        Some(i) => {
            match r {
                Some(k) => {
                    if i < k {
                        assert(s[i] != c);
                    } else if k < i {
                        assert(s[k] != c);
                    }
                },
                None => {
                    assert(s[i] != c);
                },
            }
        },
        None => {
            match r {
                Some(k) => {
                    assert(s[k] != c);
                },
                None => {},
            }
        },
    }
}

/// A chunk as stored in a resource: non-empty, with `/` at most in front.
pub open spec fn is_chunk(c: Seq<char>) -> bool {
    &&& c.len() > 0
    &&& forall|j: int| 1 <= j < c.len() ==> c[j] != '/'
}

/// Position where the first chunk of `s` ends: the first `/` after the
/// first character, or the end of `s`.
pub open spec fn chunk_end(s: Seq<char>) -> int {
    match first_from(s, '/', 1) {
        Some(i) => i,
        None => s.len() as int,
    }
}

/// The first chunk of `s`.
pub open spec fn chunk_of(s: Seq<char>) -> Seq<char> {
    s.take(chunk_end(s))
}

/// What follows the first chunk of `s`: empty, or starting with `/`.
pub open spec fn rest_of(s: Seq<char>) -> Seq<char> {
    s.skip(chunk_end(s))
}

/// Empty, or starting with a `/`: where a chunk boundary falls.
pub open spec fn at_boundary(s: Seq<char>) -> bool {
    s.len() == 0 || s[0] == '/'
}

pub proof fn lemma_chunk_split(s: Seq<char>)
    requires
        s.len() > 0,
    ensures
        1 <= chunk_end(s) <= s.len(),
        chunk_of(s) + rest_of(s) == s,
        is_chunk(chunk_of(s)),
        at_boundary(rest_of(s)),
        rest_of(s).len() < s.len(),
        chunk_of(s)[0] == s[0],
{
    lemma_first_from(s, '/', 1);
    assert(chunk_of(s) + rest_of(s) =~= s);
}

/// The chunks of a key, from the first one on.
pub open spec fn chunks(s: Seq<char>) -> Seq<Seq<char>>
    decreases s.len(),
{
    if s.len() == 0 {
        seq![]
    } else {
        proof {
            lemma_chunk_split(s);
        }
        seq![chunk_of(s)] + chunks(rest_of(s))
    }
}

/// A key is the concatenation of its chunks.
pub proof fn lemma_chunks_flatten(s: Seq<char>)
    ensures
        chunks(s).flatten() == s,
    decreases s.len(),
{
    if s.len() > 0 {
        lemma_chunk_split(s);
        lemma_chunks_flatten(rest_of(s));
        let cs = chunks(s);
        assert(cs.drop_first() =~= chunks(rest_of(s)));
    }
}

/// Every chunk of a key is a chunk; all but the first start with `/`.
pub proof fn lemma_chunks_shape(s: Seq<char>)
    ensures
        forall|k: int| 0 <= k < chunks(s).len() ==> is_chunk(#[trigger] chunks(s)[k]),
        forall|k: int| 1 <= k < chunks(s).len() ==> #[trigger] chunks(s)[k][0] == '/',
        at_boundary(s) ==> forall|k: int| 0 <= k < chunks(s).len() ==> #[trigger] chunks(s)[k][0]
            == '/',
        chunks(s).len() > 0 ==> chunks(s)[0][0] == s[0],
    decreases s.len(),
{
    if s.len() > 0 {
        lemma_chunk_split(s);
        lemma_chunks_shape(rest_of(s));
        let r = rest_of(s);
        assert forall|k: int| 1 <= k < chunks(s).len() implies #[trigger] chunks(s)[k][0] == '/' by {
            assert(chunks(s)[k] == chunks(r)[k - 1]);
            if k == 1 {
                assert(r.len() > 0);
            }
        }
    }
}

/// A single chunk is its own decomposition.
pub proof fn lemma_chunks_single(c: Seq<char>)
    requires
        is_chunk(c),
    ensures
        chunks(c) == seq![c],
        chunk_of(c) == c,
        rest_of(c).len() == 0,
{
    lemma_first_from_is(c, '/', 1, None);
    assert(chunk_of(c) =~= c);
    assert(rest_of(c) =~= Seq::<char>::empty());
    assert(chunks(rest_of(c)) =~= Seq::<Seq<char>>::empty());
    assert(chunks(c) =~= seq![c]);
}

/// Splitting at a chunk boundary splits the decomposition.
pub proof fn lemma_chunks_append(a: Seq<char>, b: Seq<char>)
    requires
        at_boundary(b),
    ensures
        chunks(a + b) == chunks(a) + chunks(b),
    decreases a.len(),
{
    if a.len() == 0 {
        assert(a + b =~= b);
        assert(chunks(a) + chunks(b) =~= chunks(b));
    } else if b.len() == 0 {
        assert(a + b =~= a);
        assert(chunks(a) + chunks(b) =~= chunks(a));
    } else {
        let ab = a + b;
        lemma_first_from(a, '/', 1);
        lemma_chunk_split(a);
        lemma_chunk_split(ab);
        match first_from(a, '/', 1) {
            Some(i) => {
                lemma_first_from_is(ab, '/', 1, Some(i));
                assert(chunk_of(ab) =~= chunk_of(a));
                assert(rest_of(ab) =~= rest_of(a) + b);
                lemma_chunks_append(rest_of(a), b);
                assert(chunks(ab) =~= seq![chunk_of(a)] + (chunks(rest_of(a)) + chunks(b)));
                assert(chunks(a) + chunks(b) =~= seq![chunk_of(a)] + chunks(rest_of(a)) + chunks(
                    b,
                ));
            },
            None => {
                lemma_first_from_is(ab, '/', 1, Some(a.len() as int));
                assert(chunk_of(ab) =~= a);
                assert(rest_of(ab) =~= b);
                assert(chunk_of(a) =~= a);
                assert(rest_of(a) =~= Seq::<char>::empty());
                assert(chunks(rest_of(a)) =~= Seq::<Seq<char>>::empty());
                assert(chunks(a) =~= seq![a]);
            },
        }
    }
}

/// Finds the first `c` in `s` at character position `start` or later.
pub fn find_char_from(s: &str, c: char, start: usize) -> (r: Option<usize>)
    ensures
        match r {
            Some(i) => first_from(s@, c, start as int) == Some(i as int),
            None => first_from(s@, c, start as int) is None,
        },
{
    let n = s.unicode_len();
    if start >= n {
        return None;
    }
    let mut i = start;
    while i < n
        invariant
            n == s@.len(),
            start <= i <= n,
            first_from(s@, c, start as int) == first_from(s@, c, i as int),
        decreases n - i,
    {
        if s.get_char(i) == c {
            return Some(i);
        }
        i = i + 1;
    }
    None
}

/// Whether `c` occurs in `s`.
pub fn contains_char(s: &str, c: char) -> (r: bool)
    ensures
        r == s@.contains(c),
{
    let r = find_char_from(s, c, 0);
    proof {
        lemma_first_from(s@, c, 0);
        if r is None {
            assert forall|j: int| 0 <= j < s@.len() implies s@[j] != c by {}
        } else {
            let i = r->0 as int;
            assert(s@[i] == c);
        }
    }
    r.is_some()
}

/// Splits `s` into its first chunk and what follows it.
pub fn split_chunk(s: &str) -> (r: (&str, &str))
    ensures
        r.0@ == chunk_of(s@),
        r.1@ == rest_of(s@),
{
    let n = s.unicode_len();
    let e = match find_char_from(s, '/', 1) {
        Some(i) => i,
        None => n,
    };
    proof {
        lemma_first_from(s@, '/', 1);
    }
    (s.substring_char(0, e), s.substring_char(e, n))
}

} // verus!
