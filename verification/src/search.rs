use vstd::prelude::*;

verus! {

/// `pat` occurs in `s` starting at index `i`.
pub open spec fn occurs_at(s: Seq<u8>, pat: Seq<u8>, i: int) -> bool {
    0 <= i && i + pat.len() <= s.len() && s.subrange(i, i + pat.len() as int) == pat
}

/// `pat` occurs somewhere in `s`.
pub open spec fn has_match(s: Seq<u8>, pat: Seq<u8>) -> bool {
    exists|i: int| occurs_at(s, pat, i)
}

/// `i` is the first index at which `pat` occurs in `s`.
pub open spec fn is_first_match(s: Seq<u8>, pat: Seq<u8>, i: int) -> bool {
    occurs_at(s, pat, i) && forall|j: int| 0 <= j < i ==> !occurs_at(s, pat, j)
}

/// The first index at which `pat` occurs in `s` (meaningful only under `has_match`).
pub open spec fn first_match(s: Seq<u8>, pat: Seq<u8>) -> int {
    choose|i: int| is_first_match(s, pat, i)
}

proof fn lemma_exists_first_aux(s: Seq<u8>, pat: Seq<u8>, i: int)
    requires
        occurs_at(s, pat, i),
    ensures
        exists|k: int| is_first_match(s, pat, k),
    decreases i,
{
    if exists|j: int| 0 <= j < i && occurs_at(s, pat, j) {
        let j = choose|j: int| 0 <= j < i && occurs_at(s, pat, j);
        lemma_exists_first_aux(s, pat, j);
    } else {
        assert(is_first_match(s, pat, i));
    }
}

/// A pattern that occurs at all occurs a first time, and `first_match` names
/// that position.
pub proof fn lemma_first_match(s: Seq<u8>, pat: Seq<u8>)
    requires
        has_match(s, pat),
    ensures
        is_first_match(s, pat, first_match(s, pat)),
{
    let i = choose|i: int| occurs_at(s, pat, i);
    lemma_exists_first_aux(s, pat, i);
}

/// There is at most one first occurrence.
pub proof fn lemma_first_match_unique(s: Seq<u8>, pat: Seq<u8>, i: int, j: int)
    requires
        is_first_match(s, pat, i),
        is_first_match(s, pat, j),
    ensures
        i == j,
{
}

/// An occurrence within a window of the source is an occurrence of the source.
pub proof fn lemma_occurs_in_window(input: Seq<u8>, stop: Seq<u8>, a: int, b: int, j: int)
    requires
        0 <= a <= b <= input.len(),
        0 <= j,
        a + j + stop.len() <= b,
    ensures
        occurs_at(input.subrange(a, b), stop, j) == occurs_at(input, stop, a + j),
{
    assert(input.subrange(a, b).subrange(j, j + stop.len() as int) =~= input.subrange(
        a + j,
        a + j + stop.len() as int,
    ));
}

/// Whether `pat` occurs in `hay` at position `i`, checked byte by byte.
pub fn match_at(hay: &[u8], pat: &[u8], i: usize) -> (r: bool)
    requires
        i + pat@.len() <= hay@.len(),
    ensures
        r == occurs_at(hay@, pat@, i as int),
{
    let hay_len: usize = hay.len();
    let pat_len: usize = pat.len();
    let mut j: usize = 0;
    while j < pat_len
        invariant
            hay_len == hay@.len(),
            pat_len == pat@.len(),
            i + pat@.len() <= hay@.len(),
            0 <= j <= pat@.len(),
            forall|k: int| 0 <= k < j ==> hay@[i + k] == pat@[k],
        decreases pat@.len() - j,
    {
        if hay[i + j] != pat[j] {
            assert(hay@.subrange(i as int, i + pat@.len()) != pat@) by {
                assert(hay@.subrange(i as int, i + pat@.len())[j as int] != pat@[j as int]);
            }
            return false;
        }
        j += 1;
    }
    assert(hay@.subrange(i as int, i + pat@.len()) =~= pat@);
    true
}

/// The position of the first occurrence of `pat` in `hay`, if there is one.
pub fn find_stopper(hay: &[u8], pat: &[u8]) -> (r: Option<usize>)
    requires
        pat@.len() >= 1,
    ensures
        match r {
            Some(i) => is_first_match(hay@, pat@, i as int),
            None => !has_match(hay@, pat@),
        },
{
    if hay.len() < pat.len() {
        assert(forall|i: int| !occurs_at(hay@, pat@, i));
        return None;
    }
    let last: usize = hay.len() - pat.len();
    let mut i: usize = 0;
    while i <= last
        invariant
            pat@.len() >= 1,
            last == hay@.len() - pat@.len(),
            last < usize::MAX,
            0 <= i <= last + 1,
            forall|j: int| 0 <= j < i ==> !occurs_at(hay@, pat@, j),
        decreases last + 1 - i,
    {
        if match_at(hay, pat, i) {
            return Some(i);
        }
        i += 1;
    }
    assert forall|j: int| !occurs_at(hay@, pat@, j) by {
        if 0 <= j && j + pat@.len() <= hay@.len() {
            assert(j <= last);
            assert(!occurs_at(hay@, pat@, j));
        }
    }
    None
}

/// Whether the last `k` bytes of `t` equal the first `k` bytes of `pat`.
pub fn suffix_is_prefix(t: &[u8], pat: &[u8], k: usize) -> (r: bool)
    requires
        k <= t@.len(),
        k <= pat@.len(),
    ensures
        r == (t@.subrange(t@.len() - k, t@.len() as int) == pat@.subrange(0, k as int)),
{
    let base: usize = t.len() - k;
    let t_len: usize = t.len();
    let mut j: usize = 0;
    while j < k
        invariant
            t_len == t@.len(),
            k <= t@.len(),
            k <= pat@.len(),
            base == t@.len() - k,
            0 <= j <= k,
            forall|idx: int| 0 <= idx < j ==> t@[base + idx] == pat@[idx],
        decreases k - j,
    {
        if t[base + j] != pat[j] {
            assert(t@.subrange(t@.len() - k, t@.len() as int) != pat@.subrange(0, k as int)) by {
                assert(t@.subrange(t@.len() - k, t@.len() as int)[j as int] != pat@.subrange(
                    0,
                    k as int,
                )[j as int]);
            }
            return false;
        }
        j += 1;
    }
    assert(t@.subrange(t@.len() - k, t@.len() as int) =~= pat@.subrange(0, k as int));
    true
}

/// The length of the longest suffix of `t` that is a proper prefix of `pat`.
pub fn longest_prefix_suffix(t: &[u8], pat: &[u8]) -> (p: usize)
    requires
        pat@.len() >= 1,
    ensures
        p <= t@.len(),
        p < pat@.len(),
        t@.subrange(t@.len() - p, t@.len() as int) == pat@.subrange(0, p as int),
        forall|q: int|
            p < q < pat@.len() && q <= t@.len() ==> t@.subrange(t@.len() - q, t@.len() as int)
                != pat@.subrange(0, q),
{
    let mut k: usize = if t.len() < pat.len() - 1 {
        t.len()
    } else {
        pat.len() - 1
    };
    loop
        invariant
            pat@.len() >= 1,
            0 <= k <= t@.len(),
            k < pat@.len(),
            forall|q: int|
                k < q < pat@.len() && q <= t@.len() ==> t@.subrange(t@.len() - q, t@.len() as int)
                    != pat@.subrange(0, q),
        decreases k,
    {
        if suffix_is_prefix(t, pat, k) {
            return k;
        }
        assert(k >= 1) by {
            assert(t@.subrange(t@.len() - 0, t@.len() as int) =~= pat@.subrange(0, 0));
        }
        k = k - 1;
    }
}

/// The position of the first occurrence of byte `b` in `hay`, if any.
pub fn find_byte(hay: &[u8], b: u8) -> (r: Option<usize>)
    ensures
        match r {
            Some(i) => 0 <= i < hay@.len() && hay@[i as int] == b && forall|j: int|
                0 <= j < i ==> hay@[j] != b,
            None => forall|j: int| 0 <= j < hay@.len() ==> hay@[j] != b,
        },
{
    let mut i: usize = 0;
    while i < hay.len()
        invariant
            0 <= i <= hay@.len(),
            forall|j: int| 0 <= j < i ==> hay@[j] != b,
        decreases hay@.len() - i,
    {
        if hay[i] == b {
            return Some(i);
        }
        i += 1;
    }
    None
}

/// Append every byte of `src` to `dst`.
pub fn append_slice(dst: &mut Vec<u8>, src: &[u8])
    ensures
        final(dst)@ == old(dst)@ + src@,
{
    let mut i: usize = 0;
    while i < src.len()
        invariant
            0 <= i <= src@.len(),
            dst@ == old(dst)@ + src@.subrange(0, i as int),
        decreases src@.len() - i,
    {
        dst.push(src[i]);
        assert(dst@ =~= old(dst)@ + src@.subrange(0, i + 1));
        i += 1;
    }
    assert(dst@ =~= old(dst)@ + src@);
}

} // verus!
