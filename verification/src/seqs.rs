//! Byte-sequence search: where a pattern occurs in a byte string, and the
//! first place it does at or after a given position.

use vstd::prelude::*;

verus! {

/// `needle` stands in `hay` at position `i`.
pub open spec fn occurs_at(hay: Seq<u8>, needle: Seq<u8>, i: int) -> bool {
    0 <= i && i + needle.len() <= hay.len() && hay.subrange(i, i + needle.len()) == needle
}

/// `needle` stands somewhere in `hay`.
pub open spec fn contains(hay: Seq<u8>, needle: Seq<u8>) -> bool {
    exists|i: int| occurs_at(hay, needle, i)
}

/// The first position at or after `from` where `needle` stands in `hay`.
pub open spec fn find_from(hay: Seq<u8>, needle: Seq<u8>, from: int) -> Option<int>
    decreases hay.len() - from,
{
    if from < 0 || from >= hay.len() || from + needle.len() > hay.len() {
        None
    } else if occurs_at(hay, needle, from) {
        Some(from)
    } else {
        find_from(hay, needle, from + 1)
    }
}

/// A search result in positions of `usize`, read as integers.
pub open spec fn position(r: Option<usize>) -> Option<int> {
    match r {
        Some(p) => Some(p as int),
        None => None,
    }
}

/// What `find_from` returns: the least occurrence at or after `from`, or none.
#[verifier::spinoff_prover]
pub proof fn lemma_find_from(hay: Seq<u8>, needle: Seq<u8>, from: int)
    requires
        from >= 0,
        needle.len() > 0,
    ensures
        match find_from(hay, needle, from) {
            Some(p) => from <= p && occurs_at(hay, needle, p) && forall|j: int|
                from <= j < p ==> !occurs_at(hay, needle, j),
            None => forall|j: int| from <= j ==> !occurs_at(hay, needle, j),
        },
    decreases hay.len() - from,
{
    if from >= hay.len() || from + needle.len() > hay.len() {
    } else if occurs_at(hay, needle, from) {
    } else {
        lemma_find_from(hay, needle, from + 1);
        assert forall|j: int| from <= j && !(from + 1 <= j) implies !occurs_at(hay, needle, j) by {}
    }
}

/// The first occurrence at or after `from` is found.
#[verifier::spinoff_prover]
pub proof fn lemma_find_from_first(hay: Seq<u8>, needle: Seq<u8>, from: int, p: int)
    requires
        0 <= from <= p,
        needle.len() > 0,
        occurs_at(hay, needle, p),
        forall|j: int| from <= j < p ==> !occurs_at(hay, needle, j),
    ensures
        find_from(hay, needle, from) == Some(p),
{
    lemma_find_from(hay, needle, from);
}

/// Without an occurrence at or after `from`, nothing is found.
#[verifier::spinoff_prover]
pub proof fn lemma_find_from_none(hay: Seq<u8>, needle: Seq<u8>, from: int)
    requires
        from >= 0,
        needle.len() > 0,
        forall|j: int| from <= j ==> !occurs_at(hay, needle, j),
    ensures
        find_from(hay, needle, from) is None,
{
    lemma_find_from(hay, needle, from);
}

/// Every byte of `s` that equals `c1` is followed, within `s`, by a byte
/// other than `c2`, from position `from` on.
pub open spec fn pair_free(s: Seq<u8>, c1: u8, c2: u8, from: int) -> bool {
    forall|k: int|
        from <= k < s.len() && #[trigger] s[k] == c1 ==> k + 1 < s.len() && s[k + 1] != c2
}

/// No byte of `s` equals `c`.
pub open spec fn lacks(s: Seq<u8>, c: u8) -> bool {
    forall|k: int| 0 <= k < s.len() ==> #[trigger] s[k] != c
}

/// A byte that is not one of `needle`'s.
pub open spec fn foreign(needle: Seq<u8>, c: u8) -> bool {
    forall|k: int| 0 <= k < needle.len() ==> #[trigger] needle[k] != c
}

/// Occurrences in a part of a sequence are occurrences in the part.
#[verifier::spinoff_prover]
pub proof fn lemma_occurs_in_part(f: Seq<u8>, o: int, d: Seq<u8>, m: Seq<u8>, j: int)
    requires
        0 <= o,
        o + d.len() <= f.len(),
        f.subrange(o, o + d.len()) == d,
        o <= j,
        j + m.len() <= o + d.len(),
    ensures
        occurs_at(f, m, j) == occurs_at(d, m, j - o),
{
    assert(f.subrange(j, j + m.len()) =~= d.subrange(j - o, j - o + m.len()));
}

/// The first occurrence in a part of a sequence, found from within the part,
/// is the first occurrence in the sequence from there.
#[verifier::spinoff_prover]
pub proof fn lemma_find_in_part(f: Seq<u8>, o: int, d: Seq<u8>, m: Seq<u8>, from: int, k: int)
    requires
        0 <= o,
        0 <= from,
        m.len() > 0,
        o + d.len() <= f.len(),
        f.subrange(o, o + d.len()) == d,
        find_from(d, m, from) == Some(k),
    ensures
        find_from(f, m, o + from) == Some(o + k),
{
    lemma_find_from(d, m, from);
    lemma_occurs_in_part(f, o, d, m, o + k);
    assert forall|j: int| o + from <= j < o + k implies !occurs_at(f, m, j) by {
        lemma_occurs_in_part(f, o, d, m, j);
    }
    lemma_find_from_first(f, m, o + from, o + k);
}

/// A sequence lacking one of the needle's bytes does not contain it.
#[verifier::spinoff_prover]
pub proof fn lemma_absent_lacking(s: Seq<u8>, m: Seq<u8>, i: int)
    requires
        0 <= i < m.len(),
        lacks(s, m[i]),
    ensures
        !contains(s, m),
{
    assert forall|j: int| !occurs_at(s, m, j) by {
        if occurs_at(s, m, j) {
            assert(s.subrange(j, j + m.len())[i] == s[j + i]);
        }
    }
}

/// A needle that begins with `c1 c2` is absent where every `c1` is followed
/// by something else.
#[verifier::spinoff_prover]
pub proof fn lemma_absent_pair_free(s: Seq<u8>, m: Seq<u8>, from: int)
    requires
        m.len() >= 2,
        pair_free(s, m[0], m[1], from),
    ensures
        forall|j: int| from <= j ==> !occurs_at(s, m, j),
{
    assert forall|j: int| from <= j implies !occurs_at(s, m, j) by {
        if occurs_at(s, m, j) {
            assert(s.subrange(j, j + m.len())[0] == s[j]);
            assert(s.subrange(j, j + m.len())[1] == s[j + 1]);
        }
    }
}

/// Pair-freedom of the parts gives pair-freedom of the whole.
#[verifier::spinoff_prover]
pub proof fn lemma_pair_free_concat(a: Seq<u8>, b: Seq<u8>, c1: u8, c2: u8, from: int)
    requires
        0 <= from <= a.len(),
        pair_free(a, c1, c2, from),
        pair_free(b, c1, c2, 0),
    ensures
        pair_free(a + b, c1, c2, from),
{
    let s = a + b;
    assert forall|k: int| from <= k < s.len() && #[trigger] s[k] == c1 implies k + 1 < s.len()
        && s[k + 1] != c2 by {
        if k < a.len() {
            assert(s[k] == a[k]);
            assert(s[k + 1] == a[k + 1]);
        } else {
            assert(s[k] == b[k - a.len()]);
            assert(s[k + 1] == b[k + 1 - a.len()]);
        }
    }
}

/// A sequence without `c1` is pair-free for it.
#[verifier::spinoff_prover]
pub proof fn lemma_pair_free_lacking(s: Seq<u8>, c1: u8, c2: u8)
    requires
        lacks(s, c1),
    ensures
        pair_free(s, c1, c2, 0),
{
}

#[verifier::spinoff_prover]
pub proof fn lemma_lacks_concat(a: Seq<u8>, b: Seq<u8>, c: u8)
    requires
        lacks(a, c),
        lacks(b, c),
    ensures
        lacks(a + b, c),
{
    assert forall|k: int| 0 <= k < (a + b).len() implies #[trigger] (a + b)[k] != c by {
        if k < a.len() {
            assert((a + b)[k] == a[k]);
        } else {
            assert((a + b)[k] == b[k - a.len()]);
        }
    }
}

/// Where the end of `a` is a byte foreign to the needle, an occurrence in
/// `a + b` starting within `a` lies within `a`.
#[verifier::spinoff_prover]
pub proof fn lemma_absent_before_sep(a: Seq<u8>, b: Seq<u8>, m: Seq<u8>)
    requires
        a.len() > 0,
        foreign(m, a.last()),
        !contains(a, m),
    ensures
        forall|j: int| j < a.len() ==> !occurs_at(a + b, m, j),
{
    assert forall|j: int| j < a.len() implies !occurs_at(a + b, m, j) by {
        if occurs_at(a + b, m, j) {
            if j + m.len() <= a.len() {
                assert((a + b).subrange(j, j + m.len()) =~= a.subrange(j, j + m.len()));
                assert(occurs_at(a, m, j));
            } else {
                let i = a.len() - 1 - j;
                assert((a + b).subrange(j, j + m.len())[i] == a.last());
            }
        }
    }
}

/// Where the start of `b` is a byte foreign to the needle, an occurrence in
/// `a + b` that ends within `b` starts within `b`.
#[verifier::spinoff_prover]
pub proof fn lemma_absent_after_sep(a: Seq<u8>, b: Seq<u8>, m: Seq<u8>)
    requires
        b.len() > 0,
        foreign(m, b[0]),
        !contains(b, m),
    ensures
        forall|j: int| j + m.len() > a.len() ==> !occurs_at(a + b, m, j),
{
    assert forall|j: int| j + m.len() > a.len() implies !occurs_at(a + b, m, j) by {
        if occurs_at(a + b, m, j) {
            if j >= a.len() {
                assert((a + b).subrange(j, j + m.len()) =~= b.subrange(
                    j - a.len(),
                    j - a.len() + m.len(),
                ));
                assert(occurs_at(b, m, j - a.len()));
            } else {
                let i = a.len() - j;
                assert((a + b).subrange(j, j + m.len())[i] == b[0]);
            }
        }
    }
}

/// Two parts without the needle, joined at a byte foreign to it, are without it.
#[verifier::spinoff_prover]
pub proof fn lemma_absent_concat(a: Seq<u8>, b: Seq<u8>, m: Seq<u8>)
    requires
        !contains(a, m),
        !contains(b, m),
        (a.len() > 0 && foreign(m, a.last())) || (b.len() > 0 && foreign(m, b[0])),
    ensures
        !contains(a + b, m),
{
    if a.len() > 0 && foreign(m, a.last()) {
        lemma_absent_before_sep(a, b, m);
        assert forall|j: int| !occurs_at(a + b, m, j) by {
            if j >= a.len() && occurs_at(a + b, m, j) {
                assert((a + b).subrange(j, j + m.len()) =~= b.subrange(
                    j - a.len(),
                    j - a.len() + m.len(),
                ));
                assert(occurs_at(b, m, j - a.len()));
            }
        }
    } else {
        lemma_absent_after_sep(a, b, m);
        assert forall|j: int| !occurs_at(a + b, m, j) by {
            if j + m.len() <= a.len() && occurs_at(a + b, m, j) {
                assert((a + b).subrange(j, j + m.len()) =~= a.subrange(j, j + m.len()));
                assert(occurs_at(a, m, j));
            }
        }
    }
}

/// An occurrence in the first part of a concatenation is one in the whole.
#[verifier::spinoff_prover]
pub proof fn lemma_occurs_left(a: Seq<u8>, b: Seq<u8>, m: Seq<u8>, i: int)
    requires
        occurs_at(a, m, i),
    ensures
        occurs_at(a + b, m, i),
{
    assert((a + b).subrange(i, i + m.len()) =~= a.subrange(i, i + m.len()));
}

/// An occurrence in the second part of a concatenation is one in the whole.
#[verifier::spinoff_prover]
pub proof fn lemma_occurs_right(a: Seq<u8>, b: Seq<u8>, m: Seq<u8>, i: int)
    requires
        occurs_at(b, m, i),
    ensures
        occurs_at(a + b, m, a.len() + i),
{
    assert((a + b).subrange(a.len() + i, a.len() + i + m.len()) =~= b.subrange(i, i + m.len()));
}

/// Whether `needle` stands in `hay` at `i`.
#[verifier::spinoff_prover]
pub(crate) fn matches_at(hay: &[u8], needle: &[u8], i: usize) -> (r: bool)
    requires
        i + needle@.len() <= hay@.len(),
    ensures
        r == occurs_at(hay@, needle@, i as int),
{
    let n = needle.len();
    let hl = hay.len();
    let mut j: usize = 0;
    while j < n
        invariant
            j <= n,
            hl == hay@.len(),
            n == needle@.len(),
            i + n <= hay@.len(),
            forall|k: int| 0 <= k < j ==> hay@[i + k] == needle@[k],
        decreases n - j,
    {
        if hay[i + j] != needle[j] {
            assert(hay@.subrange(i as int, i + n)[j as int] != needle@[j as int]);
            return false;
        }
        j = j + 1;
    }
    assert(hay@.subrange(i as int, i + n) =~= needle@);
    true
}

/// The first position at or after `from` where `needle` stands in `hay`.
#[verifier::spinoff_prover]
pub(crate) fn find(hay: &[u8], needle: &[u8], from: usize) -> (r: Option<usize>)
    requires
        needle@.len() > 0 || from > hay@.len(),
    ensures
        position(r) == find_from(hay@, needle@, from as int),
{
    let n = needle.len();
    let len = hay.len();
    if from > len {
        return None;
    }
    let mut i = from;
    while i < len && n <= len - i
        invariant
            from <= i <= len,
            len == hay@.len(),
            n == needle@.len(),
            n > 0,
            find_from(hay@, needle@, from as int) == find_from(hay@, needle@, i as int),
        decreases len - i,
    {
        if matches_at(hay, needle, i) {
            return Some(i);
        }
        i = i + 1;
    }
    None
}

/// Whether `hay` begins with `prefix`.
#[verifier::spinoff_prover]
pub(crate) fn starts_with(hay: &[u8], prefix: &[u8]) -> (r: bool)
    ensures
        r == occurs_at(hay@, prefix@, 0),
{
    if prefix.len() > hay.len() {
        false
    } else {
        matches_at(hay, prefix, 0)
    }
}

/// Whether two byte strings are equal.
#[verifier::spinoff_prover]
pub(crate) fn same_bytes(a: &[u8], b: &[u8]) -> (r: bool)
    ensures
        r == (a@ == b@),
{
    if a.len() != b.len() {
        false
    } else {
        let r = matches_at(a, b, 0);
        assert(a@.subrange(0, a@.len() as int) =~= a@);
        r
    }
}

/// Appends the bytes of `s`.
#[verifier::spinoff_prover]
pub(crate) fn append(out: &mut Vec<u8>, s: &[u8])
    ensures
        final(out)@ == old(out)@ + s@,
{
    let ghost start = out@;
    let n = s.len();
    let mut i: usize = 0;
    while i < n
        invariant
            i <= n,
            n == s@.len(),
            out@ =~= start + s@.take(i as int),
        decreases n - i,
    {
        out.push(s[i]);
        assert(s@.take(i + 1) =~= s@.take(i as int).push(s@[i as int]));
        i = i + 1;
    }
    assert(s@.take(n as int) =~= s@);
}

} // verus!
