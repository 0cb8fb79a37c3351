//! Byte strings: copying, letter case, equality and the lexicographic order.

use vstd::prelude::*;

verus! {

/// `a` and `b` hold the same bytes at every position below `k`.
pub open spec fn agree_upto(a: Seq<u8>, b: Seq<u8>, k: int) -> bool {
    &&& 0 <= k <= a.len()
    &&& k <= b.len()
    &&& forall|j: int| 0 <= j < k ==> a[j] == b[j]
}

/// The first position at or after `i` where `a` and `b` differ or one of them ends.
pub open spec fn first_split_from(a: Seq<u8>, b: Seq<u8>, i: int) -> int
    decreases a.len() - i,
{
    if 0 <= i < a.len() && i < b.len() && a[i] == b[i] {
        first_split_from(a, b, i + 1)
    } else {
        i
    }
}

/// The length of the longest common prefix of `a` and `b`.
pub open spec fn first_split(a: Seq<u8>, b: Seq<u8>) -> int {
    first_split_from(a, b, 0)
}

/// Strict lexicographic order: at the first position where the two part,
/// `a` has ended and `b` has not, or `a` holds the smaller byte.
pub open spec fn lex_lt(a: Seq<u8>, b: Seq<u8>) -> bool {
    let k = first_split(a, b);
    if k >= b.len() {
        false
    } else if k >= a.len() {
        true
    } else {
        a[k] < b[k]
    }
}

pub proof fn lemma_first_split_from(a: Seq<u8>, b: Seq<u8>, i: int)
    requires
        agree_upto(a, b, i),
    ensures
        i <= first_split_from(a, b, i),
        agree_upto(a, b, first_split_from(a, b, i)),
        first_split_from(a, b, i) < a.len() && first_split_from(a, b, i) < b.len() ==> a[first_split_from(
            a,
            b,
            i,
        )] != b[first_split_from(a, b, i)],
    decreases a.len() - i,
{
    if 0 <= i < a.len() && i < b.len() && a[i] == b[i] {
        lemma_first_split_from(a, b, i + 1);
    }
}

/// The split point is the only position up to which the two agree and at
/// which they part.
pub proof fn lemma_first_split_is(a: Seq<u8>, b: Seq<u8>, k: int)
    requires
        agree_upto(a, b, k),
        k == a.len() || k == b.len() || a[k] != b[k],
    ensures
        first_split(a, b) == k,
{
    lemma_first_split_from(a, b, 0);
}

/// Of two byte strings exactly one holds: the first precedes, they are
/// equal, or the second precedes.
pub proof fn lemma_lex_trichotomy(a: Seq<u8>, b: Seq<u8>)
    ensures
        lex_lt(a, b) || a == b || lex_lt(b, a),
        !(lex_lt(a, b) && lex_lt(b, a)),
        !(lex_lt(a, b) && a == b),
{
    lemma_first_split_from(a, b, 0);
    let k = first_split(a, b);
    assert(agree_upto(b, a, k));
    lemma_first_split_is(b, a, k);
    if !lex_lt(a, b) && !lex_lt(b, a) {
        assert(a =~= b);
    }
}

/// The strict lexicographic order is transitive.
pub proof fn lemma_lex_transitive(a: Seq<u8>, b: Seq<u8>, c: Seq<u8>)
    requires
        lex_lt(a, b),
        lex_lt(b, c),
    ensures
        lex_lt(a, c),
{
    lemma_first_split_from(a, b, 0);
    lemma_first_split_from(b, c, 0);
    let k1 = first_split(a, b);
    let k2 = first_split(b, c);
    let k = if k1 <= k2 { k1 } else { k2 };
    assert(agree_upto(a, c, k));
    lemma_first_split_is(a, c, k);
}

/// Whether two byte strings are equal.
pub fn bytes_equal(a: &[u8], b: &[u8]) -> (r: bool)
    ensures
        r == (a@ == b@),
{
    if a.len() != b.len() {
        return false;
    }
    let mut i: usize = 0;
    while i < a.len()
        invariant
            a@.len() == b@.len(),
            0 <= i <= a@.len(),
            forall|j: int| 0 <= j < i ==> a@[j] == b@[j],
        decreases a@.len() - i,
    {
        if a[i] != b[i] {
            return false;
        }
        i += 1;
    }
    assert(a@ =~= b@);
    true
}

/// Whether `a` comes strictly before `b` in lexicographic order.
pub fn bytes_less(a: &[u8], b: &[u8]) -> (r: bool)
    ensures
        r == lex_lt(a@, b@),
{
    let mut i: usize = 0;
    while i < a.len() && i < b.len() && a[i] == b[i]
        invariant
            agree_upto(a@, b@, i as int),
        decreases a@.len() - i,
    {
        i += 1;
    }
    proof {
        lemma_first_split_is(a@, b@, i as int);
    }
    if i >= b.len() {
        false
    } else if i >= a.len() {
        true
    } else {
        a[i] < b[i]
    }
}

/// The lower-case form of an ASCII letter; any other byte as it is.
pub open spec fn lower(c: u8) -> u8 {
    if 65 <= c <= 90 {
        (c + 32) as u8
    } else {
        c
    }
}

/// Brings an ASCII letter into lower case.
pub fn lower_byte(c: u8) -> (r: u8)
    ensures
        r == lower(c),
{
    if 65 <= c && c <= 90 {
        c + 32
    } else {
        c
    }
}

/// Appends a copy of `s`.
pub fn push_all(out: &mut Vec<u8>, s: &[u8])
    ensures
        final(out)@ == old(out)@ + s@,
{
    let mut i: usize = 0;
    while i < s.len()
        invariant
            i <= s@.len(),
            out@ == old(out)@ + s@.take(i as int),
        decreases s@.len() - i,
    {
        out.push(s[i]);
        proof {
            assert(s@.take(i + 1) =~= s@.take(i as int).push(s@[i as int]));
            assert(out@ =~= old(out)@ + s@.take(i + 1));
        }
        i += 1;
    }
    proof {
        assert(s@.take(i as int) =~= s@);
    }
}

/// A copy of the bytes of `s`.
pub fn copy_of(s: &[u8]) -> (v: Vec<u8>)
    ensures
        v@ == s@,
{
    let mut v: Vec<u8> = Vec::new();
    push_all(&mut v, s);
    assert(v@ =~= s@);
    v
}

} // verus!
