//! Identity of an item: the canonical form of its link, the hash of its
//! content, and the key that deduplication goes by.

use vstd::prelude::*;
use crate::bytes::push_all;
use crate::text::{
    is_normal,
    lemma_normal_is_fixed,
    lemma_normalized_is_normal,
    lemma_tidy_prefix,
    normalize_text,
    normalized,
};

verus! {

pub const FNV_OFFSET: u64 = 0xcbf29ce484222325;

pub const FNV_PRIME: u64 = 0x100000001b3;

/// Stands between the source identifier and the rest of a key.
pub const KEY_SEPARATOR: u8 = 124;

/// Marks the rest of a key as a content hash. No canonical link holds it.
pub const FRAGMENT_MARK: u8 = 35;

pub const SLASH: u8 = 47;

/// The first position of `s` that holds `c`, or the length of `s`.
pub open spec fn first_index_of(s: Seq<u8>, c: u8) -> int
    decreases s.len(),
{
    if s.len() == 0 {
        0
    } else if s[0] == c {
        0
    } else {
        1 + first_index_of(s.drop_first(), c)
    }
}

/// `s` up to its fragment, the part that begins with `#`.
pub open spec fn without_fragment(s: Seq<u8>) -> Seq<u8> {
    s.take(first_index_of(s, FRAGMENT_MARK))
}

/// `s` without the slashes and spaces at its end.
pub open spec fn without_tail(s: Seq<u8>) -> Seq<u8>
    decreases s.len(),
{
    if s.len() > 0 && (s.last() == SLASH || s.last() == 32) {
        without_tail(s.drop_last())
    } else {
        s
    }
}

/// The canonical form of a link: in normal text form, without fragment,
/// and without slashes at its end.
pub open spec fn canonical_link(raw: Seq<u8>) -> Seq<u8> {
    without_tail(without_fragment(normalized(raw)))
}

/// FNV-1a over `s`, continued from the state `h`.
pub open spec fn fnv1a_from(h: u64, s: Seq<u8>) -> u64
    decreases s.len(),
{
    if s.len() == 0 {
        h
    } else {
        (fnv1a_from(h, s.drop_last()) ^ (s.last() as u64)).wrapping_mul(FNV_PRIME)
    }
}

/// The hash of an item's content: FNV-1a over the title, a zero byte, and
/// the body.
pub open spec fn content_hash(title: Seq<u8>, body: Seq<u8>) -> u64 {
    fnv1a_from(fnv1a_from(fnv1a_from(FNV_OFFSET, title), seq![0u8]), body)
}

/// The lower-case hexadecimal digit for a value below sixteen.
pub open spec fn hex_digit(v: int) -> u8 {
    if v < 10 {
        (48 + v) as u8
    } else {
        (87 + v) as u8
    }
}

/// The last `n` hexadecimal digits of `h`, most significant first.
pub open spec fn hex_digits(h: int, n: nat) -> Seq<u8>
    decreases n,
{
    if n == 0 {
        Seq::empty()
    } else {
        hex_digits(h / 16, (n - 1) as nat).push(hex_digit(h % 16))
    }
}

/// The identity key of an item of the source `source`: the source
/// identifier, a separator, and the canonical link; or, where there is no
/// link, `#` and the sixteen hexadecimal digits of the content hash.
pub open spec fn identity_key(source: Seq<u8>, link: Seq<u8>, title: Seq<u8>, body: Seq<u8>) -> Seq<
    u8,
> {
    if link.len() > 0 {
        source.push(KEY_SEPARATOR) + link
    } else {
        source.push(KEY_SEPARATOR).push(FRAGMENT_MARK) + hex_digits(
            content_hash(title, body) as int,
            16,
        )
    }
}

pub proof fn lemma_first_index_of(s: Seq<u8>, c: u8)
    ensures
        0 <= first_index_of(s, c) <= s.len(),
        forall|j: int| 0 <= j < first_index_of(s, c) ==> s[j] != c,
        first_index_of(s, c) < s.len() ==> s[first_index_of(s, c)] == c,
    decreases s.len(),
{
    if s.len() > 0 && s[0] != c {
        lemma_first_index_of(s.drop_first(), c);
        assert forall|j: int| 0 <= j < first_index_of(s, c) implies s[j] != c by {
            if j > 0 {
                assert(s[j] == s.drop_first()[j - 1]);
            }
        }
    }
}

/// The first position that holds `c` is the only one that does and has no
/// `c` before it.
pub proof fn lemma_first_index_is(s: Seq<u8>, c: u8, k: int)
    requires
        0 <= k <= s.len(),
        forall|j: int| 0 <= j < k ==> s[j] != c,
        k < s.len() ==> s[k] == c,
    ensures
        first_index_of(s, c) == k,
{
    lemma_first_index_of(s, c);
}

pub proof fn lemma_without_tail(s: Seq<u8>)
    ensures
        without_tail(s).len() <= s.len(),
        without_tail(s) == s.take(without_tail(s).len() as int),
        without_tail(s).len() > 0 ==> without_tail(s).last() != SLASH && without_tail(s).last()
            != 32,
    decreases s.len(),
{
    if s.len() > 0 && (s.last() == SLASH || s.last() == 32) {
        lemma_without_tail(s.drop_last());
        let n = without_tail(s).len() as int;
        assert(s.drop_last().take(n) =~= s.take(n));
    } else {
        assert(s.take(s.len() as int) =~= s);
    }
}

/// A canonical link holds no `#` and ends in neither a slash nor a space.
pub proof fn lemma_canonical_link(raw: Seq<u8>)
    ensures
        forall|j: int| 0 <= j < canonical_link(raw).len() ==> canonical_link(raw)[j] != FRAGMENT_MARK,
        canonical_link(raw).len() > 0 ==> canonical_link(raw).last() != SLASH && canonical_link(
            raw,
        ).last() != 32,
{
    let t = normalized(raw);
    lemma_first_index_of(t, FRAGMENT_MARK);
    lemma_without_tail(without_fragment(t));
}

/// A canonical link is in normal text form, and is its own canonical
/// form: what is derived from it does not change when a link that was
/// brought into canonical form is brought into it again.
pub proof fn lemma_canonical_link_is_fixed(raw: Seq<u8>)
    ensures
        is_normal(canonical_link(raw)),
        canonical_link(canonical_link(raw)) == canonical_link(raw),
{
    let t = normalized(raw);
    let u = without_fragment(t);
    let c = canonical_link(raw);
    lemma_normalized_is_normal(raw);
    lemma_first_index_of(t, FRAGMENT_MARK);
    lemma_without_tail(u);
    lemma_canonical_link(raw);
    assert(c =~= t.take(c.len() as int));
    lemma_tidy_prefix(t, c.len() as int);
    lemma_normal_is_fixed(c);
    lemma_first_index_is(c, FRAGMENT_MARK, c.len() as int);
    assert(c.take(c.len() as int) =~= c);
}

/// Two items of one source that have links have the same key only if
/// they have the same link.
pub proof fn lemma_key_tells_links_apart(
    source: Seq<u8>,
    link1: Seq<u8>,
    title1: Seq<u8>,
    body1: Seq<u8>,
    link2: Seq<u8>,
    title2: Seq<u8>,
    body2: Seq<u8>,
)
    requires
        link1.len() > 0,
        link2.len() > 0,
        identity_key(source, link1, title1, body1) == identity_key(source, link2, title2, body2),
    ensures
        link1 == link2,
{
    let head = source.push(KEY_SEPARATOR);
    let k1 = head + link1;
    let k2 = head + link2;
    assert(k1.len() == k2.len());
    assert forall|i: int| 0 <= i < link1.len() implies link1[i] == link2[i] by {
        assert(k1[head.len() + i] == link1[i]);
        assert(k2[head.len() + i] == link2[i]);
    }
    assert(link1 =~= link2);
}

/// The key of an item with a canonical link is not the key of an item of
/// the same source without one.
pub proof fn lemma_key_tells_link_from_hash(
    source: Seq<u8>,
    raw: Seq<u8>,
    title1: Seq<u8>,
    body1: Seq<u8>,
    title2: Seq<u8>,
    body2: Seq<u8>,
)
    requires
        canonical_link(raw).len() > 0,
    ensures
        identity_key(source, canonical_link(raw), title1, body1) != identity_key(
            source,
            Seq::empty(),
            title2,
            body2,
        ),
{
    let link = canonical_link(raw);
    lemma_canonical_link(raw);
    let head = source.push(KEY_SEPARATOR);
    let k1 = head + link;
    let k2 = head.push(FRAGMENT_MARK) + hex_digits(content_hash(title2, body2) as int, 16);
    assert(k1[head.len() as int] == link[0]);
    assert(k2[head.len() as int] == FRAGMENT_MARK);
}

/// An identity key is never empty.
pub proof fn lemma_identity_key_present(
    source: Seq<u8>,
    link: Seq<u8>,
    title: Seq<u8>,
    body: Seq<u8>,
)
    ensures
        identity_key(source, link, title, body).len() > 0,
{
}

/// Brings a link into canonical form.
pub fn canonicalize_link(raw: &[u8]) -> (link: Vec<u8>)
    ensures
        link@ == canonical_link(raw@),
{
    let mut link = normalize_text(raw);
    let ghost t = link@;
    let mut cut: usize = 0;
    while cut < link.len() && link[cut] != FRAGMENT_MARK
        invariant
            cut <= link.len(),
            link@ == t,
            forall|j: int| 0 <= j < cut ==> t[j] != FRAGMENT_MARK,
        decreases link.len() - cut,
    {
        cut += 1;
    }
    proof {
        lemma_first_index_is(t, FRAGMENT_MARK, cut as int);
    }
    link.truncate(cut);
    let ghost u = link@;
    let mut n: usize = link.len();
    proof {
        assert(u.take(u.len() as int) =~= u);
    }
    while n > 0 && (link[n - 1] == SLASH || link[n - 1] == 32)
        invariant
            n <= link.len(),
            link@ == u,
            without_tail(u) == without_tail(u.take(n as int)),
        decreases n,
    {
        proof {
            assert(u.take(n as int).drop_last() =~= u.take(n - 1));
        }
        n -= 1;
    }
    link.truncate(n);
    link
}

/// Continues an FNV-1a hash over the bytes of `s`.
pub fn hash_bytes(h: u64, s: &[u8]) -> (r: u64)
    ensures
        r == fnv1a_from(h, s@),
{
    let mut acc: u64 = h;
    let mut i: usize = 0;
    while i < s.len()
        invariant
            i <= s@.len(),
            acc == fnv1a_from(h, s@.take(i as int)),
        decreases s@.len() - i,
    {
        proof {
            assert(s@.take(i + 1).drop_last() =~= s@.take(i as int));
        }
        acc = (acc ^ (s[i] as u64)).wrapping_mul(FNV_PRIME);
        i += 1;
    }
    proof {
        assert(s@.take(i as int) =~= s@);
    }
    acc
}

/// Hashes the content of an item.
pub fn hash_content(title: &[u8], body: &[u8]) -> (r: u64)
    ensures
        r == content_hash(title@, body@),
{
    let zero: [u8; 1] = [0u8];
    let h1 = hash_bytes(FNV_OFFSET, title);
    let h2 = hash_bytes(h1, zero.as_slice());
    proof {
        assert(zero@ =~= seq![0u8]);
    }
    hash_bytes(h2, body)
}

/// Appends the last `n` hexadecimal digits of `h`.
fn push_hex(out: &mut Vec<u8>, h: u64, n: u8)
    ensures
        final(out)@ == old(out)@ + hex_digits(h as int, n as nat),
    decreases n,
{
    if n > 0 {
        push_hex(out, h / 16, n - 1);
        let v: u8 = (h % 16) as u8;
        let d: u8 = if v < 10 {
            48 + v
        } else {
            87 + v
        };
        out.push(d);
        assert(out@ =~= old(out)@ + hex_digits(h as int, n as nat));
    } else {
        assert(out@ =~= old(out)@ + hex_digits(h as int, n as nat));
    }
}

/// Derives the identity key of an item from its source, its canonical
/// link and, where it has none, its content.
pub fn derive_key(source: &[u8], link: &[u8], title: &[u8], body: &[u8]) -> (key: Vec<u8>)
    ensures
        key@ == identity_key(source@, link@, title@, body@),
        key@.len() > 0,
{
    let mut key: Vec<u8> = Vec::new();
    push_all(&mut key, source);
    key.push(KEY_SEPARATOR);
    if link.len() > 0 {
        push_all(&mut key, link);
        assert(key@ =~= source@.push(KEY_SEPARATOR) + link@);
    } else {
        key.push(FRAGMENT_MARK);
        let h = hash_content(title, body);
        push_hex(&mut key, h, 16);
        assert(key@ =~= source@.push(KEY_SEPARATOR).push(FRAGMENT_MARK) + hex_digits(h as int, 16));
    }
    key
}

} // verus!
