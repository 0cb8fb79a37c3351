//! Normal form of title and summary text.
//!
//! Character references (`&amp;`, `&#8217;`, `&#x27;` and the like) are
//! replaced by the UTF-8 bytes of the character they name, repeatedly, so
//! that no reference is left; every run of white space becomes one space,
//! and none stays at either end. Text in this form is left as it is.

use vstd::prelude::*;

verus! {

pub const SPACE: u8 = 32;

pub const AMPERSAND: u8 = 38;

pub const SEMICOLON: u8 = 59;

pub const NUMBER_SIGN: u8 = 35;

/// The longest text between `&` and `;` that can name a character.
pub const MAX_REFERENCE_BODY: usize = 8;

/// The greatest Unicode scalar value.
pub const MAX_SCALAR: u32 = 0x10FFFF;

/// Space, tab, line feed, form feed and carriage return.
pub open spec fn is_space(c: u8) -> bool {
    c == 32 || c == 9 || c == 10 || c == 12 || c == 13
}

/// A code point that UTF-8 can encode: not zero, not a surrogate, and in range.
pub open spec fn is_scalar(v: int) -> bool {
    0 < v <= 0x10FFFF && !(0xD800 <= v <= 0xDFFF)
}

/// The value of one digit, decimal or (where `hex`) hexadecimal.
pub open spec fn digit_value(c: u8, hex: bool) -> Option<int> {
    if 48 <= c <= 57 {
        Some(c - 48)
    } else if hex && 97 <= c <= 102 {
        Some(c - 87)
    } else if hex && 65 <= c <= 70 {
        Some(c - 55)
    } else {
        None
    }
}

/// The number that a row of digits writes, if each of them is a digit.
pub open spec fn digits_value(d: Seq<u8>, hex: bool) -> Option<int>
    decreases d.len(),
{
    if d.len() == 0 {
        Some(0)
    } else {
        match (digits_value(d.drop_last(), hex), digit_value(d.last(), hex)) {
            (Some(v), Some(x)) => Some(
                if hex {
                    v * 16 + x
                } else {
                    v * 10 + x
                },
            ),
            _ => None,
        }
    }
}

/// The code point of a numeric reference with the digits `d`: at least one
/// digit, at most `max_len`, and a value that is a scalar.
pub open spec fn numeric_code(d: Seq<u8>, hex: bool, max_len: int) -> Option<int> {
    if 1 <= d.len() <= max_len {
        match digits_value(d, hex) {
            Some(v) => if is_scalar(v) {
                Some(v)
            } else {
                None
            },
            None => None,
        }
    } else {
        None
    }
}

pub open spec fn is_word2(b: Seq<u8>, c0: u8, c1: u8) -> bool {
    b.len() == 2 && b[0] == c0 && b[1] == c1
}

pub open spec fn is_word3(b: Seq<u8>, c0: u8, c1: u8, c2: u8) -> bool {
    b.len() == 3 && b[0] == c0 && b[1] == c1 && b[2] == c2
}

pub open spec fn is_word4(b: Seq<u8>, c0: u8, c1: u8, c2: u8, c3: u8) -> bool {
    b.len() == 4 && b[0] == c0 && b[1] == c1 && b[2] == c2 && b[3] == c3
}

/// The code point that the text between `&` and `;` names: one of `amp`,
/// `lt`, `gt`, `quot`, `apos`, `nbsp`; `#` and up to seven decimal digits;
/// or `#x` (or `#X`) and up to six hexadecimal digits.
pub open spec fn entity_code(body: Seq<u8>) -> Option<int> {
    if is_word3(body, 97, 109, 112) {
        Some(38)
    } else if is_word2(body, 108, 116) {
        Some(60)
    } else if is_word2(body, 103, 116) {
        Some(62)
    } else if is_word4(body, 113, 117, 111, 116) {
        Some(34)
    } else if is_word4(body, 97, 112, 111, 115) {
        Some(39)
    } else if is_word4(body, 110, 98, 115, 112) {
        Some(160)
    } else if body.len() >= 2 && body[0] == 35 && (body[1] == 120 || body[1] == 88) {
        numeric_code(body.skip(2), true, 6)
    } else if body.len() >= 1 && body[0] == 35 {
        numeric_code(body.skip(1), false, 7)
    } else {
        None
    }
}

/// The code point named by `s[p + 1 .. e]`, where `s[p]` is `&`.
pub open spec fn reference_at(s: Seq<u8>, p: int, e: int) -> Option<int> {
    if 0 <= p < e <= s.len() && s[p] == 38 {
        entity_code(s.subrange(p + 1, e))
    } else {
        None
    }
}

/// The reference that a `;` put behind `out` would close, looked for with a
/// body of `l` bytes, then of `l + 1`, up to the longest: where it starts
/// and the code point.
pub open spec fn open_reference_from(out: Seq<u8>, l: int) -> Option<(int, int)>
    decreases 9 - l,
{
    if l > 8 {
        None
    } else {
        match reference_at(out, out.len() - 1 - l, out.len() as int) {
            Some(cp) => Some((out.len() - 1 - l, cp)),
            None => open_reference_from(out, l + 1),
        }
    }
}

pub open spec fn open_reference(out: Seq<u8>) -> Option<(int, int)> {
    open_reference_from(out, 1)
}

/// The UTF-8 encoding of a code point.
pub open spec fn utf8(cp: int) -> Seq<u8> {
    if cp < 0x80 {
        seq![cp as u8]
    } else if cp < 0x800 {
        seq![(0xC0 + cp / 64) as u8, (0x80 + cp % 64) as u8]
    } else if cp < 0x10000 {
        seq![(0xE0 + cp / 4096) as u8, (0x80 + (cp / 64) % 64) as u8, (0x80 + cp % 64) as u8]
    } else {
        seq![
            (0xF0 + cp / 262144) as u8,
            (0x80 + (cp / 4096) % 64) as u8,
            (0x80 + (cp / 64) % 64) as u8,
            (0x80 + cp % 64) as u8,
        ]
    }
}

/// The text `out`, already tidy, with one more byte taken in. White space
/// becomes a single space, and only behind something else. A `;` that
/// closes a reference replaces the reference by its character, which is
/// taken in by the same rule when it is ASCII.
pub open spec fn push_byte(out: Seq<u8>, c: u8) -> Seq<u8>
    decreases out.len(),
{
    if is_space(c) {
        if out.len() == 0 || out.last() == 32 {
            out
        } else {
            out.push(32)
        }
    } else if c == 59 {
        match open_reference(out) {
            Some((p, cp)) => if 0 <= p < out.len() {
                if cp < 128 {
                    push_byte(out.take(p), cp as u8)
                } else {
                    out.take(p) + utf8(cp)
                }
            } else {
                out.push(c)
            },
            None => out.push(c),
        }
    } else {
        out.push(c)
    }
}

/// Every byte of `s` taken in, from the left.
pub open spec fn folded(s: Seq<u8>) -> Seq<u8>
    decreases s.len(),
{
    if s.len() == 0 {
        Seq::empty()
    } else {
        push_byte(folded(s.drop_last()), s.last())
    }
}

/// `t` without the space at its end, if it has one.
pub open spec fn trimmed(t: Seq<u8>) -> Seq<u8> {
    if t.len() > 0 && t.last() == 32 {
        t.drop_last()
    } else {
        t
    }
}

/// The normal form of the text `s`.
pub open spec fn normalized(s: Seq<u8>) -> Seq<u8> {
    trimmed(folded(s))
}

/// No character reference occurs in `s`.
pub open spec fn reference_free(s: Seq<u8>) -> bool {
    forall|p: int, e: int|
        0 <= p < e < s.len() && s[e] == 59 ==> (#[trigger] reference_at(s, p, e)) is None
}

/// `s` holds no white space but single spaces between other bytes or at
/// its end, and no character reference.
pub open spec fn tidy(s: Seq<u8>) -> bool {
    &&& forall|i: int| 0 <= i < s.len() && is_space(#[trigger] s[i]) ==> s[i] == 32
    &&& s.len() > 0 ==> s[0] != 32
    &&& forall|i: int| 0 < i < s.len() && #[trigger] s[i] == 32 ==> s[i - 1] != 32
    &&& reference_free(s)
}

/// `s` is in normal form: tidy, and without a space at its end.
pub open spec fn is_normal(s: Seq<u8>) -> bool {
    tidy(s) && (s.len() > 0 ==> s.last() != 32)
}

proof fn lemma_reference_stable(s: Seq<u8>, t: Seq<u8>, p: int, e: int)
    requires
        e <= s.len(),
        e <= t.len(),
        forall|i: int| 0 <= i < e ==> s[i] == t[i],
    ensures
        reference_at(s, p, e) == reference_at(t, p, e),
{
    if 0 <= p < e {
        assert(s.subrange(p + 1, e) =~= t.subrange(p + 1, e));
    }
}

proof fn lemma_digits_prefix(d: Seq<u8>, hex: bool, j: int)
    requires
        0 <= j <= d.len(),
        digits_value(d, hex) is Some,
    ensures
        digits_value(d.take(j), hex) is Some,
        0 <= digits_value(d.take(j), hex)->0 <= digits_value(d, hex)->0,
    decreases d.len(),
{
    if j == d.len() {
        assert(d.take(j) =~= d);
        if d.len() > 0 {
            lemma_digits_prefix(d.drop_last(), hex, j - 1);
        }
    } else {
        lemma_digits_prefix(d.drop_last(), hex, j);
        assert(d.drop_last().take(j) =~= d.take(j));
    }
}

proof fn lemma_entity_body_len(body: Seq<u8>)
    requires
        entity_code(body) is Some,
    ensures
        1 <= body.len() <= 8,
        is_scalar(entity_code(body)->0),
{
}

proof fn lemma_open_reference_from(out: Seq<u8>, l: int)
    requires
        1 <= l,
    ensures
        match open_reference_from(out, l) {
            Some((p, cp)) => 0 <= p < out.len() && reference_at(out, p, out.len() as int) == Some(
                cp,
            ),
            None => forall|k: int|
                l <= k <= 8 ==> (#[trigger] reference_at(out, out.len() - 1 - k, out.len() as int))
                    is None,
        },
    decreases 9 - l,
{
    if l <= 8 {
        if reference_at(out, out.len() - 1 - l, out.len() as int) is None {
            lemma_open_reference_from(out, l + 1);
        }
    }
}

proof fn lemma_utf8_high(cp: int)
    requires
        128 <= cp <= 0x10FFFF,
    ensures
        2 <= utf8(cp).len() <= 4,
        forall|i: int| 0 <= i < utf8(cp).len() ==> #[trigger] utf8(cp)[i] >= 128,
{
}

/// What a tidy text begins with is tidy.
pub proof fn lemma_tidy_prefix(s: Seq<u8>, n: int)
    requires
        tidy(s),
        0 <= n <= s.len(),
    ensures
        tidy(s.take(n)),
{
    let t = s.take(n);
    assert forall|p: int, e: int| 0 <= p < e < t.len() && t[e] == 59 implies (#[trigger] reference_at(
        t,
        p,
        e,
    )) is None by {
        lemma_reference_stable(s, t, p, e);
        assert(reference_at(s, p, e) is None);
    }
}

/// Taking a byte in keeps the text tidy.
pub proof fn lemma_push_byte_tidy(out: Seq<u8>, c: u8)
    requires
        tidy(out),
    ensures
        tidy(push_byte(out, c)),
    decreases out.len(),
{
    let r = push_byte(out, c);
    if is_space(c) {
        if !(out.len() == 0 || out.last() == 32) {
            assert forall|p: int, e: int| 0 <= p < e < r.len() && r[e] == 59 implies (
            #[trigger] reference_at(r, p, e)) is None by {
                lemma_reference_stable(out, r, p, e);
                assert(reference_at(out, p, e) is None);
            }
        }
    } else if c == 59 {
        lemma_open_reference_from(out, 1);
        match open_reference(out) {
            Some((p, cp)) => {
                lemma_tidy_prefix(out, p);
                assert(out.subrange(p + 1, out.len() as int).len() == out.len() - p - 1);
                lemma_entity_body_len(out.subrange(p + 1, out.len() as int));
                if cp < 128 {
                    lemma_push_byte_tidy(out.take(p), cp as u8);
                } else {
                    lemma_utf8_high(cp);
                    let base = out.take(p);
                    assert forall|q: int, e: int| 0 <= q < e < r.len() && r[e] == 59 implies (
                    #[trigger] reference_at(r, q, e)) is None by {
                        assert(e < base.len()) by {
                            if e >= base.len() {
                                assert(r[e] == utf8(cp)[e - base.len()]);
                            }
                        }
                        lemma_reference_stable(base, r, q, e);
                        assert(reference_at(base, q, e) is None);
                    }
                    assert forall|i: int| 0 <= i < r.len() && is_space(#[trigger] r[i]) implies r[i]
                        == 32 by {
                        if i >= base.len() {
                            assert(r[i] == utf8(cp)[i - base.len()]);
                        }
                    }
                    assert forall|i: int| 0 < i < r.len() && #[trigger] r[i] == 32 implies r[i - 1]
                        != 32 by {
                        if i >= base.len() {
                            assert(r[i] == utf8(cp)[i - base.len()]);
                        }
                    }
                    if base.len() == 0 {
                        assert(r[0] == utf8(cp)[0]);
                    }
                }
            },
            None => {
                assert forall|p: int, e: int| 0 <= p < e < r.len() && r[e] == 59 implies (
                #[trigger] reference_at(r, p, e)) is None by {
                    if e < out.len() {
                        lemma_reference_stable(out, r, p, e);
                        assert(reference_at(out, p, e) is None);
                    } else {
                        lemma_reference_stable(out, r, p, e);
                        if reference_at(out, p, e) is Some {
                            lemma_entity_body_len(out.subrange(p + 1, e));
                            let k = out.len() - 1 - p;
                            assert(reference_at(out, out.len() - 1 - k, out.len() as int) is None);
                        }
                    }
                }
            },
        }
    } else {
        assert forall|p: int, e: int| 0 <= p < e < r.len() && r[e] == 59 implies (
        #[trigger] reference_at(r, p, e)) is None by {
            lemma_reference_stable(out, r, p, e);
            assert(reference_at(out, p, e) is None);
        }
    }
}

/// Taking a byte in makes the text longer by one byte at most.
pub proof fn lemma_push_byte_len(out: Seq<u8>, c: u8)
    ensures
        push_byte(out, c).len() <= out.len() + 1,
    decreases out.len(),
{
    if !is_space(c) && c == 59 {
        lemma_open_reference_from(out, 1);
        match open_reference(out) {
            Some((p, cp)) => {
                lemma_entity_body_len(out.subrange(p + 1, out.len() as int));
                if cp < 128 {
                    lemma_push_byte_len(out.take(p), cp as u8);
                }
            },
            None => {},
        }
    }
}

/// The normal form of a text is no longer than the text.
pub proof fn lemma_normalized_is_no_longer(s: Seq<u8>)
    ensures
        folded(s).len() <= s.len(),
        normalized(s).len() <= s.len(),
    decreases s.len(),
{
    if s.len() > 0 {
        lemma_normalized_is_no_longer(s.drop_last());
        lemma_push_byte_len(folded(s.drop_last()), s.last());
    }
}

/// What the fold makes of any text is tidy.
pub proof fn lemma_folded_tidy(s: Seq<u8>)
    ensures
        tidy(folded(s)),
    decreases s.len(),
{
    if s.len() > 0 {
        lemma_folded_tidy(s.drop_last());
        lemma_push_byte_tidy(folded(s.drop_last()), s.last());
    }
}

/// The normal form of any text is in normal form.
pub proof fn lemma_normalized_is_normal(s: Seq<u8>)
    ensures
        is_normal(normalized(s)),
{
    lemma_folded_tidy(s);
    let t = folded(s);
    if t.len() > 0 && t.last() == 32 {
        lemma_tidy_prefix(t, t.len() - 1);
    }
}

proof fn lemma_tidy_folds_to_itself(s: Seq<u8>)
    requires
        tidy(s),
    ensures
        folded(s) == s,
    decreases s.len(),
{
    if s.len() > 0 {
        let init = s.drop_last();
        let c = s.last();
        lemma_tidy_prefix(s, s.len() - 1);
        lemma_tidy_folds_to_itself(init);
        if is_space(c) {
            assert(s[s.len() - 1] == 32);
            assert(init.len() > 0);
            assert(init.last() == s[s.len() - 2]);
        } else if c == 59 {
            lemma_open_reference_from(init, 1);
            match open_reference(init) {
                Some((p, cp)) => {
                    lemma_reference_stable(s, init, p, init.len() as int);
                    assert(reference_at(s, p, s.len() - 1) is None);
                },
                None => {},
            }
        }
        assert(init.push(c) =~= s);
    } else {
        assert(s =~= Seq::empty());
    }
}

/// Text in normal form is its own normal form.
pub proof fn lemma_normal_is_fixed(s: Seq<u8>)
    requires
        is_normal(s),
    ensures
        normalized(s) == s,
{
    lemma_tidy_folds_to_itself(s);
}

/// Normalizing is idempotent: the normal form of a normal form is that
/// normal form.
pub proof fn lemma_normalize_idempotent(s: Seq<u8>)
    ensures
        normalized(normalized(s)) == normalized(s),
{
    lemma_normalized_is_normal(s);
    lemma_normal_is_fixed(normalized(s));
}


/// Whether a byte is white space.
pub fn is_space_byte(c: u8) -> (r: bool)
    ensures
        r == is_space(c),
{
    c == 32 || c == 9 || c == 10 || c == 12 || c == 13
}

/// Reads one digit, decimal or (where `hex`) hexadecimal.
pub fn digit_of(c: u8, hex: bool) -> (r: Option<u32>)
    ensures
        match r {
            Some(v) => digit_value(c, hex) == Some(v as int) && v < 16,
            None => digit_value(c, hex) is None,
        },
{
    if 48 <= c && c <= 57 {
        Some((c - 48) as u32)
    } else if hex && 97 <= c && c <= 102 {
        Some((c - 87) as u32)
    } else if hex && 65 <= c && c <= 70 {
        Some((c - 55) as u32)
    } else {
        None
    }
}

/// Reads `out[from ..]` as the digits of a numeric reference.
fn numeric_reference(out: &Vec<u8>, from: usize, hex: bool, max_len: usize) -> (r: Option<u32>)
    requires
        from <= out.len(),
    ensures
        match r {
            Some(v) => numeric_code(out@.subrange(from as int, out@.len() as int), hex, max_len as int)
                == Some(v as int),
            None => numeric_code(out@.subrange(from as int, out@.len() as int), hex, max_len as int)
                is None,
        },
{
    let n = out.len();
    let ghost d = out@.subrange(from as int, n as int);
    if n - from < 1 || n - from > max_len {
        return None;
    }
    let mut acc: u32 = 0;
    let mut i: usize = from;
    while i < n
        invariant
            from <= i <= n,
            n == out@.len(),
            d == out@.subrange(from as int, n as int),
            digits_value(d.take(i - from), hex) == Some(acc as int),
            acc <= MAX_SCALAR,
        decreases n - i,
    {
        proof {
            assert(d.take(i + 1 - from).drop_last() =~= d.take(i - from));
            assert(d.take(i + 1 - from).last() == out@[i as int]);
            if digits_value(d, hex) is Some {
                lemma_digits_prefix(d, hex, i + 1 - from);
            }
        }
        match digit_of(out[i], hex) {
            None => {
                return None;
            },
            Some(x) => {
                let next: u32 = if hex {
                    acc * 16 + x
                } else {
                    acc * 10 + x
                };
                if next > MAX_SCALAR {
                    return None;
                }
                acc = next;
            },
        }
        i += 1;
    }
    proof {
        assert(d.take(n - from) =~= d);
    }
    if acc == 0 || (0xD800 <= acc && acc <= 0xDFFF) {
        None
    } else {
        Some(acc)
    }
}

/// Reads `out[start ..]` as the text between `&` and `;`.
fn reference_code(out: &Vec<u8>, start: usize) -> (r: Option<u32>)
    requires
        start <= out.len(),
    ensures
        match r {
            Some(v) => entity_code(out@.subrange(start as int, out@.len() as int)) == Some(v as int),
            None => entity_code(out@.subrange(start as int, out@.len() as int)) is None,
        },
{
    let n = out.len() - start;
    let ghost body = out@.subrange(start as int, out@.len() as int);
    if n == 3 && out[start] == 97 && out[start + 1] == 109 && out[start + 2] == 112 {
        Some(38)
    } else if n == 2 && out[start] == 108 && out[start + 1] == 116 {
        Some(60)
    } else if n == 2 && out[start] == 103 && out[start + 1] == 116 {
        Some(62)
    } else if n == 4 && out[start] == 113 && out[start + 1] == 117 && out[start + 2] == 111
        && out[start + 3] == 116 {
        Some(34)
    } else if n == 4 && out[start] == 97 && out[start + 1] == 112 && out[start + 2] == 111
        && out[start + 3] == 115 {
        Some(39)
    } else if n == 4 && out[start] == 110 && out[start + 1] == 98 && out[start + 2] == 115
        && out[start + 3] == 112 {
        Some(160)
    } else if n >= 2 && out[start] == NUMBER_SIGN && (out[start + 1] == 120 || out[start + 1] == 88) {
        proof {
            assert(body.skip(2) =~= out@.subrange(start + 2, out@.len() as int));
        }
        numeric_reference(out, start + 2, true, 6)
    } else if n >= 1 && out[start] == NUMBER_SIGN {
        proof {
            assert(body.skip(1) =~= out@.subrange(start + 1, out@.len() as int));
        }
        numeric_reference(out, start + 1, false, 7)
    } else {
        None
    }
}

/// Looks for the reference that a `;` behind `out` would close.
fn find_reference(out: &Vec<u8>) -> (r: Option<(usize, u32)>)
    ensures
        match r {
            Some((p, cp)) => open_reference(out@) == Some((p as int, cp as int)) && p < out.len(),
            None => open_reference(out@) is None,
        },
{
    let n = out.len();
    let mut l: usize = 1;
    while l <= MAX_REFERENCE_BODY
        invariant
            1 <= l <= 9,
            n == out@.len(),
            open_reference(out@) == open_reference_from(out@, l as int),
        decreases 9 - l,
    {
        if l < n && out[n - 1 - l] == AMPERSAND {
            match reference_code(out, n - l) {
                Some(cp) => {
                    return Some((n - 1 - l, cp));
                },
                None => {},
            }
        }
        l += 1;
    }
    None
}

/// Appends the UTF-8 encoding of a code point above ASCII.
pub fn push_utf8(out: &mut Vec<u8>, cp: u32)
    requires
        128 <= cp <= MAX_SCALAR,
    ensures
        final(out)@ == old(out)@ + utf8(cp as int),
{
    if cp < 0x800 {
        out.push((0xC0 + cp / 64) as u8);
        out.push((0x80 + cp % 64) as u8);
    } else if cp < 0x10000 {
        out.push((0xE0 + cp / 4096) as u8);
        out.push((0x80 + (cp / 64) % 64) as u8);
        out.push((0x80 + cp % 64) as u8);
    } else {
        out.push((0xF0 + cp / 262144) as u8);
        out.push((0x80 + (cp / 4096) % 64) as u8);
        out.push((0x80 + (cp / 64) % 64) as u8);
        out.push((0x80 + cp % 64) as u8);
    }
    assert(out@ =~= old(out)@ + utf8(cp as int));
}

/// Takes one more byte into the tidy text `out`.
fn take_in(out: &mut Vec<u8>, c: u8)
    ensures
        final(out)@ == push_byte(old(out)@, c),
{
    let mut next: u8 = c;
    loop
        invariant_except_break
            push_byte(out@, next) == push_byte(old(out)@, c),
        ensures
            out@ == push_byte(old(out)@, c),
        decreases out@.len(),
    {
        if is_space_byte(next) {
            let n = out.len();
            if n > 0 && out[n - 1] != SPACE {
                out.push(SPACE);
            }
            break;
        } else if next == SEMICOLON {
            match find_reference(out) {
                Some((p, cp)) => {
                    proof {
                        lemma_open_reference_from(out@, 1);
                        lemma_entity_body_len(out@.subrange(p + 1, out@.len() as int));
                    }
                    out.truncate(p);
                    if cp < 128 {
                        next = cp as u8;
                    } else {
                        push_utf8(out, cp);
                        break;
                    }
                },
                None => {
                    out.push(next);
                    break;
                },
            }
        } else {
            out.push(next);
            break;
        }
    }
}

/// Brings a title or a summary into normal form: every character
/// reference replaced by its character, every run of white space by one
/// space, and no space at either end.
pub fn normalize_text(input: &[u8]) -> (out: Vec<u8>)
    ensures
        out@ == normalized(input@),
        is_normal(out@),
        is_normal(input@) ==> out@ == input@,
{
    let mut out: Vec<u8> = Vec::new();
    let mut i: usize = 0;
    while i < input.len()
        invariant
            0 <= i <= input@.len(),
            out@ == folded(input@.take(i as int)),
        decreases input@.len() - i,
    {
        proof {
            assert(input@.take(i + 1).drop_last() =~= input@.take(i as int));
        }
        take_in(&mut out, input[i]);
        i += 1;
    }
    proof {
        assert(input@.take(i as int) =~= input@);
        lemma_normalized_is_normal(input@);
        if is_normal(input@) {
            lemma_normal_is_fixed(input@);
        }
    }
    let n = out.len();
    if n > 0 && out[n - 1] == SPACE {
        out.pop();
    }
    out
}

} // verus!
