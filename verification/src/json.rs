//! Scanning a payload of JSON into tokens, and reading its strings.
//!
//! The scanner tells the six marks of structure, strings and other values
//! apart and passes over white space. A string ends at the first quotation
//! mark that no backslash stands before. What else can stand as a value, a
//! number or one of the three names, is scanned as a run of letters, digits,
//! signs and points, and not looked into.

use vstd::prelude::*;
use crate::text::{digit_of, digit_value, is_space, is_space_byte, push_utf8, utf8};

verus! {

/// What a token of JSON is.
#[derive(Clone, Copy, Debug, PartialEq, Eq, Structural)]
pub enum JsonKind {
    BeginObject,
    EndObject,
    BeginArray,
    EndArray,
    Colon,
    Comma,
    /// A string; the token spans what stands between the quotation marks.
    Text,
    /// A number, `true`, `false` or `null`.
    Scalar,
}

/// A token and the bytes of the payload that it spans.
#[derive(Clone, Copy, Debug, PartialEq, Eq, Structural)]
pub struct JsonToken {
    pub kind: JsonKind,
    pub start: usize,
    pub end: usize,
}

pub const QUOTE: u8 = 34;

pub const BACKSLASH: u8 = 92;

/// The code point that stands for what cannot be read.
pub const REPLACEMENT: u32 = 0xFFFD;

/// The mark of structure that a byte is, if it is one.
pub open spec fn mark_of(c: u8) -> Option<JsonKind> {
    if c == 123 {
        Some(JsonKind::BeginObject)
    } else if c == 125 {
        Some(JsonKind::EndObject)
    } else if c == 91 {
        Some(JsonKind::BeginArray)
    } else if c == 93 {
        Some(JsonKind::EndArray)
    } else if c == 58 {
        Some(JsonKind::Colon)
    } else if c == 44 {
        Some(JsonKind::Comma)
    } else {
        None
    }
}

/// A byte that a number or a name can hold.
pub open spec fn is_scalar_byte(c: u8) -> bool {
    48 <= c <= 57 || 97 <= c <= 122 || 65 <= c <= 90 || c == 45 || c == 43 || c == 46
}

/// Where the string ends that begins before position `i`: the first
/// quotation mark at or behind `i` that no backslash stands before.
pub open spec fn string_end(s: Seq<u8>, i: int) -> Option<int>
    decreases s.len() - i,
{
    if i < 0 || i >= s.len() {
        None
    } else if s[i] == QUOTE {
        Some(i)
    } else if s[i] == BACKSLASH {
        if i + 1 < s.len() {
            string_end(s, i + 2)
        } else {
            None
        }
    } else {
        string_end(s, i + 1)
    }
}

/// The first position at or behind `i` that holds no byte of a scalar.
pub open spec fn scalar_end(s: Seq<u8>, i: int) -> int
    decreases s.len() - i,
{
    if 0 <= i < s.len() && is_scalar_byte(s[i]) {
        scalar_end(s, i + 1)
    } else {
        i
    }
}

pub open spec fn json_token(kind: JsonKind, start: int, end: int) -> JsonToken {
    JsonToken { kind: kind, start: start as usize, end: end as usize }
}

/// What stands in `s` at `pos`: nothing that can be read (`None`), or the
/// token that starts there, if it is one, and the position behind it.
pub open spec fn json_scan_at(s: Seq<u8>, pos: int) -> Option<(Option<JsonToken>, int)>
    recommends
        0 <= pos < s.len(),
{
    let c = s[pos];
    if is_space(c) {
        Some((None, pos + 1))
    } else if mark_of(c) is Some {
        Some((Some(json_token(mark_of(c)->0, pos, pos + 1)), pos + 1))
    } else if c == QUOTE {
        match string_end(s, pos + 1) {
            Some(e) => Some((Some(json_token(JsonKind::Text, pos + 1, e)), e + 1)),
            None => None,
        }
    } else if is_scalar_byte(c) {
        Some((Some(json_token(JsonKind::Scalar, pos, scalar_end(s, pos))), scalar_end(s, pos)))
    } else {
        None
    }
}

/// The tokens of `s` from `pos` on, or nothing if `s` is malformed there.
pub open spec fn json_tokens_from(s: Seq<u8>, pos: int) -> Option<Seq<JsonToken>>
    decreases s.len() - pos,
{
    if pos < 0 || pos >= s.len() {
        Some(Seq::empty())
    } else {
        match json_scan_at(s, pos) {
            Some((piece, next)) => if pos < next <= s.len() {
                match json_tokens_from(s, next) {
                    Some(rest) => match piece {
                        Some(t) => Some(seq![t] + rest),
                        None => Some(rest),
                    },
                    None => None,
                }
            } else {
                None
            },
            None => None,
        }
    }
}

/// The tokens of the payload `s`, or nothing if it is malformed.
pub open spec fn json_tokens_of(s: Seq<u8>) -> Option<Seq<JsonToken>> {
    json_tokens_from(s, 0)
}

/// Every token of `ts` spans bytes of a payload of `len` bytes.
pub open spec fn json_tokens_within(ts: Seq<JsonToken>, len: int) -> bool {
    forall|i: int| 0 <= i < ts.len() ==> (#[trigger] ts[i]).start <= ts[i].end <= len
}

/// The tokens read so far, followed by those that are still to come.
pub open spec fn json_joined(done: Seq<JsonToken>, rest: Option<Seq<JsonToken>>) -> Option<
    Seq<JsonToken>,
> {
    match rest {
        Some(r) => Some(done + r),
        None => None,
    }
}

/// The number that the four hexadecimal digits from position `i` write.
pub open spec fn four_hex(s: Seq<u8>, i: int, end: int) -> Option<int> {
    if 0 <= i && i + 4 <= end <= s.len() {
        match (
            digit_value(s[i], true),
            digit_value(s[i + 1], true),
            digit_value(s[i + 2], true),
            digit_value(s[i + 3], true),
        ) {
            (Some(a), Some(b), Some(c), Some(d)) => Some(((a * 16 + b) * 16 + c) * 16 + d),
            _ => None,
        }
    } else {
        None
    }
}

/// The code unit that the escape `\uXXXX` at position `i` writes.
pub open spec fn unit_at(s: Seq<u8>, i: int, end: int) -> Option<int> {
    if 0 <= i && i + 6 <= end <= s.len() && s[i] == BACKSLASH && s[i + 1] == 117 {
        four_hex(s, i + 2, end)
    } else {
        None
    }
}

/// The byte that a backslash and the byte `c` write together.
pub open spec fn short_escape(c: u8) -> u8 {
    if c == 110 {
        10
    } else if c == 116 {
        9
    } else if c == 114 {
        13
    } else if c == 98 {
        8
    } else if c == 102 {
        12
    } else {
        c
    }
}

/// The bytes of a code point: itself where it is ASCII, else its UTF-8.
pub open spec fn encoded(cp: int) -> Seq<u8> {
    if cp < 128 {
        seq![cp as u8]
    } else {
        utf8(cp)
    }
}

/// What the escape at position `i` of `s[.. end]` writes, and how many
/// bytes it takes. `\uXXXX` writes its character, two of them a character
/// beyond the first plane where they are a surrogate pair, and the
/// replacement character where it names none; a backslash before any
/// other byte writes that byte, or the control character it stands for.
pub open spec fn escape_at(s: Seq<u8>, i: int, end: int) -> (Seq<u8>, int) {
    match unit_at(s, i, end) {
        Some(hi) => if 0xD800 <= hi <= 0xDBFF {
            match unit_at(s, i + 6, end) {
                Some(lo) => if 0xDC00 <= lo <= 0xDFFF {
                    (utf8(0x10000 + (hi - 0xD800) * 1024 + (lo - 0xDC00)), 12)
                } else {
                    (utf8(0xFFFD), 6)
                },
                None => (utf8(0xFFFD), 6),
            }
        } else if 0xDC00 <= hi <= 0xDFFF || hi == 0 {
            (utf8(0xFFFD), 6)
        } else {
            (encoded(hi), 6)
        },
        None => (seq![short_escape(s[i + 1])], 2),
    }
}

/// The text that the string `s[i .. end]` writes, escapes resolved.
pub open spec fn unescaped_from(s: Seq<u8>, i: int, end: int) -> Seq<u8>
    decreases end - i,
{
    if i < 0 || i >= end || end > s.len() {
        Seq::empty()
    } else if s[i] == BACKSLASH && i + 1 < end {
        let (bytes, taken) = escape_at(s, i, end);
        if taken > 0 {
            bytes + unescaped_from(s, i + taken, end)
        } else {
            bytes
        }
    } else {
        seq![s[i]] + unescaped_from(s, i + 1, end)
    }
}

/// The text that the string token `t` writes.
pub open spec fn text_of(s: Seq<u8>, t: JsonToken) -> Seq<u8> {
    unescaped_from(s, t.start as int, t.end as int)
}

fn mark_byte(c: u8) -> (r: Option<JsonKind>)
    ensures
        r == mark_of(c),
{
    if c == 123 {
        Some(JsonKind::BeginObject)
    } else if c == 125 {
        Some(JsonKind::EndObject)
    } else if c == 91 {
        Some(JsonKind::BeginArray)
    } else if c == 93 {
        Some(JsonKind::EndArray)
    } else if c == 58 {
        Some(JsonKind::Colon)
    } else if c == 44 {
        Some(JsonKind::Comma)
    } else {
        None
    }
}

fn scalar_byte(c: u8) -> (r: bool)
    ensures
        r == is_scalar_byte(c),
{
    (48 <= c && c <= 57) || (97 <= c && c <= 122) || (65 <= c && c <= 90) || c == 45 || c == 43
        || c == 46
}

/// Finds the end of the string that begins before position `from`.
fn find_string_end(s: &[u8], from: usize) -> (r: Option<usize>)
    ensures
        match r {
            Some(e) => string_end(s@, from as int) == Some(e as int) && from <= e < s@.len(),
            None => string_end(s@, from as int) is None,
        },
{
    let mut i: usize = from;
    while i < s.len()
        invariant
            from <= i,
            string_end(s@, from as int) == string_end(s@, i as int),
        decreases s@.len() - i,
    {
        if s[i] == QUOTE {
            return Some(i);
        } else if s[i] == BACKSLASH {
            if s.len() - i < 2 {
                return None;
            }
            i += 2;
        } else {
            i += 1;
        }
    }
    None
}

fn find_scalar_end(s: &[u8], from: usize) -> (r: usize)
    requires
        from <= s@.len(),
    ensures
        r == scalar_end(s@, from as int),
        from <= r <= s@.len(),
{
    let mut i: usize = from;
    while i < s.len() && scalar_byte(s[i])
        invariant
            from <= i <= s@.len(),
            scalar_end(s@, from as int) == scalar_end(s@, i as int),
        decreases s@.len() - i,
    {
        i += 1;
    }
    i
}

/// Reads what stands at `pos`.
fn json_scan(s: &[u8], pos: usize) -> (r: Option<(Option<JsonToken>, usize)>)
    requires
        pos < s@.len(),
    ensures
        match r {
            Some((piece, next)) => json_scan_at(s@, pos as int) == Some((piece, next as int)) && pos
                < next <= s@.len() && (piece matches Some(t) ==> t.start <= t.end <= s@.len()),
            None => json_scan_at(s@, pos as int) is None,
        },
{
    let c = s[pos];
    if is_space_byte(c) {
        return Some((None, pos + 1));
    }
    match mark_byte(c) {
        Some(kind) => {
            return Some((Some(JsonToken { kind: kind, start: pos, end: pos + 1 }), pos + 1));
        },
        None => {},
    }
    if c == QUOTE {
        match find_string_end(s, pos + 1) {
            Some(e) => Some((Some(JsonToken { kind: JsonKind::Text, start: pos + 1, end: e }), e + 1)),
            None => None,
        }
    } else if scalar_byte(c) {
        let e = find_scalar_end(s, pos);
        assert(e > pos) by {
            assert(scalar_end(s@, pos as int) == scalar_end(s@, pos + 1));
            lemma_scalar_end(s@, pos + 1);
        }
        Some((Some(JsonToken { kind: JsonKind::Scalar, start: pos, end: e }), e))
    } else {
        None
    }
}

proof fn lemma_scalar_end(s: Seq<u8>, i: int)
    requires
        0 <= i <= s.len(),
    ensures
        i <= scalar_end(s, i) <= s.len(),
    decreases s.len() - i,
{
    if i < s.len() && is_scalar_byte(s[i]) {
        lemma_scalar_end(s, i + 1);
    }
}

/// Scans a payload of JSON into its tokens, or finds it malformed.
pub fn json_tokenize(s: &[u8]) -> (r: Option<Vec<JsonToken>>)
    ensures
        match r {
            Some(v) => json_tokens_of(s@) == Some(v@) && json_tokens_within(v@, s@.len() as int),
            None => json_tokens_of(s@) is None,
        },
{
    let mut tokens: Vec<JsonToken> = Vec::new();
    let mut pos: usize = 0;
    proof {
        if json_tokens_from(s@, 0) is Some {
            assert(tokens@ + json_tokens_from(s@, 0)->0 =~= json_tokens_from(s@, 0)->0);
        }
    }
    while pos < s.len()
        invariant
            pos <= s@.len(),
            json_tokens_within(tokens@, s@.len() as int),
            json_tokens_of(s@) == json_joined(tokens@, json_tokens_from(s@, pos as int)),
        decreases s@.len() - pos,
    {
        match json_scan(s, pos) {
            None => {
                return None;
            },
            Some((piece, next)) => {
                let ghost before = tokens@;
                match piece {
                    Some(t) => {
                        tokens.push(t);
                    },
                    None => {},
                }
                proof {
                    match json_tokens_from(s@, next as int) {
                        Some(rest) => {
                            match piece {
                                Some(t) => {
                                    assert(before + (seq![t] + rest) =~= before.push(t) + rest);
                                },
                                None => {},
                            }
                        },
                        None => {},
                    }
                }
                pos = next;
            },
        }
    }
    proof {
        assert(tokens@ + Seq::<JsonToken>::empty() =~= tokens@);
    }
    Some(tokens)
}

fn read_four_hex(s: &[u8], i: usize, end: usize) -> (r: Option<u32>)
    requires
        end <= s@.len(),
    ensures
        match r {
            Some(v) => four_hex(s@, i as int, end as int) == Some(v as int) && v <= 0xFFFF,
            None => four_hex(s@, i as int, end as int) is None,
        },
{
    if i > end || end - i < 4 {
        return None;
    }
    match (
        digit_of(s[i], true),
        digit_of(s[i + 1], true),
        digit_of(s[i + 2], true),
        digit_of(s[i + 3], true),
    ) {
        (Some(a), Some(b), Some(c), Some(d)) => Some(((a * 16 + b) * 16 + c) * 16 + d),
        _ => None,
    }
}

fn read_unit(s: &[u8], i: usize, end: usize) -> (r: Option<u32>)
    requires
        end <= s@.len(),
    ensures
        match r {
            Some(v) => unit_at(s@, i as int, end as int) == Some(v as int) && v <= 0xFFFF,
            None => unit_at(s@, i as int, end as int) is None,
        },
{
    if i > end || end - i < 6 {
        return None;
    }
    if s[i] == BACKSLASH && s[i + 1] == 117 {
        read_four_hex(s, i + 2, end)
    } else {
        None
    }
}

fn push_code(out: &mut Vec<u8>, cp: u32)
    requires
        0 < cp <= 0x10FFFF,
    ensures
        final(out)@ == old(out)@ + encoded(cp as int),
{
    if cp < 128 {
        out.push(cp as u8);
        assert(out@ =~= old(out)@ + encoded(cp as int));
    } else {
        push_utf8(out, cp);
    }
}

/// Resolves the escape at position `i` and appends what it writes.
fn push_escape(out: &mut Vec<u8>, s: &[u8], i: usize, end: usize) -> (taken: usize)
    requires
        i + 1 < end <= s@.len(),
        s@[i as int] == BACKSLASH,
    ensures
        final(out)@ == old(out)@ + escape_at(s@, i as int, end as int).0,
        taken == escape_at(s@, i as int, end as int).1,
        taken == 2 || taken == 6 || taken == 12,
        i + taken <= end,
{
    match read_unit(s, i, end) {
        Some(hi) => {
            if 0xD800 <= hi && hi <= 0xDBFF {
                let second = if end - i >= 12 {
                    read_unit(s, i + 6, end)
                } else {
                    None
                };
                match second {
                    Some(lo) => {
                        if 0xDC00 <= lo && lo <= 0xDFFF {
                            push_utf8(out, 0x10000 + (hi - 0xD800) * 1024 + (lo - 0xDC00));
                            12
                        } else {
                            push_utf8(out, REPLACEMENT);
                            6
                        }
                    },
                    None => {
                        push_utf8(out, REPLACEMENT);
                        6
                    },
                }
            } else if (0xDC00 <= hi && hi <= 0xDFFF) || hi == 0 {
                push_utf8(out, REPLACEMENT);
                6
            } else {
                push_code(out, hi);
                6
            }
        },
        None => {
            let c = s[i + 1];
            let b: u8 = if c == 110 {
                10
            } else if c == 116 {
                9
            } else if c == 114 {
                13
            } else if c == 98 {
                8
            } else if c == 102 {
                12
            } else {
                c
            };
            out.push(b);
            assert(out@ =~= old(out)@ + seq![short_escape(c)]);
            2
        },
    }
}

/// Reads the text that the string `s[start .. end]` writes.
pub fn unescape(s: &[u8], start: usize, end: usize) -> (out: Vec<u8>)
    requires
        start <= end <= s@.len(),
    ensures
        out@ == unescaped_from(s@, start as int, end as int),
{
    let mut out: Vec<u8> = Vec::new();
    let mut i: usize = start;
    proof {
        assert(out@ + unescaped_from(s@, start as int, end as int) =~= unescaped_from(
            s@,
            start as int,
            end as int,
        ));
    }
    while i < end
        invariant
            start <= i <= end <= s@.len(),
            out@ + unescaped_from(s@, i as int, end as int) == unescaped_from(
                s@,
                start as int,
                end as int,
            ),
        decreases end - i,
    {
        let ghost before = out@;
        if s[i] == BACKSLASH && end - i > 1 {
            let taken = push_escape(&mut out, s, i, end);
            proof {
                let bytes = escape_at(s@, i as int, end as int).0;
                assert(before + (bytes + unescaped_from(s@, i + taken, end as int)) =~= (before
                    + bytes) + unescaped_from(s@, i + taken, end as int));
            }
            i += taken;
        } else {
            out.push(s[i]);
            proof {
                assert(before + (seq![s@[i as int]] + unescaped_from(s@, i + 1, end as int))
                    =~= before.push(s@[i as int]) + unescaped_from(s@, i + 1, end as int));
            }
            i += 1;
        }
    }
    proof {
        assert(unescaped_from(s@, end as int, end as int) =~= Seq::<u8>::empty());
        assert(out@ + Seq::<u8>::empty() =~= out@);
    }
    out
}

} // verus!
