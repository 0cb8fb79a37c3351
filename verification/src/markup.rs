//! Scanning a payload of markup into tokens: tags and the text between them.
//!
//! What is scanned is the part of XML that feeds use. A tag ends at the
//! first `>` behind its `<`. Comments, processing instructions and
//! declarations are passed over; a CDATA section is text. A `<` that
//! nothing closes is malformed.

use vstd::prelude::*;
use vstd::string::StringSliceAdditionalSpecFns;
use crate::text::{is_space, is_space_byte};

verus! {

/// What a token is.
#[derive(Clone, Copy, Debug, PartialEq, Eq, Structural)]
pub enum TokenKind {
    /// A start tag, `<name ...>`.
    Open,
    /// An end tag, `</name>`.
    Close,
    /// An empty-element tag, `<name ... />`.
    Empty,
    /// Text between tags, or the content of a CDATA section.
    Text,
}

/// A token: its kind and the bytes of the payload that it spans. For a
/// tag these are the bytes between the angle brackets, without the slash
/// that marks an end tag or an empty element; for text, the text.
#[derive(Clone, Copy, Debug, PartialEq, Eq, Structural)]
pub struct Token {
    pub kind: TokenKind,
    pub start: usize,
    pub end: usize,
}

pub const LESS_THAN: u8 = 60;

pub const SOLIDUS: u8 = 47;

pub const EXCLAMATION: u8 = 33;

/// `needle` stands in `s` at position `i`.
pub open spec fn holds_at(s: Seq<u8>, needle: Seq<u8>, i: int) -> bool {
    0 <= i && i + needle.len() <= s.len() && s.subrange(i, i + needle.len()) == needle
}

/// The first position at or behind `from` at which `needle` stands in `s`.
pub open spec fn next_match(s: Seq<u8>, needle: Seq<u8>, from: int) -> Option<int>
    decreases s.len() - from,
{
    if from < 0 || from >= s.len() || from + needle.len() > s.len() {
        None
    } else if holds_at(s, needle, from) {
        Some(from)
    } else {
        next_match(s, needle, from + 1)
    }
}

pub open spec fn tag_close() -> Seq<u8> {
    ">".spec_bytes()
}

pub open spec fn text_stop() -> Seq<u8> {
    "<".spec_bytes()
}

pub open spec fn comment_open() -> Seq<u8> {
    "<!--".spec_bytes()
}

pub open spec fn comment_close() -> Seq<u8> {
    "-->".spec_bytes()
}

pub open spec fn cdata_open() -> Seq<u8> {
    "<![CDATA[".spec_bytes()
}

pub open spec fn cdata_close() -> Seq<u8> {
    "]]>".spec_bytes()
}

pub open spec fn instruction_open() -> Seq<u8> {
    "<?".spec_bytes()
}

pub open spec fn instruction_close() -> Seq<u8> {
    "?>".spec_bytes()
}

/// The token with the given kind and span.
pub open spec fn token(kind: TokenKind, start: int, end: int) -> Token {
    Token { kind: kind, start: start as usize, end: end as usize }
}

/// A tag's inside `s[a .. b]` begins with a name.
pub open spec fn names_tag(s: Seq<u8>, a: int, b: int) -> bool {
    0 <= a < b <= s.len() && !is_space(s[a])
}

/// What stands in `s` at `pos`: nothing that can be read (`None`), or the
/// token that starts there, if it is one, and the position behind it.
pub open spec fn scan_at(s: Seq<u8>, pos: int) -> Option<(Option<Token>, int)>
    recommends
        0 <= pos < s.len(),
{
    if s[pos] != LESS_THAN {
        let e = match next_match(s, text_stop(), pos) {
            Some(k) => k,
            None => s.len() as int,
        };
        Some((Some(token(TokenKind::Text, pos, e)), e))
    } else if holds_at(s, comment_open(), pos) {
        match next_match(s, comment_close(), pos + comment_open().len()) {
            Some(k) => Some((None, k + comment_close().len())),
            None => None,
        }
    } else if holds_at(s, cdata_open(), pos) {
        match next_match(s, cdata_close(), pos + cdata_open().len()) {
            Some(k) => Some(
                (
                    Some(token(TokenKind::Text, pos + cdata_open().len(), k)),
                    k + cdata_close().len(),
                ),
            ),
            None => None,
        }
    } else if holds_at(s, instruction_open(), pos) {
        match next_match(s, instruction_close(), pos + instruction_open().len()) {
            Some(k) => Some((None, k + instruction_close().len())),
            None => None,
        }
    } else {
        match next_match(s, tag_close(), pos + 1) {
            Some(k) => {
                let behind = k + tag_close().len();
                if pos + 1 < k && s[pos + 1] == EXCLAMATION {
                    Some((None, behind))
                } else if pos + 1 < k && s[pos + 1] == SOLIDUS {
                    if names_tag(s, pos + 2, k) {
                        Some((Some(token(TokenKind::Close, pos + 2, k)), behind))
                    } else {
                        None
                    }
                } else if pos + 1 < k && s[k - 1] == SOLIDUS {
                    if names_tag(s, pos + 1, k - 1) {
                        Some((Some(token(TokenKind::Empty, pos + 1, k - 1)), behind))
                    } else {
                        None
                    }
                } else if names_tag(s, pos + 1, k) {
                    Some((Some(token(TokenKind::Open, pos + 1, k)), behind))
                } else {
                    None
                }
            },
            None => None,
        }
    }
}

/// The tokens of `s` from `pos` on, or nothing if `s` is malformed there.
pub open spec fn tokens_from(s: Seq<u8>, pos: int) -> Option<Seq<Token>>
    decreases s.len() - pos,
{
    if pos < 0 || pos >= s.len() {
        Some(Seq::empty())
    } else {
        match scan_at(s, pos) {
            Some((piece, next)) => if pos < next <= s.len() {
                match tokens_from(s, next) {
                    Some(rest) => match piece {
                        Some(t) => Some(seq![t] + rest),
                        None => Some(rest),
                    },
                    None => None,
                }
            } else {
                None
            },
            None => None,
        }
    }
}

/// The tokens of the payload `s`, or nothing if it is malformed.
pub open spec fn tokens_of(s: Seq<u8>) -> Option<Seq<Token>> {
    tokens_from(s, 0)
}

/// Every token of `ts` spans bytes of a payload of `len` bytes.
pub open spec fn tokens_within(ts: Seq<Token>, len: int) -> bool {
    forall|i: int| 0 <= i < ts.len() ==> (#[trigger] ts[i]).start <= ts[i].end <= len
}

/// Where the name of a tag ends: at the first white space in `s[i .. end]`.
pub open spec fn name_end(s: Seq<u8>, i: int, end: int) -> int
    decreases end - i,
{
    if 0 <= i < end <= s.len() && !is_space(s[i]) {
        name_end(s, i + 1, end)
    } else {
        i
    }
}

/// The name of the tag `t`.
pub open spec fn tag_name(s: Seq<u8>, t: Token) -> Seq<u8> {
    s.subrange(t.start as int, name_end(s, t.start as int, t.end as int))
}

/// Whether `needle` stands in `s` at position `i`.
pub fn matches_at(s: &[u8], needle: &[u8], i: usize) -> (r: bool)
    ensures
        r == holds_at(s@, needle@, i as int),
{
    if i > s.len() || needle.len() > s.len() - i {
        return false;
    }
    let ghost part = s@.subrange(i as int, i + needle@.len());
    let mut j: usize = 0;
    while j < needle.len()
        invariant
            j <= needle@.len(),
            i + needle@.len() <= s@.len() <= usize::MAX,
            part == s@.subrange(i as int, i + needle@.len()),
            forall|k: int| 0 <= k < j ==> part[k] == needle@[k],
        decreases needle@.len() - j,
    {
        assert(part[j as int] == s@[i + j]);
        if s[i + j] != needle[j] {
            return false;
        }
        j += 1;
    }
    assert(part =~= needle@);
    true
}

/// Finds the first position at or behind `from` at which `needle` stands.
pub fn find_bytes(s: &[u8], needle: &[u8], from: usize) -> (r: Option<usize>)
    ensures
        match r {
            Some(k) => next_match(s@, needle@, from as int) == Some(k as int) && from <= k
                && k + needle@.len() <= s@.len(),
            None => next_match(s@, needle@, from as int) is None,
        },
{
    let mut i: usize = from;
    while i < s.len() && needle.len() <= s.len() - i
        invariant
            from <= i,
            next_match(s@, needle@, from as int) == next_match(s@, needle@, i as int),
        decreases s@.len() - i,
    {
        if matches_at(s, needle, i) {
            return Some(i);
        }
        i += 1;
    }
    None
}


/// Reads what stands at `pos`.
fn scan(s: &[u8], pos: usize) -> (r: Option<(Option<Token>, usize)>)
    requires
        pos < s@.len(),
    ensures
        match r {
            Some((piece, next)) => scan_at(s@, pos as int) == Some((piece, next as int)) && (
            piece matches Some(t) ==> t.start <= t.end <= s@.len()),
            None => scan_at(s@, pos as int) is None,
        },
{
    if s[pos] != LESS_THAN {
        let e = match find_bytes(s, "<".as_bytes(), pos) {
            Some(k) => k,
            None => s.len(),
        };
        Some((Some(Token { kind: TokenKind::Text, start: pos, end: e }), e))
    } else if matches_at(s, "<!--".as_bytes(), pos) {
        match find_bytes(s, "-->".as_bytes(), pos + "<!--".as_bytes().len()) {
            Some(k) => Some((None, k + "-->".as_bytes().len())),
            None => None,
        }
    } else if matches_at(s, "<![CDATA[".as_bytes(), pos) {
        let from = pos + "<![CDATA[".as_bytes().len();
        match find_bytes(s, "]]>".as_bytes(), from) {
            Some(k) => Some(
                (Some(Token { kind: TokenKind::Text, start: from, end: k }), k + "]]>".as_bytes().len()),
            ),
            None => None,
        }
    } else if matches_at(s, "<?".as_bytes(), pos) {
        match find_bytes(s, "?>".as_bytes(), pos + "<?".as_bytes().len()) {
            Some(k) => Some((None, k + "?>".as_bytes().len())),
            None => None,
        }
    } else {
        match find_bytes(s, ">".as_bytes(), pos + 1) {
            Some(k) => {
                let behind = k + ">".as_bytes().len();
                if pos + 1 < k && s[pos + 1] == EXCLAMATION {
                    Some((None, behind))
                } else if pos + 1 < k && s[pos + 1] == SOLIDUS {
                    if pos + 2 < k && !is_space_byte(s[pos + 2]) {
                        Some((Some(Token { kind: TokenKind::Close, start: pos + 2, end: k }), behind))
                    } else {
                        None
                    }
                } else if pos + 1 < k && s[k - 1] == SOLIDUS {
                    if pos + 1 < k - 1 && !is_space_byte(s[pos + 1]) {
                        Some(
                            (Some(Token { kind: TokenKind::Empty, start: pos + 1, end: k - 1 }), behind),
                        )
                    } else {
                        None
                    }
                } else if pos + 1 < k && !is_space_byte(s[pos + 1]) {
                    Some((Some(Token { kind: TokenKind::Open, start: pos + 1, end: k }), behind))
                } else {
                    None
                }
            },
            None => None,
        }
    }
}

/// The tokens read so far, followed by those that are still to come.
pub open spec fn joined(done: Seq<Token>, rest: Option<Seq<Token>>) -> Option<Seq<Token>> {
    match rest {
        Some(r) => Some(done + r),
        None => None,
    }
}

/// Scans a payload into its tokens, or finds it malformed.
pub fn tokenize(s: &[u8]) -> (r: Option<Vec<Token>>)
    ensures
        match r {
            Some(v) => tokens_of(s@) == Some(v@) && tokens_within(v@, s@.len() as int),
            None => tokens_of(s@) is None,
        },
{
    let mut tokens: Vec<Token> = Vec::new();
    let mut pos: usize = 0;
    proof {
        if tokens_from(s@, 0) is Some {
            assert(tokens@ + tokens_from(s@, 0)->0 =~= tokens_from(s@, 0)->0);
        }
    }
    while pos < s.len()
        invariant
            pos <= s@.len(),
            tokens_within(tokens@, s@.len() as int),
            tokens_of(s@) == joined(tokens@, tokens_from(s@, pos as int)),
        decreases s@.len() - pos,
    {
        match scan(s, pos) {
            None => {
                return None;
            },
            Some((piece, next)) => {
                if next <= pos || next > s.len() {
                    return None;
                }
                let ghost before = tokens@;
                match piece {
                    Some(t) => {
                        tokens.push(t);
                    },
                    None => {},
                }
                proof {
                    match tokens_from(s@, next as int) {
                        Some(rest) => {
                            match piece {
                                Some(t) => {
                                    assert(before + (seq![t] + rest) =~= before.push(t) + rest);
                                },
                                None => {},
                            }
                        },
                        None => {},
                    }
                }
                pos = next;
            },
        }
    }
    proof {
        assert(tokens@ + Seq::<Token>::empty() =~= tokens@);
    }
    Some(tokens)
}

/// Finds where the name of a tag ends.
pub fn find_name_end(s: &[u8], start: usize, end: usize) -> (r: usize)
    requires
        start <= end <= s@.len(),
    ensures
        r == name_end(s@, start as int, end as int),
        start <= r <= end,
{
    let mut i: usize = start;
    while i < end && !is_space_byte(s[i])
        invariant
            start <= i <= end <= s@.len(),
            name_end(s@, start as int, end as int) == name_end(s@, i as int, end as int),
        decreases end - i,
    {
        i += 1;
    }
    i
}

} // verus!
