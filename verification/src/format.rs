//! The syndication formats and how the format of a payload is found.

use vstd::prelude::*;
use vstd::string::StringSliceAdditionalSpecFns;
use crate::bytes::{lower, lower_byte};
use crate::text::{is_space, is_space_byte};

verus! {

/// A syndication format that the engine reads.
#[derive(Clone, Copy, Debug, PartialEq, Eq, Structural)]
pub enum FormatKind {
    /// RSS 2.0.
    Rss,
    /// Atom 1.0.
    Atom,
    /// JSON Feed.
    Json,
}

/// Why a payload is malformed.
#[derive(Clone, Copy, Debug, PartialEq, Eq, Structural)]
pub enum Malformation {
    /// A tag or a string that nothing closes, a tag without a name, or a
    /// byte that can begin nothing.
    BrokenMarkup,
    /// The root is not that of the format, or there is none, or there
    /// are two.
    WrongRoot,
    /// An end that does not fit what is open.
    Mismatch,
    /// Something is still open at the end.
    Unclosed,
    /// A value, a name, a colon or a comma where none can stand.
    Misplaced,
}

/// How many bytes at the start of a payload are looked at for a marker.
pub const SNIFF_WINDOW: usize = 512;

/// `s` with its ASCII letters in lower case.
pub open spec fn lowered(s: Seq<u8>) -> Seq<u8> {
    Seq::new(s.len(), |k: int| lower(s[k]))
}

/// `needle` stands in `hay` at position `i`, letters of `hay` taken in
/// lower case.
pub open spec fn occurs_at(hay: Seq<u8>, needle: Seq<u8>, i: int) -> bool {
    &&& 0 <= i
    &&& i + needle.len() <= hay.len()
    &&& lowered(hay.subrange(i, i + needle.len())) == needle
}

/// `needle` stands nowhere in `hay` before position `i`.
pub open spec fn absent_before(hay: Seq<u8>, needle: Seq<u8>, i: int) -> bool {
    forall|k: int| 0 <= k < i ==> !#[trigger] occurs_at(hay, needle, k)
}

/// `needle` stands somewhere in `hay`, in either case.
pub open spec fn mentions(hay: Seq<u8>, needle: Seq<u8>) -> bool {
    exists|i: int| #[trigger] occurs_at(hay, needle, i)
}

/// The first position at which `needle` stands in `hay`.
pub open spec fn first_mention(hay: Seq<u8>, needle: Seq<u8>) -> Option<int> {
    if mentions(hay, needle) {
        Some(choose|i: int| #[trigger] occurs_at(hay, needle, i) && absent_before(hay, needle, i))
    } else {
        None
    }
}

/// The first mention is the one position at which `needle` stands and
/// before which it does not.
pub proof fn lemma_first_mention_is(hay: Seq<u8>, needle: Seq<u8>, i: int)
    requires
        occurs_at(hay, needle, i),
        absent_before(hay, needle, i),
    ensures
        first_mention(hay, needle) == Some(i),
{
    let c = choose|c: int| #[trigger] occurs_at(hay, needle, c) && absent_before(hay, needle, c);
    if c < i {
        assert(!occurs_at(hay, needle, c));
    }
    if i < c {
        assert(!occurs_at(hay, needle, i));
    }
}

pub open spec fn rss_word() -> Seq<u8> {
    "rss".spec_bytes()
}

pub open spec fn atom_word() -> Seq<u8> {
    "atom".spec_bytes()
}

pub open spec fn json_word() -> Seq<u8> {
    "json".spec_bytes()
}

pub open spec fn rss_marker() -> Seq<u8> {
    "<rss".spec_bytes()
}

pub open spec fn atom_marker() -> Seq<u8> {
    "<feed".spec_bytes()
}

/// The bytes of a payload that are looked at for a marker.
pub open spec fn sniffed(payload: Seq<u8>) -> Seq<u8> {
    if payload.len() > SNIFF_WINDOW {
        payload.take(SNIFF_WINDOW as int)
    } else {
        payload
    }
}

/// The format that a declared content type names, if it names one.
pub open spec fn format_of_content_type(content_type: Seq<u8>) -> Option<FormatKind> {
    if first_mention(content_type, rss_word()) is Some {
        Some(FormatKind::Rss)
    } else if first_mention(content_type, atom_word()) is Some {
        Some(FormatKind::Atom)
    } else if first_mention(content_type, json_word()) is Some {
        Some(FormatKind::Json)
    } else {
        None
    }
}

/// The first byte at or behind position `i` that is no white space.
pub open spec fn first_visible_from(w: Seq<u8>, i: int) -> Option<u8>
    decreases w.len() - i,
{
    if i < 0 || i >= w.len() {
        None
    } else if is_space(w[i]) {
        first_visible_from(w, i + 1)
    } else {
        Some(w[i])
    }
}

/// The payload begins, behind white space if any, with an opening brace.
pub open spec fn opens_object(w: Seq<u8>) -> bool {
    first_visible_from(w, 0) == Some(123u8)
}

/// The format that the window shows: JSON Feed where it opens an object,
/// else the format whose root element comes first.
pub open spec fn format_of_payload(payload: Seq<u8>) -> Option<FormatKind> {
    let w = sniffed(payload);
    if opens_object(w) {
        Some(FormatKind::Json)
    } else {
        format_of_markup(w)
    }
}

/// The format whose root element comes first in the window.
pub open spec fn format_of_markup(w: Seq<u8>) -> Option<FormatKind> {
    match (first_mention(w, rss_marker()), first_mention(w, atom_marker())) {
        (Some(rss), Some(atom)) => if rss <= atom {
            Some(FormatKind::Rss)
        } else {
            Some(FormatKind::Atom)
        },
        (Some(_), None) => Some(FormatKind::Rss),
        (None, Some(_)) => Some(FormatKind::Atom),
        (None, None) => None,
    }
}

/// The format of a payload: the hint of the source where it has one, else
/// what the content type names, else what the first bytes show.
pub open spec fn detected(hint: Option<FormatKind>, content_type: Seq<u8>, payload: Seq<u8>) -> Option<
    FormatKind,
> {
    match hint {
        Some(k) => Some(k),
        None => match format_of_content_type(content_type) {
            Some(k) => Some(k),
            None => format_of_payload(payload),
        },
    }
}

fn stands_at(hay: &[u8], limit: usize, needle: &[u8], i: usize) -> (r: bool)
    requires
        limit <= hay@.len(),
        i <= limit,
    ensures
        r == occurs_at(hay@.take(limit as int), needle@, i as int),
{
    if needle.len() > limit - i {
        return false;
    }
    let ghost part = hay@.take(limit as int).subrange(i as int, i + needle@.len());
    let mut j: usize = 0;
    while j < needle.len()
        invariant
            j <= needle@.len(),
            i + needle@.len() <= limit <= hay@.len(),
            part == hay@.take(limit as int).subrange(i as int, i + needle@.len()),
            forall|k: int| 0 <= k < j ==> lower(#[trigger] part[k]) == needle@[k],
        decreases needle@.len() - j,
    {
        assert(part[j as int] == hay@[i + j]);
        if lower_byte(hay[i + j]) != needle[j] {
            assert(lowered(part)[j as int] != needle@[j as int]);
            return false;
        }
        j += 1;
    }
    assert(lowered(part) =~= needle@);
    true
}

/// The first position at which `needle` stands in the first `limit` bytes
/// of `hay`, letters of `hay` taken in lower case.
pub fn find_mention(hay: &[u8], limit: usize, needle: &[u8]) -> (r: Option<usize>)
    requires
        limit <= hay@.len(),
    ensures
        match r {
            Some(i) => first_mention(hay@.take(limit as int), needle@) == Some(i as int) && i <= limit,
            None => first_mention(hay@.take(limit as int), needle@) is None,
        },
{
    let ghost w = hay@.take(limit as int);
    let mut i: usize = 0;
    while i < limit
        invariant
            i <= limit <= hay@.len(),
            w == hay@.take(limit as int),
            absent_before(w, needle@, i as int),
        decreases limit - i,
    {
        if stands_at(hay, limit, needle, i) {
            proof {
                lemma_first_mention_is(w, needle@, i as int);
            }
            return Some(i);
        }
        i += 1;
    }
    if stands_at(hay, limit, needle, limit) {
        proof {
            lemma_first_mention_is(w, needle@, limit as int);
        }
        return Some(limit);
    }
    proof {
        assert forall|k: int| !#[trigger] occurs_at(w, needle@, k) by {
            if 0 <= k < limit {
            }
        }
    }
    None
}

/// Finds the format that a declared content type names.
pub fn format_named(content_type: &[u8]) -> (r: Option<FormatKind>)
    ensures
        r == format_of_content_type(content_type@),
{
    proof {
        assert(content_type@.take(content_type@.len() as int) =~= content_type@);
    }
    let n = content_type.len();
    if find_mention(content_type, n, "rss".as_bytes()).is_some() {
        Some(FormatKind::Rss)
    } else if find_mention(content_type, n, "atom".as_bytes()).is_some() {
        Some(FormatKind::Atom)
    } else if find_mention(content_type, n, "json".as_bytes()).is_some() {
        Some(FormatKind::Json)
    } else {
        None
    }
}

fn begins_object(payload: &[u8], limit: usize) -> (r: bool)
    requires
        limit <= payload@.len(),
    ensures
        r == opens_object(payload@.take(limit as int)),
{
    let ghost w = payload@.take(limit as int);
    let mut i: usize = 0;
    while i < limit && is_space_byte(payload[i])
        invariant
            i <= limit <= payload@.len(),
            w == payload@.take(limit as int),
            first_visible_from(w, 0) == first_visible_from(w, i as int),
        decreases limit - i,
    {
        i += 1;
    }
    i < limit && payload[i] == 123
}

fn markup_format(payload: &[u8], limit: usize) -> (r: Option<FormatKind>)
    requires
        limit <= payload@.len(),
    ensures
        r == format_of_markup(payload@.take(limit as int)),
{
    let rss = find_mention(payload, limit, "<rss".as_bytes());
    let atom = find_mention(payload, limit, "<feed".as_bytes());
    match (rss, atom) {
        (Some(r), Some(a)) => if r <= a {
            Some(FormatKind::Rss)
        } else {
            Some(FormatKind::Atom)
        },
        (Some(_), None) => Some(FormatKind::Rss),
        (None, Some(_)) => Some(FormatKind::Atom),
        (None, None) => None,
    }
}

/// Finds the format that the first bytes of a payload show.
pub fn sniff(payload: &[u8]) -> (r: Option<FormatKind>)
    ensures
        r == format_of_payload(payload@),
{
    let limit = if payload.len() > SNIFF_WINDOW {
        SNIFF_WINDOW
    } else {
        payload.len()
    };
    proof {
        assert(payload@.take(payload@.len() as int) =~= payload@);
    }
    if begins_object(payload, limit) {
        Some(FormatKind::Json)
    } else {
        markup_format(payload, limit)
    }
}

/// Finds the format of a payload, or none where neither the hint nor the
/// content type nor the first bytes name one.
pub fn detect(hint: Option<FormatKind>, content_type: &[u8], payload: &[u8]) -> (r: Option<FormatKind>)
    ensures
        r == detected(hint, content_type@, payload@),
{
    match hint {
        Some(k) => Some(k),
        None => match format_named(content_type) {
            Some(k) => Some(k),
            None => sniff(payload),
        },
    }
}

} // verus!
