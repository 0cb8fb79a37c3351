//! Reading a feed that is written as markup, RSS or Atom: from the tokens
//! of a payload to the drafts of its items.
//!
//! The reader follows the nesting of the elements. The root element has to
//! be that of the dialect. Inside an item element, the children that name a
//! field give the draft its text; of two children for one field the first
//! counts. A payload that cannot be scanned, has another root, closes an
//! element that is not the open one, or leaves one open, is malformed,
//! and gives no drafts at all.

use vstd::prelude::*;
use vstd::slice::slice_subrange;
use vstd::string::StringSliceAdditionalSpecFns;
use crate::bytes::{bytes_equal, push_all};
use crate::format::Malformation;
use crate::item::{
    draft_views,
    empty_draft,
    field_is_empty,
    field_text,
    new_draft,
    with_text,
    DraftView,
    Field,
    ItemDraft,
};
use crate::markup::{
    find_bytes,
    find_name_end,
    name_end,
    next_match,
    tag_name,
    tokenize,
    tokens_of,
    tokens_within,
    Token,
    TokenKind,
};

verus! {

/// The two feed formats that are written as markup.
#[derive(Clone, Copy, Debug, PartialEq, Eq, Structural)]
pub enum Dialect {
    Rss,
    Atom,
}

/// The reader between two tokens.
pub struct Reader {
    /// The start tags of the elements that are open, outermost first.
    pub stack: Vec<Token>,
    /// A root element has been opened.
    pub rooted: bool,
    pub failure: Option<Malformation>,
    /// How many elements are open down to the item that is being read;
    /// zero outside an item.
    pub item_depth: usize,
    /// The field that text goes to at present.
    pub field: Option<Field>,
    pub draft: ItemDraft,
    pub drafts: Vec<ItemDraft>,
}

/// The reader as a mathematical value.
pub struct ReaderView {
    pub stack: Seq<Token>,
    pub rooted: bool,
    pub failure: Option<Malformation>,
    pub item_depth: int,
    pub field: Option<Field>,
    pub draft: DraftView,
    pub drafts: Seq<DraftView>,
}

impl View for Reader {
    type V = ReaderView;

    open spec fn view(&self) -> ReaderView {
        ReaderView {
            stack: self.stack@,
            rooted: self.rooted,
            failure: self.failure,
            item_depth: self.item_depth as int,
            field: self.field,
            draft: self.draft@,
            drafts: draft_views(self.drafts@),
        }
    }
}

/// The reader before the first token.
pub open spec fn start() -> ReaderView {
    ReaderView {
        stack: Seq::empty(),
        rooted: false,
        failure: None,
        item_depth: 0,
        field: None,
        draft: empty_draft(),
        drafts: Seq::empty(),
    }
}

/// The name of the root element of a feed.
pub open spec fn root_name(kind: Dialect) -> Seq<u8> {
    match kind {
        Dialect::Rss => "rss".spec_bytes(),
        Dialect::Atom => "feed".spec_bytes(),
    }
}

/// The name of the element that holds one item.
pub open spec fn item_name(kind: Dialect) -> Seq<u8> {
    match kind {
        Dialect::Rss => "item".spec_bytes(),
        Dialect::Atom => "entry".spec_bytes(),
    }
}

/// The field that a child element of an item gives the text of.
pub open spec fn field_named(kind: Dialect, name: Seq<u8>) -> Option<Field> {
    match kind {
        Dialect::Rss => if name == "title".spec_bytes() {
            Some(Field::Title)
        } else if name == "description".spec_bytes() {
            Some(Field::Body)
        } else if name == "link".spec_bytes() {
            Some(Field::Link)
        } else if name == "pubDate".spec_bytes() || name == "dc:date".spec_bytes() {
            Some(Field::Date)
        } else {
            None
        },
        Dialect::Atom => if name == "title".spec_bytes() {
            Some(Field::Title)
        } else if name == "summary".spec_bytes() || name == "content".spec_bytes() {
            Some(Field::Body)
        } else if name == "updated".spec_bytes() || name == "published".spec_bytes() {
            Some(Field::Date)
        } else {
            None
        },
    }
}

/// The field that a child element named `name` opens: the one it names,
/// unless the draft has text for it already.
pub open spec fn opened_field(kind: Dialect, name: Seq<u8>, d: DraftView) -> Option<Field> {
    match field_named(kind, name) {
        Some(f) => if field_text(d, f).len() == 0 {
            Some(f)
        } else {
            None
        },
        None => None,
    }
}

pub open spec fn href_word() -> Seq<u8> {
    "href=".spec_bytes()
}

pub open spec fn double_quote() -> Seq<u8> {
    "\"".spec_bytes()
}

pub open spec fn single_quote() -> Seq<u8> {
    "'".spec_bytes()
}

/// The value of the `href` attribute of the tag `t`, empty if it has none.
pub open spec fn link_target(s: Seq<u8>, t: Token) -> Seq<u8> {
    let inside = s.take(t.end as int);
    match next_match(inside, href_word(), name_end(s, t.start as int, t.end as int)) {
        Some(k) => {
            let q = k + href_word().len();
            if q < inside.len() && (inside[q] == 34 || inside[q] == 39) {
                let close = if inside[q] == 34 {
                    next_match(inside, double_quote(), q + 1)
                } else {
                    next_match(inside, single_quote(), q + 1)
                };
                match close {
                    Some(e) => inside.subrange(q + 1, e),
                    None => Seq::empty(),
                }
            } else {
                Seq::empty()
            }
        },
        None => Seq::empty(),
    }
}

/// The draft after a child tag `t` of an item: an Atom `link` element
/// gives the draft its link, if it has none yet.
pub open spec fn with_link(kind: Dialect, s: Seq<u8>, d: DraftView, t: Token) -> DraftView {
    if kind == Dialect::Atom && tag_name(s, t) == "link".spec_bytes() && d.link.len() == 0 {
        DraftView { link: link_target(s, t), ..d }
    } else {
        d
    }
}

/// The reader after a start tag.
pub open spec fn after_open(kind: Dialect, s: Seq<u8>, st: ReaderView, t: Token) -> ReaderView {
    let name = tag_name(s, t);
    let pushed = ReaderView { stack: st.stack.push(t), ..st };
    if st.stack.len() == 0 {
        if st.rooted || name != root_name(kind) {
            ReaderView { failure: Some(Malformation::WrongRoot), ..st }
        } else {
            ReaderView { rooted: true, ..pushed }
        }
    } else if st.item_depth == 0 {
        if name == item_name(kind) {
            ReaderView {
                item_depth: (st.stack.len() + 1) as int,
                field: None,
                draft: empty_draft(),
                ..pushed
            }
        } else {
            pushed
        }
    } else if st.stack.len() == st.item_depth {
        ReaderView {
            field: opened_field(kind, name, st.draft),
            draft: with_link(kind, s, st.draft, t),
            ..pushed
        }
    } else {
        pushed
    }
}

/// The reader after an empty-element tag.
pub open spec fn after_empty(kind: Dialect, s: Seq<u8>, st: ReaderView, t: Token) -> ReaderView {
    if st.stack.len() == 0 {
        if st.rooted || tag_name(s, t) != root_name(kind) {
            ReaderView { failure: Some(Malformation::WrongRoot), ..st }
        } else {
            ReaderView { rooted: true, ..st }
        }
    } else if st.item_depth > 0 && st.stack.len() == st.item_depth {
        ReaderView { draft: with_link(kind, s, st.draft, t), ..st }
    } else {
        st
    }
}

/// The reader after an end tag.
pub open spec fn after_close(s: Seq<u8>, st: ReaderView, t: Token) -> ReaderView {
    if st.stack.len() == 0 || tag_name(s, st.stack.last()) != tag_name(s, t) {
        ReaderView { failure: Some(Malformation::Mismatch), ..st }
    } else {
        let rest = st.stack.drop_last();
        if st.item_depth > 0 && rest.len() < st.item_depth {
            ReaderView {
                stack: rest,
                item_depth: 0,
                field: None,
                draft: empty_draft(),
                drafts: st.drafts.push(st.draft),
                ..st
            }
        } else if st.item_depth > 0 && rest.len() == st.item_depth {
            ReaderView { stack: rest, field: None, ..st }
        } else {
            ReaderView { stack: rest, ..st }
        }
    }
}

/// The reader after text.
pub open spec fn after_text(s: Seq<u8>, st: ReaderView, t: Token) -> ReaderView {
    match st.field {
        Some(f) => if st.item_depth > 0 {
            ReaderView { draft: with_text(st.draft, f, s.subrange(t.start as int, t.end as int)), ..st }
        } else {
            st
        },
        None => st,
    }
}

/// The reader after one more token. Once it has failed it stays as it is.
pub open spec fn step(kind: Dialect, s: Seq<u8>, st: ReaderView, t: Token) -> ReaderView {
    if st.failure is Some {
        st
    } else {
        match t.kind {
            TokenKind::Open => after_open(kind, s, st, t),
            TokenKind::Empty => after_empty(kind, s, st, t),
            TokenKind::Close => after_close(s, st, t),
            TokenKind::Text => after_text(s, st, t),
        }
    }
}

/// A token leaves the drafts that are read as they are, and adds one at
/// most; a reader that has failed it leaves as it is.
pub proof fn lemma_step_keeps_drafts(kind: Dialect, s: Seq<u8>, st: ReaderView, t: Token)
    ensures
        st.failure is Some ==> step(kind, s, st, t) == st,
        st.drafts.len() <= step(kind, s, st, t).drafts.len() <= st.drafts.len() + 1,
        step(kind, s, st, t).drafts.take(st.drafts.len() as int) == st.drafts,
{
    let after = step(kind, s, st, t);
    assert(after.drafts.take(st.drafts.len() as int) =~= st.drafts);
}

/// The reader after the tokens `ts`.
pub open spec fn run(kind: Dialect, s: Seq<u8>, ts: Seq<Token>) -> ReaderView
    decreases ts.len(),
{
    if ts.len() == 0 {
        start()
    } else {
        step(kind, s, run(kind, s, ts.drop_last()), ts.last())
    }
}

/// Reading on keeps what was read: the drafts after the first `n` tokens
/// are the first drafts after all of them, and a failure stays.
pub proof fn lemma_run_keeps_drafts(kind: Dialect, s: Seq<u8>, ts: Seq<Token>, n: int)
    requires
        0 <= n <= ts.len(),
    ensures
        run(kind, s, ts.take(n)).drafts.len() <= run(kind, s, ts).drafts.len(),
        run(kind, s, ts).drafts.take(run(kind, s, ts.take(n)).drafts.len() as int) == run(
            kind,
            s,
            ts.take(n),
        ).drafts,
        run(kind, s, ts.take(n)).failure is Some ==> run(kind, s, ts) == run(kind, s, ts.take(n)),
    decreases ts.len(),
{
    if n == ts.len() {
        assert(ts.take(n) =~= ts);
        let d = run(kind, s, ts).drafts;
        assert(d.take(d.len() as int) =~= d);
    } else {
        let init = ts.drop_last();
        lemma_run_keeps_drafts(kind, s, init, n);
        assert(init.take(n) =~= ts.take(n));
        lemma_step_keeps_drafts(kind, s, run(kind, s, init), ts.last());
        let early = run(kind, s, ts.take(n)).drafts;
        let mid = run(kind, s, init).drafts;
        let all = run(kind, s, ts).drafts;
        assert(all.take(early.len() as int) =~= mid.take(early.len() as int));
    }
}

/// What the reader makes of all tokens: the drafts, or why the payload is
/// malformed.
pub open spec fn finished(st: ReaderView) -> Result<Seq<DraftView>, Malformation> {
    match st.failure {
        Some(m) => Err(m),
        None => if !st.rooted {
            Err(Malformation::WrongRoot)
        } else if st.stack.len() > 0 {
            Err(Malformation::Unclosed)
        } else {
            Ok(st.drafts)
        },
    }
}

/// The drafts of the items of a payload of markup in the dialect `kind`,
/// or why the payload is malformed.
pub open spec fn markup_feed(kind: Dialect, s: Seq<u8>) -> Result<Seq<DraftView>, Malformation> {
    match tokens_of(s) {
        Some(ts) => finished(run(kind, s, ts)),
        None => Err(Malformation::BrokenMarkup),
    }
}


fn name_of<'a>(s: &'a [u8], t: Token) -> (r: &'a [u8])
    requires
        t.start <= t.end <= s@.len(),
    ensures
        r@ == tag_name(s@, t),
{
    let e = find_name_end(s, t.start, t.end);
    slice_subrange(s, t.start, e)
}

fn is_word(name: &[u8], word: &str) -> (r: bool)
    ensures
        r == (name@ == word.spec_bytes()),
{
    bytes_equal(name, word.as_bytes())
}

fn field_for(kind: Dialect, name: &[u8]) -> (r: Option<Field>)
    ensures
        r == field_named(kind, name@),
{
    match kind {
        Dialect::Rss => {
            if is_word(name, "title") {
                Some(Field::Title)
            } else if is_word(name, "description") {
                Some(Field::Body)
            } else if is_word(name, "link") {
                Some(Field::Link)
            } else if is_word(name, "pubDate") || is_word(name, "dc:date") {
                Some(Field::Date)
            } else {
                None
            }
        },
        Dialect::Atom => {
            if is_word(name, "title") {
                Some(Field::Title)
            } else if is_word(name, "summary") || is_word(name, "content") {
                Some(Field::Body)
            } else if is_word(name, "updated") || is_word(name, "published") {
                Some(Field::Date)
            } else {
                None
            }
        },
    }
}

/// Reads the `href` attribute of a tag.
fn href_of(s: &[u8], t: Token) -> (r: Vec<u8>)
    requires
        t.start <= t.end <= s@.len(),
    ensures
        r@ == link_target(s@, t),
{
    let mut value: Vec<u8> = Vec::new();
    let inside = slice_subrange(s, 0, t.end);
    let from = find_name_end(s, t.start, t.end);
    match find_bytes(inside, "href=".as_bytes(), from) {
        Some(k) => {
            let q = k + "href=".as_bytes().len();
            if q < inside.len() && (inside[q] == 34 || inside[q] == 39) {
                let close = if inside[q] == 34 {
                    find_bytes(inside, "\"".as_bytes(), q + 1)
                } else {
                    find_bytes(inside, "'".as_bytes(), q + 1)
                };
                match close {
                    Some(e) => {
                        push_all(&mut value, slice_subrange(inside, q + 1, e));
                        assert(value@ =~= inside@.subrange(q + 1, e as int));
                    },
                    None => {},
                }
            }
        },
        None => {},
    }
    value
}

/// Takes one more token.
fn advance(kind: Dialect, s: &[u8], st: Reader, t: Token) -> (r: Reader)
    requires
        t.start <= t.end <= s@.len(),
        tokens_within(st.stack@, s@.len() as int),
    ensures
        r@ == step(kind, s@, st@, t),
        tokens_within(r.stack@, s@.len() as int),
{
    if st.failure.is_some() {
        return st;
    }
    let ghost before = st@;
    let Reader { stack, rooted, failure, item_depth, field, draft, drafts } = st;
    let mut stack = stack;
    let mut rooted = rooted;
    let mut failure = failure;
    let mut item_depth = item_depth;
    let mut field = field;
    let mut draft = draft;
    let mut drafts = drafts;
    match t.kind {
        TokenKind::Open => {
            let name = name_of(s, t);
            let is_atom_link = match kind {
                Dialect::Atom => is_word(name, "link"),
                Dialect::Rss => false,
            };
            if stack.len() == 0 {
                let is_root = match kind {
                    Dialect::Rss => is_word(name, "rss"),
                    Dialect::Atom => is_word(name, "feed"),
                };
                if rooted || !is_root {
                    failure = Some(Malformation::WrongRoot);
                } else {
                    rooted = true;
                    stack.push(t);
                }
            } else if item_depth == 0 {
                let is_item = match kind {
                    Dialect::Rss => is_word(name, "item"),
                    Dialect::Atom => is_word(name, "entry"),
                };
                stack.push(t);
                if is_item {
                    item_depth = stack.len();
                    field = None;
                    draft = new_draft();
                }
            } else if stack.len() == item_depth {
                field = match field_for(kind, name) {
                    Some(f) => if field_is_empty(&draft, f) {
                        Some(f)
                    } else {
                        None
                    },
                    None => None,
                };
                if is_atom_link && draft.link.len() == 0 {
                    draft.link = href_of(s, t);
                }
                stack.push(t);
            } else {
                stack.push(t);
            }
        },
        TokenKind::Empty => {
            let name = name_of(s, t);
            if stack.len() == 0 {
                let is_root = match kind {
                    Dialect::Rss => is_word(name, "rss"),
                    Dialect::Atom => is_word(name, "feed"),
                };
                if rooted || !is_root {
                    failure = Some(Malformation::WrongRoot);
                } else {
                    rooted = true;
                }
            } else if item_depth > 0 && stack.len() == item_depth {
                let is_atom_link = match kind {
                    Dialect::Atom => is_word(name, "link"),
                    Dialect::Rss => false,
                };
                if is_atom_link && draft.link.len() == 0 {
                    draft.link = href_of(s, t);
                }
            }
        },
        TokenKind::Close => {
            let n = stack.len();
            if n == 0 || !bytes_equal(name_of(s, stack[n - 1]), name_of(s, t)) {
                failure = Some(Malformation::Mismatch);
            } else {
                stack.pop();
                assert(stack@ =~= before.stack.drop_last());
                if item_depth > 0 && stack.len() < item_depth {
                    let ghost kept = drafts@;
                    drafts.push(draft);
                    assert(draft_views(drafts@) =~= draft_views(kept).push(before.draft));
                    draft = new_draft();
                    item_depth = 0;
                    field = None;
                } else if item_depth > 0 && stack.len() == item_depth {
                    field = None;
                }
            }
        },
        TokenKind::Text => {
            if item_depth > 0 {
                let text = slice_subrange(s, t.start, t.end);
                match field {
                    Some(Field::Title) => {
                        push_all(&mut draft.title, text);
                    },
                    Some(Field::Body) => {
                        push_all(&mut draft.body, text);
                    },
                    Some(Field::Link) => {
                        push_all(&mut draft.link, text);
                    },
                    Some(Field::Date) => {
                        push_all(&mut draft.date, text);
                    },
                    None => {},
                }
            }
        },
    }
    Reader { stack, rooted, failure, item_depth, field, draft, drafts }
}

/// Reads the items of a payload of markup as drafts, in the order of the
/// payload. A payload that is malformed gives no drafts but the reason.
pub fn read_markup_feed(kind: Dialect, payload: &[u8]) -> (r: Result<Vec<ItemDraft>, Malformation>)
    ensures
        match r {
            Ok(drafts) => markup_feed(kind, payload@) == Ok::<Seq<DraftView>, Malformation>(
                draft_views(drafts@),
            ),
            Err(m) => markup_feed(kind, payload@) == Err::<Seq<DraftView>, Malformation>(m),
        },
{
    let tokens = match tokenize(payload) {
        Some(v) => v,
        None => {
            return Err(Malformation::BrokenMarkup);
        },
    };
    let mut st = Reader {
        stack: Vec::new(),
        rooted: false,
        failure: None,
        item_depth: 0,
        field: None,
        draft: new_draft(),
        drafts: Vec::new(),
    };
    assert(draft_views(st.drafts@) =~= Seq::<DraftView>::empty());
    let mut i: usize = 0;
    while i < tokens.len()
        invariant
            i <= tokens.len(),
            tokens_within(tokens@, payload@.len() as int),
            tokens_within(st.stack@, payload@.len() as int),
            st@ == run(kind, payload@, tokens@.take(i as int)),
        decreases tokens.len() - i,
    {
        proof {
            assert(tokens@.take(i + 1).drop_last() =~= tokens@.take(i as int));
        }
        st = advance(kind, payload, st, tokens[i]);
        i += 1;
    }
    proof {
        assert(tokens@.take(i as int) =~= tokens@);
    }
    match st.failure {
        Some(m) => Err(m),
        None => {
            if !st.rooted {
                Err(Malformation::WrongRoot)
            } else if st.stack.len() > 0 {
                Err(Malformation::Unclosed)
            } else {
                Ok(st.drafts)
            }
        },
    }
}

} // verus!
