//! Reading a JSON Feed: from the tokens of a payload to the drafts of its
//! items.
//!
//! The reader follows the grammar of JSON: what may come next depends on
//! what came last and on what is open. The root has to be an object. The
//! elements of the array that the root holds under `items` are the items;
//! the strings that such an element holds under the names of the fields
//! give the draft its text, and of two names for one field the first
//! counts. A payload that cannot be scanned, has another root, closes what
//! is not open, leaves something open, or puts a token where none can
//! stand, is malformed, and gives no drafts at all.

use vstd::prelude::*;
use vstd::slice::slice_subrange;
use vstd::string::StringSliceAdditionalSpecFns;
use crate::bytes::bytes_equal;
use crate::format::Malformation;
use crate::item::{
    draft_views,
    empty_draft,
    field_is_empty,
    field_text,
    new_draft,
    DraftView,
    Field,
    ItemDraft,
};
use crate::json::{
    json_tokenize,
    json_tokens_of,
    json_tokens_within,
    text_of,
    unescape,
    JsonKind,
    JsonToken,
};

verus! {

/// What may come next.
#[derive(Clone, Copy, Debug, PartialEq, Eq, Structural)]
pub enum Expect {
    /// A value.
    Value,
    /// A value, or the end of the array that was just opened.
    ValueOrEnd,
    /// A name, or the end of the object that was just opened.
    NameOrEnd,
    /// A name.
    Name,
    /// The colon behind a name.
    Colon,
    /// A comma, or the end of what is open.
    CommaOrEnd,
    /// Nothing: the root is complete.
    Nothing,
}

/// The reader between two tokens.
pub struct JsonReader {
    /// What is open, outermost first: `true` for an object, `false` for
    /// an array.
    pub stack: Vec<bool>,
    pub expect: Expect,
    pub failure: Option<Malformation>,
    /// The name that was read last in the root is `items`.
    pub at_items: bool,
    /// The array of the items is open.
    pub in_items: bool,
    /// The field that the next string goes to.
    pub field: Option<Field>,
    pub draft: ItemDraft,
    pub drafts: Vec<ItemDraft>,
}

/// The reader as a mathematical value.
pub struct JsonReaderView {
    pub stack: Seq<bool>,
    pub expect: Expect,
    pub failure: Option<Malformation>,
    pub at_items: bool,
    pub in_items: bool,
    pub field: Option<Field>,
    pub draft: DraftView,
    pub drafts: Seq<DraftView>,
}

impl View for JsonReader {
    type V = JsonReaderView;

    open spec fn view(&self) -> JsonReaderView {
        JsonReaderView {
            stack: self.stack@,
            expect: self.expect,
            failure: self.failure,
            at_items: self.at_items,
            in_items: self.in_items,
            field: self.field,
            draft: self.draft@,
            drafts: draft_views(self.drafts@),
        }
    }
}

/// The reader before the first token.
pub open spec fn json_start() -> JsonReaderView {
    JsonReaderView {
        stack: Seq::empty(),
        expect: Expect::Value,
        failure: None,
        at_items: false,
        in_items: false,
        field: None,
        draft: empty_draft(),
        drafts: Seq::empty(),
    }
}

/// The name that a token writes: its bytes as they stand.
pub open spec fn name_of_token(s: Seq<u8>, t: JsonToken) -> Seq<u8> {
    s.subrange(t.start as int, t.end as int)
}

/// The field that a name in an item gives the text of.
pub open spec fn json_field_named(name: Seq<u8>) -> Option<Field> {
    if name == "title".spec_bytes() {
        Some(Field::Title)
    } else if name == "url".spec_bytes() {
        Some(Field::Link)
    } else if name == "content_text".spec_bytes() || name == "content_html".spec_bytes() || name
        == "summary".spec_bytes() {
        Some(Field::Body)
    } else if name == "date_published".spec_bytes() || name == "date_modified".spec_bytes() {
        Some(Field::Date)
    } else {
        None
    }
}

/// The field that a name opens: the one it names, unless the draft has
/// text for it already.
pub open spec fn json_opened_field(name: Seq<u8>, d: DraftView) -> Option<Field> {
    match json_field_named(name) {
        Some(f) => if field_text(d, f).len() == 0 {
            Some(f)
        } else {
            None
        },
        None => None,
    }
}

/// The draft with the field `f` set to `bytes`.
pub open spec fn with_field(d: DraftView, f: Field, bytes: Seq<u8>) -> DraftView {
    match f {
        Field::Title => DraftView { title: bytes, ..d },
        Field::Body => DraftView { body: bytes, ..d },
        Field::Link => DraftView { link: bytes, ..d },
        Field::Date => DraftView { date: bytes, ..d },
    }
}

pub open spec fn failed(st: JsonReaderView, m: Malformation) -> JsonReaderView {
    JsonReaderView { failure: Some(m), ..st }
}

/// The reader after an object or an array was opened where a value may
/// stand.
pub open spec fn after_begin(st: JsonReaderView, object: bool) -> JsonReaderView {
    let expect = if object {
        Expect::NameOrEnd
    } else {
        Expect::ValueOrEnd
    };
    if st.stack.len() == 0 {
        if object {
            JsonReaderView { stack: st.stack.push(object), expect: expect, ..st }
        } else {
            failed(st, Malformation::WrongRoot)
        }
    } else {
        JsonReaderView {
            stack: st.stack.push(object),
            expect: expect,
            at_items: false,
            in_items: st.in_items || (!object && st.stack.len() == 1 && st.at_items),
            field: None,
            draft: if object && st.in_items && st.stack.len() == 2 {
                empty_draft()
            } else {
                st.draft
            },
            ..st
        }
    }
}

/// The reader after an object or an array was closed where it may be.
pub open spec fn after_end(st: JsonReaderView, object: bool) -> JsonReaderView {
    if st.stack.len() == 0 || st.stack.last() != object {
        failed(st, Malformation::Mismatch)
    } else {
        let rest = st.stack.drop_last();
        let item_ends = object && st.in_items && rest.len() == 2;
        JsonReaderView {
            stack: rest,
            expect: if rest.len() == 0 {
                Expect::Nothing
            } else {
                Expect::CommaOrEnd
            },
            at_items: false,
            in_items: st.in_items && !(!object && rest.len() == 1),
            field: None,
            draft: if item_ends {
                empty_draft()
            } else {
                st.draft
            },
            drafts: if item_ends {
                st.drafts.push(st.draft)
            } else {
                st.drafts
            },
            ..st
        }
    }
}

/// The reader after a string or a scalar where a value may stand. A
/// string that stands under the name of a field in an item is the text of
/// that field.
pub open spec fn after_value(s: Seq<u8>, st: JsonReaderView, t: JsonToken) -> JsonReaderView {
    if st.stack.len() == 0 {
        failed(st, Malformation::WrongRoot)
    } else {
        JsonReaderView {
            expect: Expect::CommaOrEnd,
            at_items: false,
            field: None,
            draft: match st.field {
                Some(f) => if t.kind == JsonKind::Text && st.in_items && st.stack.len() == 3 {
                    with_field(st.draft, f, text_of(s, t))
                } else {
                    st.draft
                },
                None => st.draft,
            },
            ..st
        }
    }
}

/// The reader after a name.
pub open spec fn after_name(s: Seq<u8>, st: JsonReaderView, t: JsonToken) -> JsonReaderView {
    let name = name_of_token(s, t);
    JsonReaderView {
        expect: Expect::Colon,
        at_items: st.stack.len() == 1 && name == "items".spec_bytes(),
        field: if st.in_items && st.stack.len() == 3 {
            json_opened_field(name, st.draft)
        } else {
            None
        },
        ..st
    }
}

/// The reader after one more token. Once it has failed it stays as it is.
pub open spec fn json_step(s: Seq<u8>, st: JsonReaderView, t: JsonToken) -> JsonReaderView {
    if st.failure is Some {
        st
    } else {
        let value_may_stand = st.expect == Expect::Value || st.expect == Expect::ValueOrEnd;
        let name_may_stand = st.expect == Expect::Name || st.expect == Expect::NameOrEnd;
        match t.kind {
            JsonKind::BeginObject => if value_may_stand {
                after_begin(st, true)
            } else {
                failed(st, Malformation::Misplaced)
            },
            JsonKind::BeginArray => if value_may_stand {
                after_begin(st, false)
            } else {
                failed(st, Malformation::Misplaced)
            },
            JsonKind::EndObject => if st.expect == Expect::NameOrEnd || st.expect
                == Expect::CommaOrEnd {
                after_end(st, true)
            } else {
                failed(st, Malformation::Misplaced)
            },
            JsonKind::EndArray => if st.expect == Expect::ValueOrEnd || st.expect
                == Expect::CommaOrEnd {
                after_end(st, false)
            } else {
                failed(st, Malformation::Misplaced)
            },
            JsonKind::Colon => if st.expect == Expect::Colon {
                JsonReaderView { expect: Expect::Value, ..st }
            } else {
                failed(st, Malformation::Misplaced)
            },
            JsonKind::Comma => if st.expect == Expect::CommaOrEnd && st.stack.len() > 0 {
                JsonReaderView {
                    expect: if st.stack.last() {
                        Expect::Name
                    } else {
                        Expect::Value
                    },
                    ..st
                }
            } else {
                failed(st, Malformation::Misplaced)
            },
            JsonKind::Text => if name_may_stand {
                after_name(s, st, t)
            } else if value_may_stand {
                after_value(s, st, t)
            } else {
                failed(st, Malformation::Misplaced)
            },
            JsonKind::Scalar => if value_may_stand {
                after_value(s, st, t)
            } else {
                failed(st, Malformation::Misplaced)
            },
        }
    }
}

/// A token leaves the drafts that are read as they are, and adds one at
/// most; a reader that has failed it leaves as it is.
pub proof fn lemma_json_step_keeps_drafts(s: Seq<u8>, st: JsonReaderView, t: JsonToken)
    ensures
        st.failure is Some ==> json_step(s, st, t) == st,
        st.drafts.len() <= json_step(s, st, t).drafts.len() <= st.drafts.len() + 1,
        json_step(s, st, t).drafts.take(st.drafts.len() as int) == st.drafts,
{
    let after = json_step(s, st, t);
    assert(after.drafts.take(st.drafts.len() as int) =~= st.drafts);
}

/// The reader after the tokens `ts`.
pub open spec fn json_run(s: Seq<u8>, ts: Seq<JsonToken>) -> JsonReaderView
    decreases ts.len(),
{
    if ts.len() == 0 {
        json_start()
    } else {
        json_step(s, json_run(s, ts.drop_last()), ts.last())
    }
}

/// What the reader makes of all tokens: the drafts, or why the payload is
/// malformed.
pub open spec fn json_finished(st: JsonReaderView) -> Result<Seq<DraftView>, Malformation> {
    match st.failure {
        Some(m) => Err(m),
        None => if st.expect == Expect::Nothing {
            Ok(st.drafts)
        } else if st.stack.len() > 0 {
            Err(Malformation::Unclosed)
        } else {
            Err(Malformation::WrongRoot)
        },
    }
}

/// The drafts of the items of a JSON Feed, or why the payload is
/// malformed.
pub open spec fn json_feed(s: Seq<u8>) -> Result<Seq<DraftView>, Malformation> {
    match json_tokens_of(s) {
        Some(ts) => json_finished(json_run(s, ts)),
        None => Err(Malformation::BrokenMarkup),
    }
}

fn is_name(name: &[u8], word: &str) -> (r: bool)
    ensures
        r == (name@ == word.spec_bytes()),
{
    bytes_equal(name, word.as_bytes())
}

fn json_field_for(name: &[u8]) -> (r: Option<Field>)
    ensures
        r == json_field_named(name@),
{
    if is_name(name, "title") {
        Some(Field::Title)
    } else if is_name(name, "url") {
        Some(Field::Link)
    } else if is_name(name, "content_text") || is_name(name, "content_html") || is_name(
        name,
        "summary",
    ) {
        Some(Field::Body)
    } else if is_name(name, "date_published") || is_name(name, "date_modified") {
        Some(Field::Date)
    } else {
        None
    }
}

fn fail(st: JsonReader, m: Malformation) -> (r: JsonReader)
    ensures
        r@ == failed(st@, m),
        r.stack@ == st.stack@,
{
    let mut st = st;
    st.failure = Some(m);
    st
}

fn begin(st: JsonReader, object: bool) -> (r: JsonReader)
    ensures
        r@ == after_begin(st@, object),
{
    let JsonReader { stack, expect, failure, at_items, in_items, field, draft, drafts } = st;
    let mut stack = stack;
    let n = stack.len();
    if n == 0 && !object {
        return JsonReader {
            stack,
            expect,
            failure: Some(Malformation::WrongRoot),
            at_items,
            in_items,
            field,
            draft,
            drafts,
        };
    }
    stack.push(object);
    let next = if object {
        Expect::NameOrEnd
    } else {
        Expect::ValueOrEnd
    };
    if n == 0 {
        JsonReader { stack, expect: next, failure, at_items, in_items, field, draft, drafts }
    } else {
        let opens_items = !object && n == 1 && at_items;
        let draft = if object && in_items && n == 2 {
            new_draft()
        } else {
            draft
        };
        JsonReader {
            stack,
            expect: next,
            failure,
            at_items: false,
            in_items: in_items || opens_items,
            field: None,
            draft,
            drafts,
        }
    }
}

fn end(st: JsonReader, object: bool) -> (r: JsonReader)
    ensures
        r@ == after_end(st@, object),
{
    let n = st.stack.len();
    if n == 0 || st.stack[n - 1] != object {
        return fail(st, Malformation::Mismatch);
    }
    let ghost before = st@;
    let JsonReader { stack, expect, failure, at_items, in_items, field, draft, drafts } = st;
    let mut stack = stack;
    let mut drafts = drafts;
    stack.pop();
    assert(stack@ =~= before.stack.drop_last());
    let rest = stack.len();
    let item_ends = object && in_items && rest == 2;
    let draft = if item_ends {
        let ghost kept = drafts@;
        drafts.push(draft);
        assert(draft_views(drafts@) =~= draft_views(kept).push(before.draft));
        new_draft()
    } else {
        draft
    };
    JsonReader {
        stack,
        expect: if rest == 0 {
            Expect::Nothing
        } else {
            Expect::CommaOrEnd
        },
        failure,
        at_items: false,
        in_items: in_items && !(!object && rest == 1),
        field: None,
        draft,
        drafts,
    }
}

fn value(s: &[u8], st: JsonReader, t: JsonToken) -> (r: JsonReader)
    requires
        t.start <= t.end <= s@.len(),
    ensures
        r@ == after_value(s@, st@, t),
{
    if st.stack.len() == 0 {
        return fail(st, Malformation::WrongRoot);
    }
    let JsonReader { stack, expect, failure, at_items, in_items, field, draft, drafts } = st;
    let mut draft = draft;
    let is_text = match t.kind {
        JsonKind::Text => true,
        _ => false,
    };
    if is_text && in_items && stack.len() == 3 {
        match field {
            Some(Field::Title) => {
                draft.title = unescape(s, t.start, t.end);
            },
            Some(Field::Body) => {
                draft.body = unescape(s, t.start, t.end);
            },
            Some(Field::Link) => {
                draft.link = unescape(s, t.start, t.end);
            },
            Some(Field::Date) => {
                draft.date = unescape(s, t.start, t.end);
            },
            None => {},
        }
    }
    JsonReader {
        stack,
        expect: Expect::CommaOrEnd,
        failure,
        at_items: false,
        in_items,
        field: None,
        draft,
        drafts,
    }
}

fn name(s: &[u8], st: JsonReader, t: JsonToken) -> (r: JsonReader)
    requires
        t.start <= t.end <= s@.len(),
    ensures
        r@ == after_name(s@, st@, t),
{
    let JsonReader { stack, expect, failure, at_items, in_items, field, draft, drafts } = st;
    let written = slice_subrange(s, t.start, t.end);
    let at_items = stack.len() == 1 && is_name(written, "items");
    let field = if in_items && stack.len() == 3 {
        match json_field_for(written) {
            Some(f) => if field_is_empty(&draft, f) {
                Some(f)
            } else {
                None
            },
            None => None,
        }
    } else {
        None
    };
    JsonReader { stack, expect: Expect::Colon, failure, at_items, in_items, field, draft, drafts }
}

/// Takes one more token.
fn json_advance(s: &[u8], st: JsonReader, t: JsonToken) -> (r: JsonReader)
    requires
        t.start <= t.end <= s@.len(),
    ensures
        r@ == json_step(s@, st@, t),
{
    if st.failure.is_some() {
        return st;
    }
    let value_may_stand = match st.expect {
        Expect::Value => true,
        Expect::ValueOrEnd => true,
        _ => false,
    };
    let name_may_stand = match st.expect {
        Expect::Name => true,
        Expect::NameOrEnd => true,
        _ => false,
    };
    let end_may_stand = match st.expect {
        Expect::CommaOrEnd => true,
        _ => false,
    };
    match t.kind {
        JsonKind::BeginObject => {
            if value_may_stand {
                begin(st, true)
            } else {
                fail(st, Malformation::Misplaced)
            }
        },
        JsonKind::BeginArray => {
            if value_may_stand {
                begin(st, false)
            } else {
                fail(st, Malformation::Misplaced)
            }
        },
        JsonKind::EndObject => {
            let fresh = match st.expect {
                Expect::NameOrEnd => true,
                _ => false,
            };
            if fresh || end_may_stand {
                end(st, true)
            } else {
                fail(st, Malformation::Misplaced)
            }
        },
        JsonKind::EndArray => {
            let fresh = match st.expect {
                Expect::ValueOrEnd => true,
                _ => false,
            };
            if fresh || end_may_stand {
                end(st, false)
            } else {
                fail(st, Malformation::Misplaced)
            }
        },
        JsonKind::Colon => {
            let due = match st.expect {
                Expect::Colon => true,
                _ => false,
            };
            if due {
                let mut st = st;
                st.expect = Expect::Value;
                st
            } else {
                fail(st, Malformation::Misplaced)
            }
        },
        JsonKind::Comma => {
            let n = st.stack.len();
            if end_may_stand && n > 0 {
                let mut st = st;
                st.expect = if st.stack[n - 1] {
                    Expect::Name
                } else {
                    Expect::Value
                };
                st
            } else {
                fail(st, Malformation::Misplaced)
            }
        },
        JsonKind::Text => {
            if name_may_stand {
                name(s, st, t)
            } else if value_may_stand {
                value(s, st, t)
            } else {
                fail(st, Malformation::Misplaced)
            }
        },
        JsonKind::Scalar => {
            if value_may_stand {
                value(s, st, t)
            } else {
                fail(st, Malformation::Misplaced)
            }
        },
    }
}

/// Reads the items of a JSON Feed as drafts, in the order of the payload.
/// A payload that is malformed gives no drafts but the reason.
pub fn read_json_feed(payload: &[u8]) -> (r: Result<Vec<ItemDraft>, Malformation>)
    ensures
        match r {
            Ok(drafts) => json_feed(payload@) == Ok::<Seq<DraftView>, Malformation>(
                draft_views(drafts@),
            ),
            Err(m) => json_feed(payload@) == Err::<Seq<DraftView>, Malformation>(m),
        },
{
    let tokens = match json_tokenize(payload) {
        Some(v) => v,
        None => {
            return Err(Malformation::BrokenMarkup);
        },
    };
    let mut st = JsonReader {
        stack: Vec::new(),
        expect: Expect::Value,
        failure: None,
        at_items: false,
        in_items: false,
        field: None,
        draft: new_draft(),
        drafts: Vec::new(),
    };
    assert(draft_views(st.drafts@) =~= Seq::<DraftView>::empty());
    let mut i: usize = 0;
    while i < tokens.len()
        invariant
            i <= tokens.len(),
            json_tokens_within(tokens@, payload@.len() as int),
            st@ == json_run(payload@, tokens@.take(i as int)),
        decreases tokens.len() - i,
    {
        proof {
            assert(tokens@.take(i + 1).drop_last() =~= tokens@.take(i as int));
        }
        st = json_advance(payload, st, tokens[i]);
        i += 1;
    }
    proof {
        assert(tokens@.take(i as int) =~= tokens@);
    }
    match st.failure {
        Some(m) => Err(m),
        None => {
            let complete = match st.expect {
                Expect::Nothing => true,
                _ => false,
            };
            if complete {
                Ok(st.drafts)
            } else if st.stack.len() > 0 {
                Err(Malformation::Unclosed)
            } else {
                Err(Malformation::WrongRoot)
            }
        },
    }
}

} // verus!
