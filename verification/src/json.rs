//! The JSON-like pipeline: a character-level tokenizer and a
//! value-builder that assembles the token sequence into one rooted
//! value tree.
//!
//! The builder is a small state machine over an explicit work stack of
//! open objects and arrays, consuming one token at a time; nesting
//! depth costs heap, never call stack.  An object frame toggles between
//! key mode and value mode: a string in key mode becomes the pending
//! key, any completed value while a pending key exists is inserted
//! under it (overwriting an earlier value for the same key) and the
//! frame reverts to key mode.  Close tokens that do not match the open
//! frame are ignored inside a frame; at the top level a stray comma,
//! colon or close bracket is a structural error.  Whitespace tokens
//! are transparent everywhere.
use vstd::prelude::*;

pub mod token;
pub mod value;

use crate::{ParsingError, ParsonResult};
use token::{Token, TokenView, Tokenizer};
use value::{spec_insert, Object, Value, ValueView};

verus! {

/// One open container during building.
pub enum Frame {
    Object { is_key: bool, key: Option<String>, entries: Object },
    Array { items: Vec<Value> },
}

/// The mathematical shadow of [`Frame`].
pub enum FrameView {
    Object { is_key: bool, key: Option<Seq<char>>, entries: Seq<(Seq<char>, ValueView)> },
    Array { items: Seq<ValueView> },
}

impl View for Frame {
    type V = FrameView;

    open spec fn view(&self) -> FrameView {
        match self {
            Frame::Object { is_key, key, entries } => FrameView::Object {
                is_key: *is_key,
                key: match key {
                    Some(k) => Some(k@),
                    None => None,
                },
                entries: entries@,
            },
            Frame::Array { items } => FrameView::Array { items: value::view_list(items@) },
        }
    }
}

impl DeepView for Frame {
    type V = FrameView;

    open spec fn deep_view(&self) -> FrameView {
        self.view()
    }
}

/// The value a frame completes to.
pub open spec fn frame_value(f: FrameView) -> ValueView {
    match f {
        FrameView::Object { entries, .. } => ValueView::Object(entries),
        FrameView::Array { items } => ValueView::Array(items),
    }
}

/// Installs a completed value: into the enclosing object under its
/// pending key (reverting that frame to key mode), onto the enclosing
/// array, or as the root when no frame is open.  An object frame with
/// no pending key discards the value.
pub open spec fn spec_install(root: ValueView, stack: Seq<FrameView>, v: ValueView) -> (
    ValueView,
    Seq<FrameView>,
) {
    if stack.len() == 0 {
        (v, stack)
    } else {
        match stack.last() {
            FrameView::Object { is_key, key, entries } => match key {
                Some(k) => (
                    root,
                    stack.update(
                        stack.len() - 1,
                        FrameView::Object {
                            is_key: true,
                            key: Some(k),
                            entries: spec_insert(entries, k, v),
                        },
                    ),
                ),
                None => (root, stack),
            },
            FrameView::Array { items } => (
                root,
                stack.update(stack.len() - 1, FrameView::Array { items: items.push(v) }),
            ),
        }
    }
}

pub open spec fn structure_err_msg() -> Seq<char> {
    "Failed to parse object. Is it a valid one?"@
}

/// One step of the builder: how a single token transforms the root and
/// the stack of open frames, or fails on a stray structural token at
/// the top level.
pub open spec fn spec_step(root: ValueView, stack: Seq<FrameView>, t: TokenView) -> Result<
    (ValueView, Seq<FrameView>),
    Seq<char>,
> {
    match t {
        TokenView::Whitespace => Ok((root, stack)),
        TokenView::Comma => {
            if stack.len() == 0 {
                Err(structure_err_msg())
            } else {
                match stack.last() {
                    FrameView::Object { is_key, key, entries } => Ok(
                        (
                            root,
                            stack.update(
                                stack.len() - 1,
                                FrameView::Object { is_key: true, key, entries },
                            ),
                        ),
                    ),
                    FrameView::Array { .. } => Ok((root, stack)),
                }
            }
        },
        TokenView::Colon => {
            if stack.len() == 0 {
                Err(structure_err_msg())
            } else {
                match stack.last() {
                    FrameView::Object { is_key, key, entries } => Ok(
                        (
                            root,
                            stack.update(
                                stack.len() - 1,
                                FrameView::Object { is_key: false, key, entries },
                            ),
                        ),
                    ),
                    FrameView::Array { .. } => Ok((root, stack)),
                }
            }
        },
        TokenView::OpenCurlyBracket => {
            if stack.len() > 0 && (stack.last() matches FrameView::Object { key: None, .. }) {
                Ok((root, stack))
            } else {
                Ok(
                    (
                        root,
                        stack.push(
                            FrameView::Object { is_key: true, key: None, entries: Seq::empty() },
                        ),
                    ),
                )
            }
        },
        TokenView::OpenSquareBracket => {
            if stack.len() > 0 && (stack.last() matches FrameView::Object { key: None, .. }) {
                Ok((root, stack))
            } else {
                Ok((root, stack.push(FrameView::Array { items: Seq::empty() })))
            }
        },
        TokenView::CloseCurlyBracket => {
            if stack.len() == 0 {
                Err(structure_err_msg())
            } else {
                match stack.last() {
                    FrameView::Object { entries, .. } => Ok(
                        spec_install(root, stack.drop_last(), ValueView::Object(entries)),
                    ),
                    FrameView::Array { .. } => Ok((root, stack)),
                }
            }
        },
        TokenView::CloseSquareBracket => {
            if stack.len() == 0 {
                Err(structure_err_msg())
            } else {
                match stack.last() {
                    FrameView::Array { items } => Ok(
                        spec_install(root, stack.drop_last(), ValueView::Array(items)),
                    ),
                    FrameView::Object { .. } => Ok((root, stack)),
                }
            }
        },
        TokenView::StringValue(text) => {
            if stack.len() > 0 && (stack.last() matches FrameView::Object { is_key: true, .. }) {
                match stack.last() {
                    FrameView::Object { is_key, key, entries } => Ok(
                        (
                            root,
                            stack.update(
                                stack.len() - 1,
                                FrameView::Object { is_key, key: Some(text), entries },
                            ),
                        ),
                    ),
                    FrameView::Array { .. } => Ok((root, stack)),
                }
            } else {
                Ok(spec_install(root, stack, ValueView::String(text)))
            }
        },
        TokenView::NumberValue(text) => Ok(spec_install(root, stack, ValueView::Number(text))),
        TokenView::Boolean(b) => Ok(spec_install(root, stack, ValueView::Boolean(b))),
        TokenView::Null => Ok(spec_install(root, stack, ValueView::Null)),
    }
}

/// Runs the builder over the tokens from position `i`.
pub open spec fn spec_run(
    toks: Seq<TokenView>,
    i: int,
    root: ValueView,
    stack: Seq<FrameView>,
) -> Result<(ValueView, Seq<FrameView>), Seq<char>>
    decreases toks.len() - i,
{
    if i < 0 || i >= toks.len() {
        Ok((root, stack))
    } else {
        match spec_step(root, stack, toks[i]) {
            Err(e) => Err(e),
            Ok((root2, stack2)) => spec_run(toks, i + 1, root2, stack2),
        }
    }
}

/// When input ends with frames still open, each completes in turn and
/// installs into its parent, innermost first.
pub open spec fn spec_finish(root: ValueView, stack: Seq<FrameView>) -> ValueView
    decreases stack.len(),
{
    if stack.len() == 0 {
        root
    } else {
        let v = frame_value(stack.last());
        let (root2, stack2) = spec_install(root, stack.drop_last(), v);
        spec_finish(root2, stack2)
    }
}

/// The value built from a token sequence: the last top-level value
/// wins, an empty sequence builds null, and a stray structural token
/// at the top level is the structural error.
pub open spec fn spec_parse(toks: Seq<TokenView>) -> Result<ValueView, Seq<char>> {
    match spec_run(toks, 0, ValueView::Null, Seq::empty()) {
        Ok((root, stack)) => Ok(spec_finish(root, stack)),
        Err(e) => Err(e),
    }
}

/// Parsing a whole text: tokenize, then build.
pub open spec fn spec_parse_json(s: Seq<char>) -> Result<ValueView, Seq<char>> {
    match token::spec_tokens_of(s) {
        Ok(toks) => spec_parse(toks),
        Err(e) => Err(e),
    }
}

/// Parsing a whole byte buffer: the buffer must be well-formed UTF-8.
pub open spec fn spec_parse_json_bytes(b: Seq<u8>) -> Result<ValueView, Seq<char>> {
    if vstd::utf8::valid_utf8(b) {
        spec_parse_json(vstd::utf8::decode_utf8(b))
    } else {
        Err("failed to decode byte buffer"@)
    }
}

/// A well-formed value: every object's keys are unique, at every
/// level.
pub open spec fn wf_value(v: ValueView) -> bool
    decreases v,
{
    match v {
        ValueView::Object(entries) => {
            &&& (forall|i: int, j: int|
                0 <= i < j < entries.len() ==> (#[trigger] entries[i].0) != (
                #[trigger] entries[j].0))
            &&& (forall|i: int|
                0 <= i < entries.len() ==> wf_value(#[trigger] entries[i].1))
        },
        ValueView::Array(items) => forall|i: int|
            0 <= i < items.len() ==> wf_value(#[trigger] items[i]),
        _ => true,
    }
}

/// The canonical token sequence of a value: objects and arrays in
/// brackets, each element followed by a comma separator, object
/// entries as key, colon, value.
pub open spec fn encode(v: ValueView) -> Seq<TokenView>
    decreases v,
{
    match v {
        ValueView::String(t) => seq![TokenView::StringValue(t)],
        ValueView::Number(t) => seq![TokenView::NumberValue(t)],
        ValueView::Boolean(b) => seq![TokenView::Boolean(b)],
        ValueView::Null => seq![TokenView::Null],
        ValueView::Array(items) => seq![TokenView::OpenSquareBracket] + encode_items(items) + seq![
            TokenView::CloseSquareBracket,
        ],
        ValueView::Object(entries) => seq![TokenView::OpenCurlyBracket] + encode_entries(entries)
            + seq![TokenView::CloseCurlyBracket],
    }
}

pub open spec fn encode_items(items: Seq<ValueView>) -> Seq<TokenView>
    decreases items,
{
    if items.len() == 0 {
        Seq::empty()
    } else {
        encode(items[0]) + seq![TokenView::Comma] + encode_items(items.drop_first())
    }
}

pub open spec fn encode_entries(entries: Seq<(Seq<char>, ValueView)>) -> Seq<TokenView>
    decreases entries,
{
    if entries.len() == 0 {
        Seq::empty()
    } else {
        seq![TokenView::StringValue(entries[0].0), TokenView::Colon] + encode(entries[0].1) + seq![
            TokenView::Comma,
        ] + encode_entries(entries.drop_first())
    }
}

/// The builder restated as consuming its tokens from the front; this
/// is [`spec_run`] with the position folded away.
pub open spec fn run_tokens(
    toks: Seq<TokenView>,
    root: ValueView,
    stack: Seq<FrameView>,
) -> Result<(ValueView, Seq<FrameView>), Seq<char>>
    decreases toks.len(),
{
    if toks.len() == 0 {
        Ok((root, stack))
    } else {
        match spec_step(root, stack, toks[0]) {
            Err(e) => Err(e),
            Ok((root2, stack2)) => run_tokens(toks.drop_first(), root2, stack2),
        }
    }
}

proof fn lemma_run_equiv(toks: Seq<TokenView>, i: int, root: ValueView, stack: Seq<FrameView>)
    requires
        0 <= i <= toks.len(),
    ensures
        spec_run(toks, i, root, stack) == run_tokens(toks.skip(i), root, stack),
    decreases toks.len() - i,
{
    if i < toks.len() {
        assert(toks.skip(i)[0] == toks[i]);
        match spec_step(root, stack, toks[i]) {
            Err(e) => {},
            Ok((root2, stack2)) => {
                lemma_run_equiv(toks, i + 1, root2, stack2);
                assert(toks.skip(i).drop_first() =~= toks.skip(i + 1));
            },
        }
    } else {
        assert(toks.skip(i).len() == 0);
    }
}

proof fn lemma_run_concat(a: Seq<TokenView>, b: Seq<TokenView>, root: ValueView, stack: Seq<FrameView>)
    ensures
        run_tokens(a + b, root, stack) == match run_tokens(a, root, stack) {
            Ok((root2, stack2)) => run_tokens(b, root2, stack2),
            Err(e) => Err(e),
        },
    decreases a.len(),
{
    if a.len() == 0 {
        assert(a + b =~= b);
    } else {
        assert((a + b)[0] == a[0]);
        match spec_step(root, stack, a[0]) {
            Err(e) => {
                assert((a + b).len() > 0);
            },
            Ok((root2, stack2)) => {
                lemma_run_concat(a.drop_first(), b, root2, stack2);
                assert((a + b).drop_first() =~= a.drop_first() + b);
            },
        }
    }
}

proof fn lemma_run_single(t: TokenView, root: ValueView, stack: Seq<FrameView>)
    ensures
        run_tokens(seq![t], root, stack) == match spec_step(root, stack, t) {
            Ok((root2, stack2)) => Ok::<(ValueView, Seq<FrameView>), Seq<char>>((root2, stack2)),
            Err(e) => Err(e),
        },
{
    reveal_with_fuel(run_tokens, 2);
    assert(seq![t][0] == t);
    assert(seq![t].drop_first() =~= Seq::<TokenView>::empty());
}

/// A stack position that a value's tokens can deliver into: the root,
/// an open array, or an open object in value mode with a pending key.
pub open spec fn receptive(stack: Seq<FrameView>) -> bool {
    ||| stack.len() == 0
    ||| stack.last() is Array
    ||| (stack.last() matches FrameView::Object { is_key: false, key: Some(_), .. })
}

/// Folding a sequence of entries into an object by repeated insertion.
pub open spec fn insert_all(
    done: Seq<(Seq<char>, ValueView)>,
    entries: Seq<(Seq<char>, ValueView)>,
) -> Seq<(Seq<char>, ValueView)>
    decreases entries.len(),
{
    if entries.len() == 0 {
        done
    } else {
        insert_all(spec_insert(done, entries[0].0, entries[0].1), entries.drop_first())
    }
}

/// Inserting pairwise-distinct fresh keys appends them in order.
proof fn lemma_insert_all_fresh(
    done: Seq<(Seq<char>, ValueView)>,
    entries: Seq<(Seq<char>, ValueView)>,
)
    requires
        forall|i: int, j: int|
            0 <= i < j < entries.len() ==> (#[trigger] entries[i].0) != (#[trigger] entries[j].0),
        forall|i: int, j: int|
            0 <= i < done.len() && 0 <= j < entries.len() ==> (#[trigger] done[i].0) != (
            #[trigger] entries[j].0),
    ensures
        insert_all(done, entries) == done + entries,
    decreases entries.len(),
{
    if entries.len() == 0 {
        assert(done + entries =~= done);
    } else {
        assert(forall|i: int|
            0 <= i < done.len() ==> (#[trigger] done[i].0) != entries[0].0);
        value::lemma_insert_append(done, entries[0].0, entries[0].1);
        let done2 = done.push((entries[0].0, entries[0].1));
        assert(done2 == spec_insert(done, entries[0].0, entries[0].1));
        assert forall|i: int, j: int|
            0 <= i < done2.len() && 0 <= j < entries.drop_first().len() implies (
        #[trigger] done2[i].0) != (#[trigger] entries.drop_first()[j].0) by {
            assert(entries.drop_first()[j] == entries[j + 1]);
            if i < done.len() {
                assert(done2[i] == done[i]);
            } else {
                assert(done2[i] == (entries[0].0, entries[0].1));
            }
        }
        assert forall|i: int, j: int|
            0 <= i < j < entries.drop_first().len() implies (#[trigger] entries.drop_first()[i].0)
            != (#[trigger] entries.drop_first()[j].0) by {
            assert(entries.drop_first()[i] == entries[i + 1]);
            assert(entries.drop_first()[j] == entries[j + 1]);
        }
        lemma_insert_all_fresh(done2, entries.drop_first());
        assert(done.push((entries[0].0, entries[0].1)) + entries.drop_first() =~= done + entries);
        assert(entries[0] == (entries[0].0, entries[0].1));
    }
}

/// A separator token: a comma or a whitespace token.
pub open spec fn is_sep(t: TokenView) -> bool {
    t is Comma || t is Whitespace
}

pub open spec fn all_seps(ts: Seq<TokenView>) -> bool {
    forall|i: int| 0 <= i < ts.len() ==> is_sep(#[trigger] ts[i])
}

pub open spec fn all_ws(ts: Seq<TokenView>) -> bool {
    forall|i: int| 0 <= i < ts.len() ==> (#[trigger] ts[i]) is Whitespace
}

/// The token sequences that spell the value `v`: brackets around
/// elements and entries separated by any mix of commas and whitespace
/// (whitespace alone between a pending key's colon and its value),
/// scalars as their single token.  The canonical [`encode`] is one
/// such spelling.
pub open spec fn encodes_value(toks: Seq<TokenView>, v: ValueView) -> bool
    decreases v,
{
    match v {
        ValueView::String(t) => toks == seq![TokenView::StringValue(t)],
        ValueView::Number(t) => toks == seq![TokenView::NumberValue(t)],
        ValueView::Boolean(b) => toks == seq![TokenView::Boolean(b)],
        ValueView::Null => toks == seq![TokenView::Null],
        ValueView::Array(items) => exists|mid: Seq<TokenView>|
            #![trigger seq![TokenView::OpenSquareBracket] + mid + seq![TokenView::CloseSquareBracket]]
            toks == seq![TokenView::OpenSquareBracket] + mid + seq![
                TokenView::CloseSquareBracket,
            ] && encodes_items(mid, items),
        ValueView::Object(entries) => exists|mid: Seq<TokenView>|
            #![trigger seq![TokenView::OpenCurlyBracket] + mid + seq![TokenView::CloseCurlyBracket]]
            toks == seq![TokenView::OpenCurlyBracket] + mid + seq![TokenView::CloseCurlyBracket]
                && encodes_entries(mid, entries),
    }
}

pub open spec fn encodes_items(toks: Seq<TokenView>, items: Seq<ValueView>) -> bool
    decreases items,
{
    if items.len() == 0 {
        all_seps(toks)
    } else {
        exists|lead: Seq<TokenView>, a: Seq<TokenView>, rest: Seq<TokenView>|
            #![trigger lead + a + rest]
            toks == lead + a + rest && all_seps(lead) && encodes_value(a, items[0])
                && encodes_items(rest, items.drop_first())
    }
}

pub open spec fn encodes_entries(toks: Seq<TokenView>, entries: Seq<(Seq<char>, ValueView)>) -> bool
    decreases entries,
{
    if entries.len() == 0 {
        all_seps(toks)
    } else {
        exists|
            lead: Seq<TokenView>,
            m1: Seq<TokenView>,
            m2: Seq<TokenView>,
            a: Seq<TokenView>,
            rest: Seq<TokenView>,
        |
            #![trigger lead + seq![TokenView::StringValue(entries[0].0)] + m1
                + seq![TokenView::Colon] + m2 + a + rest]
            toks == lead + seq![TokenView::StringValue(entries[0].0)] + m1 + seq![TokenView::Colon]
                + m2 + a + rest && all_seps(lead) && all_seps(m1) && all_ws(m2)
                && encodes_value(a, entries[0].1) && encodes_entries(rest, entries.drop_first())
    }
}


/// Whitespace tokens change no builder state, anywhere.
proof fn lemma_run_ws(ts: Seq<TokenView>, root: ValueView, stack: Seq<FrameView>)
    requires
        all_ws(ts),
    ensures
        run_tokens(ts, root, stack) == Ok::<(ValueView, Seq<FrameView>), Seq<char>>((root, stack)),
    decreases ts.len(),
{
    if ts.len() > 0 {
        assert(ts[0] is Whitespace);
        assert(all_ws(ts.drop_first())) by {
            assert(forall|i: int|
                0 <= i < ts.drop_first().len() ==> #[trigger] ts.drop_first()[i] == ts[i + 1]);
        }
        lemma_run_ws(ts.drop_first(), root, stack);
    }
}

/// Separator tokens change no builder state over an open array or an
/// open object in key mode.
proof fn lemma_run_seps(ts: Seq<TokenView>, root: ValueView, stack: Seq<FrameView>)
    requires
        all_seps(ts),
        stack.len() > 0,
        stack.last() is Array || (stack.last() matches FrameView::Object { is_key: true, .. }),
    ensures
        run_tokens(ts, root, stack) == Ok::<(ValueView, Seq<FrameView>), Seq<char>>((root, stack)),
    decreases ts.len(),
{
    if ts.len() > 0 {
        assert(is_sep(ts[0]));
        assert(spec_step(root, stack, ts[0]) == Ok::<(ValueView, Seq<FrameView>), Seq<char>>(
            (root, stack),
        )) by {
            if ts[0] is Comma {
                match stack.last() {
                    FrameView::Object { is_key, key, entries } => {
                        assert(stack.update(
                            stack.len() - 1,
                            FrameView::Object { is_key: true, key, entries },
                        ) =~= stack);
                    },
                    FrameView::Array { .. } => {},
                }
            }
        }
        assert(all_seps(ts.drop_first())) by {
            assert(forall|i: int|
                0 <= i < ts.drop_first().len() ==> #[trigger] ts.drop_first()[i] == ts[i + 1]);
        }
        lemma_run_seps(ts.drop_first(), root, stack);
    }
}

/// Running any spelling of a well-formed value from a receptive
/// position installs exactly that value.
proof fn lemma_encodes_value_run(
    toks: Seq<TokenView>,
    v: ValueView,
    root: ValueView,
    stack: Seq<FrameView>,
)
    requires
        encodes_value(toks, v),
        wf_value(v),
        receptive(stack),
    ensures
        run_tokens(toks, root, stack) == Ok::<(ValueView, Seq<FrameView>), Seq<char>>(
            spec_install(root, stack, v),
        ),
    decreases v,
{
    match v {
        ValueView::String(t) => {
            lemma_run_single(TokenView::StringValue(t), root, stack);
        },
        ValueView::Number(t) => {
            lemma_run_single(TokenView::NumberValue(t), root, stack);
        },
        ValueView::Boolean(b) => {
            lemma_run_single(TokenView::Boolean(b), root, stack);
        },
        ValueView::Null => {
            lemma_run_single(TokenView::Null, root, stack);
        },
        ValueView::Array(items) => {
            let mid = choose|mid: Seq<TokenView>|
                #![trigger seq![TokenView::OpenSquareBracket] + mid
                    + seq![TokenView::CloseSquareBracket]]
                toks == seq![TokenView::OpenSquareBracket] + mid + seq![
                    TokenView::CloseSquareBracket,
                ] && encodes_items(mid, items);
            let open = seq![TokenView::OpenSquareBracket];
            let close = seq![TokenView::CloseSquareBracket];
            let stack2 = stack.push(FrameView::Array { items: Seq::empty() });
            assert(run_tokens(open, root, stack) == Ok::<
                (ValueView, Seq<FrameView>),
                Seq<char>,
            >((root, stack2))) by {
                lemma_run_single(open[0], root, stack);
                assert(open =~= seq![open[0]]);
            }
            lemma_encodes_items_run(mid, items, root, stack2);
            let stack3 = stack2.update(stack2.len() - 1, FrameView::Array { items });
            assert(Seq::<ValueView>::empty() + items =~= items);
            assert(run_tokens(close, root, stack3) == Ok::<
                (ValueView, Seq<FrameView>),
                Seq<char>,
            >(spec_install(root, stack, v))) by {
                lemma_run_single(close[0], root, stack3);
                assert(close =~= seq![close[0]]);
                assert(stack3.last() == FrameView::Array { items });
                assert(stack3.drop_last() =~= stack);
            }
            lemma_run_concat(open, mid + close, root, stack);
            lemma_run_concat(mid, close, root, stack2);
            assert(toks =~= open + (mid + close));
        },
        ValueView::Object(entries) => {
            let mid = choose|mid: Seq<TokenView>|
                #![trigger seq![TokenView::OpenCurlyBracket] + mid
                    + seq![TokenView::CloseCurlyBracket]]
                toks == seq![TokenView::OpenCurlyBracket] + mid + seq![
                    TokenView::CloseCurlyBracket,
                ] && encodes_entries(mid, entries);
            let open = seq![TokenView::OpenCurlyBracket];
            let close = seq![TokenView::CloseCurlyBracket];
            let f0 = FrameView::Object { is_key: true, key: None, entries: Seq::empty() };
            let stack2 = stack.push(f0);
            assert(run_tokens(open, root, stack) == Ok::<
                (ValueView, Seq<FrameView>),
                Seq<char>,
            >((root, stack2))) by {
                lemma_run_single(open[0], root, stack);
                assert(open =~= seq![open[0]]);
            }
            lemma_encodes_entries_run(mid, entries, root, stack2);
            let key3 = if entries.len() == 0 {
                None
            } else {
                Some(entries.last().0)
            };
            let stack3 = stack2.update(
                stack2.len() - 1,
                FrameView::Object {
                    is_key: true,
                    key: key3,
                    entries: insert_all(Seq::empty(), entries),
                },
            );
            lemma_insert_all_fresh(Seq::empty(), entries);
            assert(Seq::<(Seq<char>, ValueView)>::empty() + entries =~= entries);
            assert(run_tokens(close, root, stack3) == Ok::<
                (ValueView, Seq<FrameView>),
                Seq<char>,
            >(spec_install(root, stack, v))) by {
                lemma_run_single(close[0], root, stack3);
                assert(close =~= seq![close[0]]);
                assert(stack3.drop_last() =~= stack);
            }
            lemma_run_concat(open, mid + close, root, stack);
            lemma_run_concat(mid, close, root, stack2);
            assert(toks =~= open + (mid + close));
        },
    }
}

/// Running any spelling of well-formed items onto an open array frame
/// appends them all.
proof fn lemma_encodes_items_run(
    toks: Seq<TokenView>,
    items: Seq<ValueView>,
    root: ValueView,
    stack: Seq<FrameView>,
)
    requires
        encodes_items(toks, items),
        forall|i: int| 0 <= i < items.len() ==> wf_value(#[trigger] items[i]),
        stack.len() > 0,
        stack.last() is Array,
    ensures
        run_tokens(toks, root, stack) == Ok::<(ValueView, Seq<FrameView>), Seq<char>>(
            (
                root,
                stack.update(
                    stack.len() - 1,
                    FrameView::Array { items: stack.last()->Array_items + items },
                ),
            ),
        ),
    decreases items,
{
    let done = stack.last()->Array_items;
    if items.len() == 0 {
        lemma_run_seps(toks, root, stack);
        assert(done + items =~= done);
        assert(stack.update(stack.len() - 1, FrameView::Array { items: done }) =~= stack);
    } else {
        let (lead, a, rest) = choose|lead: Seq<TokenView>, a: Seq<TokenView>, rest: Seq<TokenView>|
            #![trigger lead + a + rest]
            toks == lead + a + rest && all_seps(lead) && encodes_value(a, items[0])
                && encodes_items(rest, items.drop_first());
        lemma_run_seps(lead, root, stack);
        lemma_encodes_value_run(a, items[0], root, stack);
        let stack2 = stack.update(stack.len() - 1, FrameView::Array { items: done.push(items[0]) });
        assert(spec_install(root, stack, items[0]) == (root, stack2));
        assert(forall|i: int|
            0 <= i < items.drop_first().len() ==> wf_value(#[trigger] items.drop_first()[i]))
            by {
            assert(forall|i: int|
                0 <= i < items.drop_first().len() ==> #[trigger] items.drop_first()[i] == items[i
                    + 1]);
        }
        lemma_encodes_items_run(rest, items.drop_first(), root, stack2);
        assert(stack2.last()->Array_items == done.push(items[0]));
        assert(done.push(items[0]) + items.drop_first() =~= done + items);
        assert(stack2.update(
            stack2.len() - 1,
            FrameView::Array { items: done + items },
        ) =~= stack.update(stack.len() - 1, FrameView::Array { items: done + items }));
        lemma_run_concat(lead, a + rest, root, stack);
        lemma_run_concat(a, rest, root, stack);
        assert(toks =~= lead + (a + rest));
    }
}

/// Running any spelling of well-formed entries onto an open object
/// frame in key mode inserts them all, leaving the frame in key mode.
proof fn lemma_encodes_entries_run(
    toks: Seq<TokenView>,
    entries: Seq<(Seq<char>, ValueView)>,
    root: ValueView,
    stack: Seq<FrameView>,
)
    requires
        encodes_entries(toks, entries),
        forall|i: int| 0 <= i < entries.len() ==> wf_value(#[trigger] entries[i].1),
        stack.len() > 0,
        stack.last() matches FrameView::Object { is_key: true, .. },
    ensures
        run_tokens(toks, root, stack) == Ok::<(ValueView, Seq<FrameView>), Seq<char>>(
            (
                root,
                stack.update(
                    stack.len() - 1,
                    FrameView::Object {
                        is_key: true,
                        key: if entries.len() == 0 {
                            stack.last()->Object_key
                        } else {
                            Some(entries.last().0)
                        },
                        entries: insert_all(stack.last()->Object_entries, entries),
                    },
                ),
            ),
        ),
    decreases entries,
{
    let done = stack.last()->Object_entries;
    let k0 = stack.last()->Object_key;
    if entries.len() == 0 {
        lemma_run_seps(toks, root, stack);
        assert(stack.update(
            stack.len() - 1,
            FrameView::Object { is_key: true, key: k0, entries: done },
        ) =~= stack);
    } else {
        let (k, val) = entries[0];
        let (lead, m1, m2, a, rest) = choose|
            lead: Seq<TokenView>,
            m1: Seq<TokenView>,
            m2: Seq<TokenView>,
            a: Seq<TokenView>,
            rest: Seq<TokenView>,
        |
            #![trigger lead + seq![TokenView::StringValue(entries[0].0)] + m1
                + seq![TokenView::Colon] + m2 + a + rest]
            toks == lead + seq![TokenView::StringValue(entries[0].0)] + m1 + seq![TokenView::Colon]
                + m2 + a + rest && all_seps(lead) && all_seps(m1) && all_ws(m2)
                && encodes_value(a, entries[0].1) && encodes_entries(rest, entries.drop_first());
        let keytok = seq![TokenView::StringValue(k)];
        let colon = seq![TokenView::Colon];
        let top = stack.len() - 1;
        lemma_run_seps(lead, root, stack);
        // the key token becomes the pending key
        let stack2 = stack.update(
            top,
            FrameView::Object { is_key: true, key: Some(k), entries: done },
        );
        assert(run_tokens(keytok, root, stack) == Ok::<
            (ValueView, Seq<FrameView>),
            Seq<char>,
        >((root, stack2))) by {
            lemma_run_single(keytok[0], root, stack);
            assert(keytok =~= seq![keytok[0]]);
        }
        lemma_run_seps(m1, root, stack2);
        // the colon switches to value mode
        let stack3 = stack2.update(
            top,
            FrameView::Object { is_key: false, key: Some(k), entries: done },
        );
        assert(run_tokens(colon, root, stack2) == Ok::<
            (ValueView, Seq<FrameView>),
            Seq<char>,
        >((root, stack3))) by {
            lemma_run_single(colon[0], root, stack2);
            assert(colon =~= seq![colon[0]]);
            assert(stack2.last() == FrameView::Object { is_key: true, key: Some(k), entries: done });
        }
        lemma_run_ws(m2, root, stack3);
        // the value installs under the pending key and reverts to key
        // mode
        assert(receptive(stack3)) by {
            assert(stack3.last() == FrameView::Object {
                is_key: false,
                key: Some(k),
                entries: done,
            });
        }
        lemma_encodes_value_run(a, val, root, stack3);
        let stack4 = stack3.update(
            top,
            FrameView::Object { is_key: true, key: Some(k), entries: spec_insert(done, k, val) },
        );
        assert(spec_install(root, stack3, val) == (root, stack4)) by {
            assert(stack3.last() == FrameView::Object {
                is_key: false,
                key: Some(k),
                entries: done,
            });
            assert(stack3.update(
                stack3.len() - 1,
                FrameView::Object {
                    is_key: true,
                    key: Some(k),
                    entries: spec_insert(done, k, val),
                },
            ) =~= stack4);
        }
        assert forall|i: int| 0 <= i < entries.drop_first().len() implies wf_value(
            #[trigger] entries.drop_first()[i].1,
        ) by {
            assert(entries.drop_first()[i] == entries[i + 1]);
        }
        lemma_encodes_entries_run(rest, entries.drop_first(), root, stack4);
        assert(stack4.last()->Object_entries == spec_insert(done, k, val));
        assert(insert_all(spec_insert(done, k, val), entries.drop_first()) == insert_all(
            done,
            entries,
        )) by {
            assert(entries[0] == (k, val));
        }
        let key_final = if entries.drop_first().len() == 0 {
            Some(k)
        } else {
            Some(entries.drop_first().last().0)
        };
        assert(key_final == if entries.len() == 0 {
            k0
        } else {
            Some(entries.last().0)
        }) by {
            if entries.len() > 1 {
                assert(entries.drop_first().last() == entries.last());
            }
        }
        assert(stack4.update(
            top,
            FrameView::Object { is_key: true, key: key_final, entries: insert_all(done, entries) },
        ) =~= stack.update(
            top,
            FrameView::Object { is_key: true, key: key_final, entries: insert_all(done, entries) },
        ));
        lemma_run_concat(lead, keytok + (m1 + (colon + (m2 + (a + rest)))), root, stack);
        lemma_run_concat(keytok, m1 + (colon + (m2 + (a + rest))), root, stack);
        lemma_run_concat(m1, colon + (m2 + (a + rest)), root, stack2);
        lemma_run_concat(colon, m2 + (a + rest), root, stack2);
        lemma_run_concat(m2, a + rest, root, stack3);
        lemma_run_concat(a, rest, root, stack3);
        assert(toks =~= lead + (keytok + (m1 + (colon + (m2 + (a + rest))))));
    }
}

/// The builder rebuilds whatever spells a well-formed value: any
/// spelling of `v` — any mix of commas and whitespace between
/// elements and entries, whitespace around the whole input — builds
/// back exactly `v`, so every level shows the same key set and array
/// length as the input, whatever its nesting depth.
pub proof fn lemma_parse_any_encoding(
    pre: Seq<TokenView>,
    toks: Seq<TokenView>,
    post: Seq<TokenView>,
    v: ValueView,
)
    requires
        wf_value(v),
        encodes_value(toks, v),
        all_ws(pre),
        all_ws(post),
    ensures
        spec_parse(pre + toks + post) == Ok::<ValueView, Seq<char>>(v),
{
    lemma_run_ws(pre, ValueView::Null, Seq::empty());
    lemma_encodes_value_run(toks, v, ValueView::Null, Seq::empty());
    assert(spec_install(ValueView::Null, Seq::empty(), v) == (v, Seq::<FrameView>::empty()));
    lemma_run_ws(post, v, Seq::empty());
    lemma_run_concat(pre, toks + post, ValueView::Null, Seq::empty());
    lemma_run_concat(toks, post, ValueView::Null, Seq::empty());
    assert(pre + toks + post =~= pre + (toks + post));
    lemma_run_equiv(pre + toks + post, 0, ValueView::Null, Seq::empty());
    assert((pre + toks + post).skip(0) =~= pre + toks + post);
    assert(spec_run(pre + toks + post, 0, ValueView::Null, Seq::empty()) == Ok::<
        (ValueView, Seq<FrameView>),
        Seq<char>,
    >((v, Seq::empty())));
}

/// The builder rebuilds what the canonical token sequence encodes:
/// for every well-formed value — unique keys in every object — the
/// tokens of that value, nested to any depth, build back exactly that
/// value, so every level shows the same key set and array length.
pub proof fn lemma_parse_encoded(v: ValueView)
    requires
        wf_value(v),
    ensures
        spec_parse(encode(v)) == Ok::<ValueView, Seq<char>>(v),
{
    lemma_encode_is_encoding(v);
    lemma_parse_any_encoding(Seq::empty(), encode(v), Seq::empty(), v);
    assert(Seq::<TokenView>::empty() + encode(v) + Seq::<TokenView>::empty() =~= encode(v));
}

/// A leading run of separators can join any spelling of items.
proof fn lemma_encodes_items_prepend(p: Seq<TokenView>, ts: Seq<TokenView>, items: Seq<ValueView>)
    requires
        all_seps(p),
        encodes_items(ts, items),
    ensures
        encodes_items(p + ts, items),
{
    if items.len() == 0 {
        assert(all_seps(p + ts)) by {
            assert(forall|i: int|
                0 <= i < p.len() + ts.len() ==> #[trigger] (p + ts)[i] == if i < p.len() {
                    p[i]
                } else {
                    ts[i - p.len()]
                });
        }
    } else {
        let (lead, a, rest) = choose|lead: Seq<TokenView>, a: Seq<TokenView>, rest: Seq<TokenView>|
            #![trigger lead + a + rest]
            ts == lead + a + rest && all_seps(lead) && encodes_value(a, items[0])
                && encodes_items(rest, items.drop_first());
        assert(all_seps(p + lead)) by {
            assert(forall|i: int|
                0 <= i < p.len() + lead.len() ==> #[trigger] (p + lead)[i] == if i < p.len() {
                    p[i]
                } else {
                    lead[i - p.len()]
                });
        }
        assert((p + lead) + a + rest =~= p + ts);
    }
}

/// A leading run of separators can join any spelling of entries.
proof fn lemma_encodes_entries_prepend(
    p: Seq<TokenView>,
    ts: Seq<TokenView>,
    entries: Seq<(Seq<char>, ValueView)>,
)
    requires
        all_seps(p),
        encodes_entries(ts, entries),
    ensures
        encodes_entries(p + ts, entries),
{
    if entries.len() == 0 {
        assert(all_seps(p + ts)) by {
            assert(forall|i: int|
                0 <= i < p.len() + ts.len() ==> #[trigger] (p + ts)[i] == if i < p.len() {
                    p[i]
                } else {
                    ts[i - p.len()]
                });
        }
    } else {
        let (lead, m1, m2, a, rest) = choose|
            lead: Seq<TokenView>,
            m1: Seq<TokenView>,
            m2: Seq<TokenView>,
            a: Seq<TokenView>,
            rest: Seq<TokenView>,
        |
            #![trigger lead + seq![TokenView::StringValue(entries[0].0)] + m1
                + seq![TokenView::Colon] + m2 + a + rest]
            ts == lead + seq![TokenView::StringValue(entries[0].0)] + m1 + seq![TokenView::Colon]
                + m2 + a + rest && all_seps(lead) && all_seps(m1) && all_ws(m2)
                && encodes_value(a, entries[0].1) && encodes_entries(rest, entries.drop_first());
        assert(all_seps(p + lead)) by {
            assert(forall|i: int|
                0 <= i < p.len() + lead.len() ==> #[trigger] (p + lead)[i] == if i < p.len() {
                    p[i]
                } else {
                    lead[i - p.len()]
                });
        }
        assert((p + lead) + seq![TokenView::StringValue(entries[0].0)] + m1 + seq![
            TokenView::Colon,
        ] + m2 + a + rest =~= p + ts);
    }
}

/// The canonical token sequence is one spelling of its value.
proof fn lemma_encode_is_encoding(v: ValueView)
    ensures
        encodes_value(encode(v), v),
    decreases v,
{
    match v {
        ValueView::String(t) => {},
        ValueView::Number(t) => {},
        ValueView::Boolean(b) => {},
        ValueView::Null => {},
        ValueView::Array(items) => {
            lemma_encode_items_is_encoding(items);
            assert(encode(v) == seq![TokenView::OpenSquareBracket] + encode_items(items) + seq![
                TokenView::CloseSquareBracket,
            ]);
        },
        ValueView::Object(entries) => {
            lemma_encode_entries_is_encoding(entries);
            assert(encode(v) == seq![TokenView::OpenCurlyBracket] + encode_entries(entries) + seq![
                TokenView::CloseCurlyBracket,
            ]);
        },
    }
}

proof fn lemma_encode_items_is_encoding(items: Seq<ValueView>)
    ensures
        encodes_items(encode_items(items), items),
    decreases items,
{
    if items.len() == 0 {
        assert(all_seps(encode_items(items)));
    } else {
        lemma_encode_is_encoding(items[0]);
        lemma_encode_items_is_encoding(items.drop_first());
        let a = encode(items[0]);
        let rest = seq![TokenView::Comma] + encode_items(items.drop_first());
        assert(all_seps(seq![TokenView::Comma])) by {
            assert(seq![TokenView::Comma][0] is Comma);
        }
        lemma_encodes_items_prepend(
            seq![TokenView::Comma],
            encode_items(items.drop_first()),
            items.drop_first(),
        );
        let lead = Seq::<TokenView>::empty();
        assert(all_seps(lead));
        assert(lead + a + rest =~= encode_items(items));
    }
}

proof fn lemma_encode_entries_is_encoding(entries: Seq<(Seq<char>, ValueView)>)
    ensures
        encodes_entries(encode_entries(entries), entries),
    decreases entries,
{
    if entries.len() == 0 {
        assert(all_seps(encode_entries(entries)));
    } else {
        lemma_encode_is_encoding(entries[0].1);
        lemma_encode_entries_is_encoding(entries.drop_first());
        let a = encode(entries[0].1);
        let rest = seq![TokenView::Comma] + encode_entries(entries.drop_first());
        assert(all_seps(seq![TokenView::Comma])) by {
            assert(seq![TokenView::Comma][0] is Comma);
        }
        lemma_encodes_entries_prepend(
            seq![TokenView::Comma],
            encode_entries(entries.drop_first()),
            entries.drop_first(),
        );
        let lead = Seq::<TokenView>::empty();
        let m1 = Seq::<TokenView>::empty();
        let m2 = Seq::<TokenView>::empty();
        assert(all_seps(lead) && all_seps(m1) && all_ws(m2));
        assert(lead + seq![TokenView::StringValue(entries[0].0)] + m1 + seq![TokenView::Colon] + m2
            + a + rest =~= encode_entries(entries));
    }
}

/// A well-formed frame: unique keys and well-formed values inside.
pub open spec fn wf_frame(f: FrameView) -> bool {
    match f {
        FrameView::Object { entries, .. } => {
            &&& value::unique_keys(entries)
            &&& (forall|i: int|
                0 <= i < entries.len() ==> wf_value(#[trigger] entries[i].1))
        },
        FrameView::Array { items } => forall|i: int|
            0 <= i < items.len() ==> wf_value(#[trigger] items[i]),
    }
}

pub open spec fn wf_state(root: ValueView, stack: Seq<FrameView>) -> bool {
    wf_value(root) && (forall|i: int| 0 <= i < stack.len() ==> wf_frame(#[trigger] stack[i]))
}

proof fn lemma_install_wf(root: ValueView, stack: Seq<FrameView>, v: ValueView)
    requires
        wf_state(root, stack),
        wf_value(v),
    ensures
        wf_state(spec_install(root, stack, v).0, spec_install(root, stack, v).1),
{
    if stack.len() > 0 {
        let top = stack.len() - 1;
        match stack.last() {
            FrameView::Object { is_key, key, entries } => match key {
                Some(k) => {
                    assert(wf_frame(stack[top]));
                    value::lemma_insert_semantics(entries, k, v);
                    value::lemma_insert_elements(entries, k, v);
                    let entries2 = spec_insert(entries, k, v);
                    assert forall|i: int| 0 <= i < entries2.len() implies wf_value(
                        #[trigger] entries2[i].1,
                    ) by {
                        if entries2[i] != (k, v) {
                            let j = choose|j: int|
                                0 <= j < entries.len() && entries[j] == entries2[i];
                            assert(wf_value(entries[j].1));
                        }
                    }
                    let f2 = FrameView::Object { is_key: true, key: Some(k), entries: entries2 };
                    assert(wf_frame(f2));
                    assert forall|i: int|
                        0 <= i < stack.update(top, f2).len() implies wf_frame(
                        #[trigger] stack.update(top, f2)[i]) by {
                        if i != top {
                            assert(stack.update(top, f2)[i] == stack[i]);
                        }
                    }
                },
                None => {},
            },
            FrameView::Array { items } => {
                assert(wf_frame(stack[top]));
                let f2 = FrameView::Array { items: items.push(v) };
                assert(wf_frame(f2)) by {
                    assert(forall|i: int|
                        0 <= i < items.len() ==> items.push(v)[i] == #[trigger] items[i]);
                    assert(items.push(v)[items.len() as int] == v);
                }
                assert forall|i: int|
                    0 <= i < stack.update(top, f2).len() implies wf_frame(
                    #[trigger] stack.update(top, f2)[i]) by {
                    if i != top {
                        assert(stack.update(top, f2)[i] == stack[i]);
                    }
                }
            },
        }
    }
}

proof fn lemma_step_wf(root: ValueView, stack: Seq<FrameView>, t: TokenView)
    requires
        wf_state(root, stack),
    ensures
        spec_step(root, stack, t) matches Ok((root2, stack2)) ==> wf_state(root2, stack2),
{
    match spec_step(root, stack, t) {
        Err(_) => {},
        Ok((root2, stack2)) => {
            let top = stack.len() - 1;
            match t {
                TokenView::Whitespace => {},
                TokenView::Comma | TokenView::Colon => {
                    if stack.len() > 0 {
                        match stack.last() {
                            FrameView::Object { is_key, key, entries } => {
                                assert(wf_frame(stack[top]));
                                assert forall|i: int| 0 <= i < stack2.len() implies wf_frame(
                                    #[trigger] stack2[i],
                                ) by {
                                    if i != top {
                                        assert(stack2[i] == stack[i]);
                                    }
                                }
                            },
                            FrameView::Array { .. } => {},
                        }
                    }
                },
                TokenView::OpenCurlyBracket | TokenView::OpenSquareBracket => {
                    if stack2.len() == stack.len() + 1 {
                        assert forall|i: int| 0 <= i < stack2.len() implies wf_frame(
                            #[trigger] stack2[i],
                        ) by {
                            if i < stack.len() {
                                assert(stack2[i] == stack[i]);
                            } else {
                                assert(stack2[i] == stack2.last());
                            }
                        }
                    }
                },
                TokenView::CloseCurlyBracket => {
                    if stack.len() > 0 && (stack.last() matches FrameView::Object { .. }) {
                        let entries = stack.last()->Object_entries;
                        assert(wf_frame(stack[top]));
                        assert(wf_value(ValueView::Object(entries)));
                        assert(wf_state(root, stack.drop_last())) by {
                            assert(forall|i: int|
                                0 <= i < stack.drop_last().len() ==> #[trigger] stack.drop_last()[i]
                                    == stack[i]);
                        }
                        lemma_install_wf(root, stack.drop_last(), ValueView::Object(entries));
                    }
                },
                TokenView::CloseSquareBracket => {
                    if stack.len() > 0 && (stack.last() matches FrameView::Array { .. }) {
                        let items = stack.last()->Array_items;
                        assert(wf_frame(stack[top]));
                        assert(wf_value(ValueView::Array(items)));
                        assert(wf_state(root, stack.drop_last())) by {
                            assert(forall|i: int|
                                0 <= i < stack.drop_last().len() ==> #[trigger] stack.drop_last()[i]
                                    == stack[i]);
                        }
                        lemma_install_wf(root, stack.drop_last(), ValueView::Array(items));
                    }
                },
                TokenView::StringValue(text) => {
                    if stack.len() > 0 && (stack.last() matches FrameView::Object {
                        is_key: true,
                        ..
                    }) {
                        assert(wf_frame(stack[top]));
                        assert forall|i: int| 0 <= i < stack2.len() implies wf_frame(
                            #[trigger] stack2[i],
                        ) by {
                            if i != top {
                                assert(stack2[i] == stack[i]);
                            }
                        }
                    } else {
                        lemma_install_wf(root, stack, ValueView::String(text));
                    }
                },
                TokenView::NumberValue(text) => {
                    lemma_install_wf(root, stack, ValueView::Number(text));
                },
                TokenView::Boolean(b) => {
                    lemma_install_wf(root, stack, ValueView::Boolean(b));
                },
                TokenView::Null => {
                    lemma_install_wf(root, stack, ValueView::Null);
                },
            }
        },
    }
}

proof fn lemma_run_wf(toks: Seq<TokenView>, i: int, root: ValueView, stack: Seq<FrameView>)
    requires
        wf_state(root, stack),
    ensures
        spec_run(toks, i, root, stack) matches Ok((root2, stack2)) ==> wf_state(root2, stack2),
    decreases toks.len() - i,
{
    if 0 <= i < toks.len() {
        match spec_step(root, stack, toks[i]) {
            Err(_) => {},
            Ok((root2, stack2)) => {
                lemma_step_wf(root, stack, toks[i]);
                lemma_run_wf(toks, i + 1, root2, stack2);
            },
        }
    }
}

proof fn lemma_finish_wf(root: ValueView, stack: Seq<FrameView>)
    requires
        wf_state(root, stack),
    ensures
        wf_value(spec_finish(root, stack)),
    decreases stack.len(),
{
    if stack.len() > 0 {
        let v = frame_value(stack.last());
        assert(wf_frame(stack[stack.len() - 1]));
        assert(wf_value(v));
        assert(wf_state(root, stack.drop_last())) by {
            assert(forall|i: int|
                0 <= i < stack.drop_last().len() ==> #[trigger] stack.drop_last()[i] == stack[i]);
        }
        lemma_install_wf(root, stack.drop_last(), v);
        let (root2, stack2) = spec_install(root, stack.drop_last(), v);
        lemma_finish_wf(root2, stack2);
    }
}

/// Every tree the builder returns is well formed: each object's keys
/// are unique at every level, the last write to a key winning.
pub proof fn lemma_parse_wf(toks: Seq<TokenView>)
    ensures
        spec_parse(toks) matches Ok(v) ==> wf_value(v),
{
    assert(wf_state(ValueView::Null, Seq::empty()));
    lemma_run_wf(toks, 0, ValueView::Null, Seq::empty());
    match spec_run(toks, 0, ValueView::Null, Seq::empty()) {
        Err(_) => {},
        Ok((root, stack)) => {
            lemma_finish_wf(root, stack);
        },
    }
}

/// Turns a finished frame into its value.
fn frame_to_value(f: Frame) -> (v: Value)
    ensures
        v@ == frame_value(f@),
{
    match f {
        Frame::Object { entries, .. } => Value::Object(entries),
        Frame::Array { items } => Value::Array(items),
    }
}

/// Installs a completed value into the top frame or the root, the
/// executable mirror of [`spec_install`].
fn install(root: &mut Value, stack: &mut Vec<Frame>, v: Value)
    ensures
        (final(root)@, final(stack).deep_view()) == spec_install(
            old(root)@,
            old(stack).deep_view(),
            v@,
        ),
{
    let n = stack.len();
    if n == 0 {
        *root = v;
        return ;
    }
    let ghost pre = stack.deep_view();
    let f = stack.pop().unwrap();
    proof {
        assert(stack.deep_view() =~= pre.drop_last());
        assert(f@ == pre.last());
    }
    match f {
        Frame::Object { is_key, key, entries } => {
            match key {
                Some(k) => {
                    let mut entries = entries;
                    let key_copy = k.clone();
                    entries.insert(key_copy, v);
                    stack.push(Frame::Object { is_key: true, key: Some(k), entries });
                    proof {
                        assert(stack.deep_view() =~= pre.update(pre.len() - 1, stack@.last()@));
                    }
                },
                None => {
                    stack.push(Frame::Object { is_key, key: None, entries });
                    proof {
                        assert(stack.deep_view() =~= pre);
                    }
                },
            }
        },
        Frame::Array { items } => {
            let mut items = items;
            let ghost old_items = items@;
            items.push(v);
            proof {
                assert(items@.drop_last() =~= old_items);
                assert(value::view_list(items@) == value::view_list(old_items).push(v@));
            }
            stack.push(Frame::Array { items });
            proof {
                assert(stack.deep_view() =~= pre.update(pre.len() - 1, stack@.last()@));
            }
        },
    }
}

/// Applies one token to the builder state, the executable mirror of
/// [`spec_step`].
fn apply_step(root: &mut Value, stack: &mut Vec<Frame>, tok: &Token) -> (r: ParsonResult<()>)
    ensures
        match r {
            Ok(_) => spec_step(old(root)@, old(stack).deep_view(), tok@) == Ok::<
                (ValueView, Seq<FrameView>),
                Seq<char>,
            >((final(root)@, final(stack).deep_view())),
            Err(e) => spec_step(old(root)@, old(stack).deep_view(), tok@) == Err::<
                (ValueView, Seq<FrameView>),
                Seq<char>,
            >(e@),
        },
{
    let ghost pre = stack.deep_view();
    let n = stack.len();
    match tok {
        Token::Whitespace => Ok(()),
        Token::Comma | Token::Colon => {
            if n == 0 {
                return Err(ParsingError::new("Failed to parse object. Is it a valid one?"));
            }
            let to_key = matches!(tok, Token::Comma);
            let f = stack.pop().unwrap();
            proof {
                assert(stack.deep_view() =~= pre.drop_last());
            }
            match f {
                Frame::Object { is_key: _, key, entries } => {
                    stack.push(Frame::Object { is_key: to_key, key, entries });
                    proof {
                        assert(stack.deep_view() =~= pre.update(pre.len() - 1, stack@.last()@));
                    }
                },
                Frame::Array { items } => {
                    stack.push(Frame::Array { items });
                    proof {
                        assert(stack.deep_view() =~= pre);
                    }
                },
            }
            Ok(())
        },
        Token::OpenCurlyBracket | Token::OpenSquareBracket => {
            let skip = if n > 0 {
                match &stack[n - 1] {
                    Frame::Object { key, .. } => key.is_none(),
                    Frame::Array { .. } => false,
                }
            } else {
                false
            };
            if !skip {
                if matches!(tok, Token::OpenCurlyBracket) {
                    stack.push(Frame::Object { is_key: true, key: None, entries: Object::new() });
                } else {
                    stack.push(Frame::Array { items: Vec::new() });
                }
                proof {
                    assert(value::view_list(Seq::<Value>::empty()) =~= Seq::<ValueView>::empty());
                    assert(stack.deep_view() =~= pre.push(stack@.last()@));
                }
            }
            Ok(())
        },
        Token::CloseCurlyBracket => {
            if n == 0 {
                return Err(ParsingError::new("Failed to parse object. Is it a valid one?"));
            }
            let is_obj = matches!(&stack[n - 1], Frame::Object { .. });
            if is_obj {
                let f = stack.pop().unwrap();
                proof {
                    assert(stack.deep_view() =~= pre.drop_last());
                }
                let v = frame_to_value(f);
                install(root, stack, v);
            }
            Ok(())
        },
        Token::CloseSquareBracket => {
            if n == 0 {
                return Err(ParsingError::new("Failed to parse object. Is it a valid one?"));
            }
            let is_arr = matches!(&stack[n - 1], Frame::Array { .. });
            if is_arr {
                let f = stack.pop().unwrap();
                proof {
                    assert(stack.deep_view() =~= pre.drop_last());
                }
                let v = frame_to_value(f);
                install(root, stack, v);
            }
            Ok(())
        },
        Token::StringValue(text) => {
            let as_key = if n > 0 {
                matches!(&stack[n - 1], Frame::Object { is_key: true, .. })
            } else {
                false
            };
            if as_key {
                let f = stack.pop().unwrap();
                proof {
                    assert(stack.deep_view() =~= pre.drop_last());
                }
                match f {
                    Frame::Object { is_key, key: _, entries } => {
                        stack.push(Frame::Object { is_key, key: Some(text.clone()), entries });
                        proof {
                            assert(stack.deep_view() =~= pre.update(pre.len() - 1, stack@.last()@));
                        }
                    },
                    Frame::Array { items } => {
                        proof {
                            assert(false);
                        }
                        stack.push(Frame::Array { items });
                    },
                }
            } else {
                install(root, stack, Value::String(text.clone()));
            }
            Ok(())
        },
        Token::NumberValue(num) => {
            let text = match num {
                token::Number::Float(t) => t.clone(),
            };
            install(root, stack, Value::Number(token::Number::Float(text)));
            Ok(())
        },
        Token::Boolean(b) => {
            install(root, stack, Value::Boolean(*b));
            Ok(())
        },
        Token::Null => {
            install(root, stack, Value::Null);
            Ok(())
        },
    }
}

pub struct JsonParser {
    pub tokens: Vec<Token>,
}

impl View for JsonParser {
    type V = Seq<TokenView>;

    open spec fn view(&self) -> Seq<TokenView> {
        self.tokens.deep_view()
    }
}

impl JsonParser {
    /// Tokenizes the input; a lexical error surfaces here.
    pub fn new(json_string: &str) -> (r: ParsonResult<JsonParser>)
        ensures
            match r {
                Ok(p) => token::spec_tokens_of(json_string@) == Ok::<Seq<TokenView>, Seq<char>>(p@),
                Err(e) => token::spec_tokens_of(json_string@) == Err::<Seq<TokenView>, Seq<char>>(
                    e@,
                ),
            },
    {
        match Tokenizer::new(json_string) {
            Ok(t) => Ok(JsonParser { tokens: t.tokens }),
            Err(e) => Err(e),
        }
    }

    /// Builds the value tree out of the token sequence.
    pub fn parse(&self) -> (r: ParsonResult<Value>)
        ensures
            match r {
                Ok(v) => spec_parse(self@) == Ok::<ValueView, Seq<char>>(v@),
                Err(e) => spec_parse(self@) == Err::<ValueView, Seq<char>>(e@),
            },
    {
        let ghost toks = self@;
        let mut root = Value::Null;
        let mut stack: Vec<Frame> = Vec::new();
        let mut i: usize = 0;
        proof {
            assert(stack.deep_view() =~= Seq::<FrameView>::empty());
        }
        while i < self.tokens.len()
            invariant
                0 <= i <= toks.len(),
                toks == self@,
                toks.len() == self.tokens@.len(),
                spec_run(toks, 0, ValueView::Null, Seq::empty()) == spec_run(
                    toks,
                    i as int,
                    root@,
                    stack.deep_view(),
                ),
            decreases toks.len() - i,
        {
            proof {
                assert(self.tokens@[i as int].deep_view() == toks[i as int]);
            }
            match apply_step(&mut root, &mut stack, &self.tokens[i]) {
                Ok(_) => {
                    i = i + 1;
                },
                Err(e) => {
                    return Err(e);
                },
            }
        }
        while stack.len() > 0
            invariant
                spec_parse(toks) == Ok::<ValueView, Seq<char>>(
                    spec_finish(root@, stack.deep_view()),
                ),
            decreases stack.len(),
        {
            let ghost pre = stack.deep_view();
            let f = stack.pop().unwrap();
            proof {
                assert(stack.deep_view() =~= pre.drop_last());
                assert(f@ == pre.last());
            }
            let v = frame_to_value(f);
            install(&mut root, &mut stack, v);
        }
        Ok(root)
    }
}

} // verus!
