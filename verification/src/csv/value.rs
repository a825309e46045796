//! The typed values of the tabular pipeline — one per field, no
//! nesting — and the typed projections out of them.
use vstd::prelude::*;

use super::token::{Number, NumberView, Token, TokenView};
use crate::{ParsingError, ParsonResult};

verus! {

use vstd::string::StringExecFns;

/// A non-recursive tagged union: one value per field.
#[derive(Debug)]
pub enum Value {
    String(String),
    Number(Number),
    Null,
    Boolean(bool),
}

pub enum ValueView {
    String(Seq<char>),
    Number(NumberView),
    Null,
    Boolean(bool),
}

impl View for Value {
    type V = ValueView;

    open spec fn view(&self) -> ValueView {
        match self {
            Value::String(t) => ValueView::String(t@),
            Value::Number(Number::Int(n)) => ValueView::Number(NumberView::Int(*n)),
            Value::Number(Number::Float(t)) => ValueView::Number(NumberView::Float(t@)),
            Value::Null => ValueView::Null,
            Value::Boolean(b) => ValueView::Boolean(*b),
        }
    }
}

impl DeepView for Value {
    type V = ValueView;

    open spec fn deep_view(&self) -> ValueView {
        self.view()
    }
}

/// Each field token carries over to the value of the same variant.
pub open spec fn spec_value_of(t: TokenView) -> ValueView {
    match t {
        TokenView::String(text) => ValueView::String(text),
        TokenView::Number(n) => ValueView::Number(n),
        TokenView::Null => ValueView::Null,
        TokenView::Boolean(b) => ValueView::Boolean(b),
    }
}

/// Inserting into a row's entries: an existing column keeps its place
/// and takes the new value, a new column is appended.
pub open spec fn spec_insert(
    entries: Seq<(Seq<char>, ValueView)>,
    key: Seq<char>,
    val: ValueView,
) -> Seq<(Seq<char>, ValueView)>
    decreases entries.len(),
{
    if entries.len() == 0 {
        seq![(key, val)]
    } else if entries[0].0 == key {
        seq![(key, val)] + entries.skip(1)
    } else {
        seq![entries[0]] + spec_insert(entries.skip(1), key, val)
    }
}

/// Looking a column up in a row.
pub open spec fn spec_lookup(entries: Seq<(Seq<char>, ValueView)>, key: Seq<char>) -> Option<
    ValueView,
>
    decreases entries.len(),
{
    if entries.len() == 0 {
        None
    } else if entries[0].0 == key {
        Some(entries[0].1)
    } else {
        spec_lookup(entries.skip(1), key)
    }
}

/// One parsed row: an ordered association of column names to values,
/// names unique, last write winning.
#[derive(Debug)]
pub struct Row {
    pub entries: Vec<(String, Value)>,
}

/// The views of a row's entries, elementwise.
pub open spec fn view_row_entries(es: Seq<(String, Value)>) -> Seq<(Seq<char>, ValueView)>
    decreases es,
{
    if es.len() == 0 {
        Seq::empty()
    } else {
        view_row_entries(es.drop_last()).push((es.last().0@, es.last().1@))
    }
}

pub proof fn lemma_view_row_entries(es: Seq<(String, Value)>)
    ensures
        view_row_entries(es).len() == es.len(),
        forall|i: int|
            0 <= i < es.len() ==> #[trigger] view_row_entries(es)[i] == (es[i].0@, es[i].1@),
    decreases es.len(),
{
    if es.len() > 0 {
        lemma_view_row_entries(es.drop_last());
        assert forall|i: int| 0 <= i < es.len() implies #[trigger] view_row_entries(es)[i] == (
            es[i].0@,
            es[i].1@,
        ) by {
            if i < es.len() - 1 {
                assert(es.drop_last()[i] == es[i]);
                assert(view_row_entries(es)[i] == view_row_entries(es.drop_last())[i]);
            } else {
                assert(es.last() == es[es.len() - 1]);
            }
        }
    }
}

impl View for Row {
    type V = Seq<(Seq<char>, ValueView)>;

    open spec fn view(&self) -> Seq<(Seq<char>, ValueView)> {
        view_row_entries(self.entries@)
    }
}

impl DeepView for Row {
    type V = Seq<(Seq<char>, ValueView)>;

    open spec fn deep_view(&self) -> Seq<(Seq<char>, ValueView)> {
        self.view()
    }
}

proof fn lemma_insert_at(entries: Seq<(Seq<char>, ValueView)>, key: Seq<char>, val: ValueView, i: int)
    requires
        0 <= i < entries.len(),
        entries[i].0 == key,
        forall|k: int| 0 <= k < i ==> entries[k].0 != key,
    ensures
        spec_insert(entries, key, val) == entries.update(i, (key, val)),
    decreases i,
{
    if i == 0 {
        assert(seq![(key, val)] + entries.skip(1) =~= entries.update(0, (key, val)));
    } else {
        lemma_insert_at(entries.skip(1), key, val, i - 1);
        assert(entries.skip(1)[i - 1] == entries[i]);
        assert(seq![entries[0]] + entries.skip(1).update(i - 1, (key, val)) =~= entries.update(
            i,
            (key, val),
        ));
    }
}

proof fn lemma_insert_append(entries: Seq<(Seq<char>, ValueView)>, key: Seq<char>, val: ValueView)
    requires
        forall|k: int| 0 <= k < entries.len() ==> entries[k].0 != key,
    ensures
        spec_insert(entries, key, val) == entries.push((key, val)),
    decreases entries.len(),
{
    if entries.len() == 0 {
        assert(spec_insert(entries, key, val) =~= entries.push((key, val)));
    } else {
        lemma_insert_append(entries.skip(1), key, val);
        assert(seq![entries[0]] + entries.skip(1).push((key, val)) =~= entries.push((key, val)));
    }
}

proof fn lemma_lookup_at(entries: Seq<(Seq<char>, ValueView)>, key: Seq<char>, i: int)
    requires
        0 <= i < entries.len(),
        entries[i].0 == key,
        forall|k: int| 0 <= k < i ==> entries[k].0 != key,
    ensures
        spec_lookup(entries, key) == Some(entries[i].1),
    decreases i,
{
    if i > 0 {
        lemma_lookup_at(entries.skip(1), key, i - 1);
        assert(entries.skip(1)[i - 1] == entries[i]);
    }
}

proof fn lemma_lookup_none(entries: Seq<(Seq<char>, ValueView)>, key: Seq<char>)
    requires
        forall|k: int| 0 <= k < entries.len() ==> entries[k].0 != key,
    ensures
        spec_lookup(entries, key) is None,
    decreases entries.len(),
{
    if entries.len() > 0 {
        lemma_lookup_none(entries.skip(1), key);
    }
}

/// Whether all keys in an entry sequence are distinct.
pub open spec fn unique_keys(entries: Seq<(Seq<char>, ValueView)>) -> bool {
    forall|i: int, j: int|
        0 <= i < j < entries.len() ==> (#[trigger] entries[i].0) != (#[trigger] entries[j].0)
}

/// Whether some entry holds the key.
pub open spec fn has_key(entries: Seq<(Seq<char>, ValueView)>, key: Seq<char>) -> bool {
    exists|i: int| 0 <= i < entries.len() && (#[trigger] entries[i].0) == key
}

/// The mapping reading of insertion: looking the inserted column up
/// yields the inserted value, every other column keeps its value, and
/// names stay unique — a row built by insertion is a mapping with
/// unique column names where the last write wins.
pub proof fn lemma_insert_semantics(
    entries: Seq<(Seq<char>, ValueView)>,
    key: Seq<char>,
    val: ValueView,
)
    requires
        unique_keys(entries),
    ensures
        unique_keys(spec_insert(entries, key, val)),
        spec_lookup(spec_insert(entries, key, val), key) == Some(val),
        forall|k2: Seq<char>|
            k2 != key ==> #[trigger] spec_lookup(spec_insert(entries, key, val), k2)
                == spec_lookup(entries, k2),
        forall|k2: Seq<char>|
            #[trigger] has_key(spec_insert(entries, key, val), k2) <==> (has_key(entries, k2) || k2
                == key),
    decreases entries.len(),
{
    let r = spec_insert(entries, key, val);
    if entries.len() == 0 {
        assert(r == seq![(key, val)]);
        assert(r[0] == (key, val));
        assert(r.skip(1) =~= Seq::<(Seq<char>, ValueView)>::empty());
        assert forall|k2: Seq<char>| k2 != key implies #[trigger] spec_lookup(r, k2)
            == spec_lookup(entries, k2) by {
            assert(spec_lookup(r, k2) == spec_lookup(r.skip(1), k2));
        }
        assert forall|k2: Seq<char>| #[trigger] has_key(r, k2) implies (has_key(entries, k2) || k2
            == key) by {
            let i = choose|i: int| 0 <= i < r.len() && r[i].0 == k2;
            assert(i == 0);
        }
        assert(has_key(r, key)) by {
            assert(r[0].0 == key);
        }
    } else if entries[0].0 == key {
        assert(r == seq![(key, val)] + entries.skip(1));
        assert(r[0] == (key, val));
        assert(r.skip(1) =~= entries.skip(1));
        assert forall|i: int, j: int| 0 <= i < j < r.len() implies (#[trigger] r[i].0) != (
        #[trigger] r[j].0) by {
            if i == 0 {
                assert(r[j] == entries[j]);
                assert(entries[0].0 != entries[j].0);
            } else {
                assert(r[i] == entries[i] && r[j] == entries[j]);
            }
        }
        assert forall|k2: Seq<char>| k2 != key implies #[trigger] spec_lookup(r, k2)
            == spec_lookup(entries, k2) by {
            assert(spec_lookup(r, k2) == spec_lookup(r.skip(1), k2));
            assert(spec_lookup(entries, k2) == spec_lookup(entries.skip(1), k2));
        }
        assert forall|k2: Seq<char>| #[trigger] has_key(r, k2) implies (has_key(entries, k2) || k2
            == key) by {
            let i = choose|i: int| 0 <= i < r.len() && r[i].0 == k2;
            if i > 0 {
                assert(entries[i].0 == k2);
            }
        }
        assert forall|k2: Seq<char>| has_key(entries, k2) || k2 == key implies #[trigger] has_key(
            r,
            k2,
        ) by {
            if k2 == key {
                assert(r[0].0 == k2);
            } else {
                let i = choose|i: int| 0 <= i < entries.len() && entries[i].0 == k2;
                assert(i > 0);
                assert(r[i].0 == k2);
            }
        }
    } else {
        assert(unique_keys(entries.skip(1))) by {
            assert(forall|i: int, j: int|
                0 <= i < j < entries.skip(1).len() ==> (#[trigger] entries.skip(1)[i].0) != (
                #[trigger] entries.skip(1)[j].0)) by {
                assert(forall|i: int|
                    0 <= i < entries.skip(1).len() ==> #[trigger] entries.skip(1)[i]
                        == entries[i + 1]);
            }
        }
        lemma_insert_semantics(entries.skip(1), key, val);
        let rt = spec_insert(entries.skip(1), key, val);
        assert(r == seq![entries[0]] + rt);
        assert(r[0] == entries[0]);
        assert(r.skip(1) =~= rt);
        assert forall|i: int, j: int| 0 <= i < j < r.len() implies (#[trigger] r[i].0) != (
        #[trigger] r[j].0) by {
            if i == 0 {
                assert(rt[j - 1].0 == r[j].0);
                assert(has_key(rt, r[j].0)) by {
                    assert(rt[j - 1].0 == r[j].0);
                }
                if r[j].0 == entries[0].0 {
                    assert(has_key(entries.skip(1), entries[0].0) || entries[0].0 == key);
                    if has_key(entries.skip(1), entries[0].0) {
                        let w = choose|w: int|
                            0 <= w < entries.skip(1).len() && entries.skip(1)[w].0 == entries[0].0;
                        assert(entries[w + 1].0 == entries[0].0);
                        assert(false);
                    } else {
                        assert(false);
                    }
                }
            } else {
                assert(r[i] == rt[i - 1] && r[j] == rt[j - 1]);
            }
        }
        assert(spec_lookup(r, key) == spec_lookup(rt, key));
        assert forall|k2: Seq<char>| k2 != key implies #[trigger] spec_lookup(r, k2)
            == spec_lookup(entries, k2) by {
            if k2 == entries[0].0 {
                assert(spec_lookup(r, k2) == Some(r[0].1));
                assert(spec_lookup(entries, k2) == Some(entries[0].1));
            } else {
                assert(spec_lookup(r, k2) == spec_lookup(rt, k2));
                assert(spec_lookup(entries, k2) == spec_lookup(entries.skip(1), k2));
            }
        }
        assert forall|k2: Seq<char>| #[trigger] has_key(r, k2) implies (has_key(entries, k2) || k2
            == key) by {
            let i = choose|i: int| 0 <= i < r.len() && r[i].0 == k2;
            if i == 0 {
                assert(entries[0].0 == k2);
            } else {
                assert(rt[i - 1].0 == k2);
                assert(has_key(rt, k2));
                if has_key(entries.skip(1), k2) {
                    let w = choose|w: int|
                        0 <= w < entries.skip(1).len() && entries.skip(1)[w].0 == k2;
                    assert(entries[w + 1].0 == k2);
                }
            }
        }
        assert forall|k2: Seq<char>| has_key(entries, k2) || k2 == key implies #[trigger] has_key(
            r,
            k2,
        ) by {
            if k2 == key {
                assert(has_key(rt, k2));
                let w = choose|w: int| 0 <= w < rt.len() && rt[w].0 == k2;
                assert(r[w + 1].0 == k2);
            } else {
                let i = choose|i: int| 0 <= i < entries.len() && entries[i].0 == k2;
                if i == 0 {
                    assert(r[0].0 == k2);
                } else {
                    assert(entries.skip(1)[i - 1].0 == k2);
                    assert(has_key(entries.skip(1), k2));
                    assert(has_key(rt, k2));
                    let w = choose|w: int| 0 <= w < rt.len() && rt[w].0 == k2;
                    assert(r[w + 1].0 == k2);
                }
            }
        }
    }
}

impl Row {
    pub fn new() -> (r: Row)
        ensures
            r@ == Seq::<(Seq<char>, ValueView)>::empty(),
    {
        let r = Row { entries: Vec::new() };
        proof {
            assert(r@ =~= Seq::<(Seq<char>, ValueView)>::empty());
        }
        r
    }

    pub fn len(&self) -> (n: usize)
        ensures
            n == self@.len(),
    {
        proof {
            lemma_view_row_entries(self.entries@);
        }
        self.entries.len()
    }

    /// The entry at a position, in insertion order.
    pub fn entry_at(&self, i: usize) -> (r: (&String, &Value))
        requires
            i < self@.len(),
        ensures
            (r.0@, r.1@) == self@[i as int],
    {
        proof {
            lemma_view_row_entries(self.entries@);
        }
        (&self.entries[i].0, &self.entries[i].1)
    }

    /// Inserts a column's value, overwriting in place when the column
    /// already exists.
    pub fn insert(&mut self, key: String, val: Value)
        ensures
            final(self)@ == spec_insert(old(self)@, key@, val@),
    {
        proof {
            lemma_view_row_entries(self.entries@);
        }
        let ghost orig = self@;
        let n = self.entries.len();
        let mut i: usize = 0;
        while i < n
            invariant
                0 <= i <= n,
                n == self.entries@.len(),
                self@ == orig,
                orig == old(self)@,
                orig == view_row_entries(self.entries@),
                orig.len() == n,
                forall|k: int|
                    0 <= k < n ==> #[trigger] orig[k] == (
                        self.entries@[k].0@,
                        self.entries@[k].1@,
                    ),
                forall|k: int| 0 <= k < i ==> #[trigger] orig[k].0 != key@,
            decreases n - i,
        {
            let hit = crate::text::str_eq(self.entries[i].0.as_str(), key.as_str());
            if hit {
                proof {
                    lemma_insert_at(orig, key@, val@, i as int);
                }
                let ghost pre = self.entries@;
                self.entries.set(i, (key, val));
                proof {
                    lemma_view_row_entries(self.entries@);
                    assert(self.entries@ == pre.update(i as int, (key, val)));
                    assert forall|k: int| 0 <= k < n implies #[trigger] self@[k] == orig.update(
                        i as int,
                        (key@, val@),
                    )[k] by {
                        if k != i {
                            assert(self.entries@[k] == pre[k]);
                        }
                    }
                    assert(self@ =~= orig.update(i as int, (key@, val@)));
                }
                return ;
            }
            i = i + 1;
        }
        proof {
            lemma_insert_append(orig, key@, val@);
        }
        let ghost pre = self.entries@;
        self.entries.push((key, val));
        proof {
            lemma_view_row_entries(self.entries@);
            assert(self.entries@ == pre.push((key, val)));
            assert forall|k: int| 0 <= k < n + 1 implies #[trigger] self@[k] == orig.push(
                (key@, val@),
            )[k] by {
                if k < n {
                    assert(self.entries@[k] == pre[k]);
                }
            }
            assert(self@ =~= orig.push((key@, val@)));
        }
    }

    /// Looks a column up.
    pub fn get(&self, key: &str) -> (r: Option<&Value>)
        ensures
            match r {
                Some(v) => spec_lookup(self@, key@) == Some(v@),
                None => spec_lookup(self@, key@) is None,
            },
    {
        proof {
            lemma_view_row_entries(self.entries@);
        }
        let n = self.entries.len();
        let mut i: usize = 0;
        while i < n
            invariant
                0 <= i <= n,
                n == self.entries@.len(),
                self@.len() == n,
                forall|k: int|
                    0 <= k < n ==> #[trigger] self@[k] == (
                        self.entries@[k].0@,
                        self.entries@[k].1@,
                    ),
                forall|k: int| 0 <= k < i ==> #[trigger] self@[k].0 != key@,
            decreases n - i,
        {
            let hit = crate::text::str_eq(self.entries[i].0.as_str(), key);
            if hit {
                proof {
                    lemma_lookup_at(self@, key@, i as int);
                }
                return Some(&self.entries[i].1);
            }
            i = i + 1;
        }
        proof {
            lemma_lookup_none(self@, key@);
        }
        None
    }
}

/// The name of a value's variant, for error messages.
pub open spec fn spec_kind_name(v: ValueView) -> Seq<char> {
    match v {
        ValueView::String(_) => "String"@,
        ValueView::Number(_) => "Number"@,
        ValueView::Null => "Null"@,
        ValueView::Boolean(_) => "Boolean"@,
    }
}

pub open spec fn mismatch_msg(v: ValueView, target: Seq<char>) -> Seq<char> {
    "value "@ + spec_kind_name(v) + " is not "@ + target
}

impl Value {
    /// Each token carries over to the value of the same variant.
    pub fn from_token(t: &Token) -> (v: Value)
        ensures
            v@ == spec_value_of(t@),
    {
        match t {
            Token::String(text) => Value::String(text.clone()),
            Token::Number(Number::Int(n)) => Value::Number(Number::Int(*n)),
            Token::Number(Number::Float(text)) => Value::Number(Number::Float(text.clone())),
            Token::Null => Value::Null,
            Token::Boolean(b) => Value::Boolean(*b),
        }
    }

    fn kind_name(&self) -> (r: &'static str)
        ensures
            r@ == spec_kind_name(self@),
    {
        match self {
            Value::String(_) => "String",
            Value::Number(_) => "Number",
            Value::Null => "Null",
            Value::Boolean(_) => "Boolean",
        }
    }

    fn mismatch_err(&self, target: &str) -> (e: ParsingError)
        ensures
            e@ == mismatch_msg(self@, target@),
    {
        let mut msg = String::from_str("value ");
        msg.append(self.kind_name());
        msg.append(" is not ");
        msg.append(target);
        ParsingError { message: msg }
    }

    /// Projects a string value; any other variant is a type mismatch.
    pub fn try_into_string(self) -> (r: ParsonResult<String>)
        ensures
            match r {
                Ok(t) => self@ is String && t@ == self@->String_0,
                Err(e) => !(self@ is String) && e@ == mismatch_msg(self@, "a string"@),
            },
    {
        match self {
            Value::String(text) => Ok(text),
            _ => Err(self.mismatch_err("a string")),
        }
    }

    /// Projects an integer-subtype number; any other variant — the
    /// float subtype included — is a type mismatch.
    pub fn try_into_integer(self) -> (r: ParsonResult<i64>)
        ensures
            match r {
                Ok(n) => self@ == ValueView::Number(NumberView::Int(n)),
                Err(e) => (forall|n: i64| self@ != ValueView::Number(NumberView::Int(n))) && e@
                    == mismatch_msg(self@, "an integer"@),
            },
    {
        match self {
            Value::Number(Number::Int(n)) => Ok(n),
            _ => Err(self.mismatch_err("an integer")),
        }
    }

    /// Projects a float-subtype number's literal text; any other
    /// variant — the integer subtype included — is a type mismatch.
    pub fn try_into_float(self) -> (r: ParsonResult<String>)
        ensures
            match r {
                Ok(t) => self@ == ValueView::Number(NumberView::Float(t@)),
                Err(e) => (forall|t: Seq<char>|
                    self@ != ValueView::Number(NumberView::Float(t))) && e@ == mismatch_msg(
                    self@,
                    "a float"@,
                ),
            },
    {
        match self {
            Value::Number(Number::Float(text)) => Ok(text),
            _ => Err(self.mismatch_err("a float")),
        }
    }

    /// Projects a boolean value; any other variant is a type mismatch.
    pub fn try_into_boolean(self) -> (r: ParsonResult<bool>)
        ensures
            match r {
                Ok(b) => self@ is Boolean && b == self@->Boolean_0,
                Err(e) => !(self@ is Boolean) && e@ == mismatch_msg(self@, "a boolean"@),
            },
    {
        match self {
            Value::Boolean(b) => Ok(b),
            _ => Err(self.mismatch_err("a boolean")),
        }
    }
}

impl Token {
    /// The header extraction: a string token's text, or the mismatch
    /// error naming the token's variant.
    pub fn try_into_string(&self) -> (r: ParsonResult<String>)
        ensures
            match r {
                Ok(t) => self@ is String && t@ == self@->String_0,
                Err(e) => !(self@ is String) && e@ == "token "@ + token_kind_name(self@)
                    + " is not a string and it should be"@,
            },
    {
        match self {
            Token::String(text) => Ok(text.clone()),
            _ => {
                let mut msg = String::from_str("token ");
                msg.append(self.kind_name());
                msg.append(" is not a string and it should be");
                Err(ParsingError { message: msg })
            },
        }
    }

    fn kind_name(&self) -> (r: &'static str)
        ensures
            r@ == token_kind_name(self@),
    {
        match self {
            Token::String(_) => "String",
            Token::Number(_) => "Number",
            Token::Null => "Null",
            Token::Boolean(_) => "Boolean",
        }
    }
}

/// The name of a token's variant, for error messages.
pub open spec fn token_kind_name(t: TokenView) -> Seq<char> {
    match t {
        TokenView::String(_) => "String"@,
        TokenView::Number(_) => "Number"@,
        TokenView::Null => "Null"@,
        TokenView::Boolean(_) => "Boolean"@,
    }
}

} // verus!
