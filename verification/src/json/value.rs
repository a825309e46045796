//! The typed value tree of the JSON-like pipeline, and the typed
//! projections out of it.
use vstd::prelude::*;

use super::token::Number;
use crate::number;
use crate::{ParsingError, ParsonResult};

verus! {

use vstd::string::StringExecFns;

/// A recursive tagged union: scalars, objects and arrays.  An object
/// keeps its entries in insertion order with unique keys; inserting an
/// existing key overwrites its value in place.
#[derive(Debug)]
pub enum Value {
    String(String),
    Number(Number),
    Object(Object),
    Null,
    Boolean(bool),
    Array(Vec<Value>),
}

/// An object: an ordered association of string keys to values, keys
/// unique, last write winning.
#[derive(Debug)]
pub struct Object {
    pub entries: Vec<(String, Value)>,
}

/// The mathematical shadow of [`Value`]: objects as key/value entry
/// sequences, numbers as their literal text.
pub enum ValueView {
    String(Seq<char>),
    Number(Seq<char>),
    Object(Seq<(Seq<char>, ValueView)>),
    Null,
    Boolean(bool),
    Array(Seq<ValueView>),
}

impl View for Value {
    type V = ValueView;

    open spec fn view(&self) -> ValueView
        decreases self,
    {
        match self {
            Value::String(t) => ValueView::String(t@),
            Value::Number(Number::Float(t)) => ValueView::Number(t@),
            Value::Object(o) => ValueView::Object(view_entries(o.entries@)),
            Value::Null => ValueView::Null,
            Value::Boolean(b) => ValueView::Boolean(*b),
            Value::Array(a) => ValueView::Array(view_list(a@)),
        }
    }
}

/// The views of a value sequence, elementwise.
pub open spec fn view_list(a: Seq<Value>) -> Seq<ValueView>
    decreases a,
{
    if a.len() == 0 {
        Seq::empty()
    } else {
        view_list(a.drop_last()).push(a.last()@)
    }
}

/// The views of an entry sequence, elementwise.
pub open spec fn view_entries(es: Seq<(String, Value)>) -> Seq<(Seq<char>, ValueView)>
    decreases es,
{
    if es.len() == 0 {
        Seq::empty()
    } else {
        view_entries(es.drop_last()).push((es.last().0@, es.last().1@))
    }
}

pub proof fn lemma_view_list(a: Seq<Value>)
    ensures
        view_list(a).len() == a.len(),
        forall|i: int| 0 <= i < a.len() ==> #[trigger] view_list(a)[i] == a[i]@,
    decreases a.len(),
{
    if a.len() > 0 {
        lemma_view_list(a.drop_last());
        assert(view_list(a) == view_list(a.drop_last()).push(a.last()@));
        assert forall|i: int| 0 <= i < a.len() implies #[trigger] view_list(a)[i] == a[i]@ by {
            if i < a.len() - 1 {
                assert(a.drop_last()[i] == a[i]);
                assert(view_list(a)[i] == view_list(a.drop_last())[i]);
            } else {
                assert(a.last() == a[a.len() - 1]);
            }
        }
    }
}

pub proof fn lemma_view_entries(es: Seq<(String, Value)>)
    ensures
        view_entries(es).len() == es.len(),
        forall|i: int|
            0 <= i < es.len() ==> #[trigger] view_entries(es)[i] == (es[i].0@, es[i].1@),
    decreases es.len(),
{
    if es.len() > 0 {
        lemma_view_entries(es.drop_last());
        assert(view_entries(es) == view_entries(es.drop_last()).push(
            (es.last().0@, es.last().1@),
        ));
        assert forall|i: int| 0 <= i < es.len() implies #[trigger] view_entries(es)[i] == (
            es[i].0@,
            es[i].1@,
        ) by {
            if i < es.len() - 1 {
                assert(es.drop_last()[i] == es[i]);
                assert(view_entries(es)[i] == view_entries(es.drop_last())[i]);
            } else {
                assert(es.last() == es[es.len() - 1]);
            }
        }
    }
}

impl DeepView for Value {
    type V = ValueView;

    open spec fn deep_view(&self) -> ValueView {
        self.view()
    }
}

impl View for Object {
    type V = Seq<(Seq<char>, ValueView)>;

    open spec fn view(&self) -> Seq<(Seq<char>, ValueView)> {
        view_entries(self.entries@)
    }
}

/// Inserting into an entry sequence: an existing key is overwritten in
/// place, a new key is appended.
pub open spec fn spec_insert(
    entries: Seq<(Seq<char>, ValueView)>,
    key: Seq<char>,
    val: ValueView,
) -> Seq<(Seq<char>, ValueView)>
    decreases entries.len(),
{
    if entries.len() == 0 {
        seq![(key, val)]
    } else if entries[0].0 == key {
        seq![(key, val)] + entries.skip(1)
    } else {
        seq![entries[0]] + spec_insert(entries.skip(1), key, val)
    }
}

/// Looking a key up in an entry sequence.
pub open spec fn spec_lookup(entries: Seq<(Seq<char>, ValueView)>, key: Seq<char>) -> Option<
    ValueView,
>
    decreases entries.len(),
{
    if entries.len() == 0 {
        None
    } else if entries[0].0 == key {
        Some(entries[0].1)
    } else {
        spec_lookup(entries.skip(1), key)
    }
}

/// Whether all keys in an entry sequence are distinct.
pub open spec fn unique_keys(entries: Seq<(Seq<char>, ValueView)>) -> bool {
    forall|i: int, j: int|
        0 <= i < j < entries.len() ==> (#[trigger] entries[i].0) != (#[trigger] entries[j].0)
}

/// Whether some entry holds the key.
pub open spec fn has_key(entries: Seq<(Seq<char>, ValueView)>, key: Seq<char>) -> bool {
    exists|i: int| 0 <= i < entries.len() && (#[trigger] entries[i].0) == key
}

/// Every entry after an insertion is the inserted pair or one of the
/// entries already present.
pub proof fn lemma_insert_elements(
    entries: Seq<(Seq<char>, ValueView)>,
    key: Seq<char>,
    val: ValueView,
)
    ensures
        forall|i: int|
            0 <= i < spec_insert(entries, key, val).len() ==> (#[trigger] spec_insert(
                entries,
                key,
                val,
            )[i]) == (key, val) || (exists|j: int|
                0 <= j < entries.len() && entries[j] == spec_insert(entries, key, val)[i]),
    decreases entries.len(),
{
    let r = spec_insert(entries, key, val);
    if entries.len() == 0 {
        assert(r[0] == (key, val));
    } else if entries[0].0 == key {
        assert forall|i: int| 0 <= i < r.len() implies (#[trigger] r[i]) == (key, val) || (
        exists|j: int| 0 <= j < entries.len() && entries[j] == r[i]) by {
            if i > 0 {
                assert(r[i] == entries[i]);
            }
        }
    } else {
        lemma_insert_elements(entries.skip(1), key, val);
        let rt = spec_insert(entries.skip(1), key, val);
        assert forall|i: int| 0 <= i < r.len() implies (#[trigger] r[i]) == (key, val) || (
        exists|j: int| 0 <= j < entries.len() && entries[j] == r[i]) by {
            if i == 0 {
                assert(r[0] == entries[0]);
            } else {
                assert(r[i] == rt[i - 1]);
                if rt[i - 1] != (key, val) {
                    let j = choose|j: int|
                        0 <= j < entries.skip(1).len() && entries.skip(1)[j] == rt[i - 1];
                    assert(entries[j + 1] == r[i]);
                }
            }
        }
    }
}

/// The mapping reading of insertion: looking the inserted key up
/// yields the inserted value, every other key keeps its value, and
/// keys stay unique — an object built by insertion is a mapping with
/// unique keys where the last write wins.
pub proof fn lemma_insert_semantics(
    entries: Seq<(Seq<char>, ValueView)>,
    key: Seq<char>,
    val: ValueView,
)
    requires
        unique_keys(entries),
    ensures
        unique_keys(spec_insert(entries, key, val)),
        spec_lookup(spec_insert(entries, key, val), key) == Some(val),
        forall|k2: Seq<char>|
            k2 != key ==> #[trigger] spec_lookup(spec_insert(entries, key, val), k2)
                == spec_lookup(entries, k2),
        forall|k2: Seq<char>|
            #[trigger] has_key(spec_insert(entries, key, val), k2) <==> (has_key(entries, k2) || k2
                == key),
    decreases entries.len(),
{
    let r = spec_insert(entries, key, val);
    if entries.len() == 0 {
        assert(r == seq![(key, val)]);
        assert(r[0] == (key, val));
        assert(r.skip(1) =~= Seq::<(Seq<char>, ValueView)>::empty());
        assert forall|k2: Seq<char>| k2 != key implies #[trigger] spec_lookup(r, k2)
            == spec_lookup(entries, k2) by {
            assert(spec_lookup(r, k2) == spec_lookup(r.skip(1), k2));
        }
        assert forall|k2: Seq<char>| #[trigger] has_key(r, k2) implies (has_key(entries, k2) || k2
            == key) by {
            let i = choose|i: int| 0 <= i < r.len() && r[i].0 == k2;
            assert(i == 0);
        }
        assert(has_key(r, key)) by {
            assert(r[0].0 == key);
        }
    } else if entries[0].0 == key {
        assert(r == seq![(key, val)] + entries.skip(1));
        assert(r[0] == (key, val));
        assert(r.skip(1) =~= entries.skip(1));
        assert forall|i: int, j: int| 0 <= i < j < r.len() implies (#[trigger] r[i].0) != (
        #[trigger] r[j].0) by {
            if i == 0 {
                assert(r[j] == entries[j]);
                assert(entries[0].0 != entries[j].0);
            } else {
                assert(r[i] == entries[i] && r[j] == entries[j]);
            }
        }
        assert forall|k2: Seq<char>| k2 != key implies #[trigger] spec_lookup(r, k2)
            == spec_lookup(entries, k2) by {
            assert(spec_lookup(r, k2) == spec_lookup(r.skip(1), k2));
            assert(spec_lookup(entries, k2) == spec_lookup(entries.skip(1), k2));
        }
        assert forall|k2: Seq<char>| #[trigger] has_key(r, k2) implies (has_key(entries, k2) || k2
            == key) by {
            let i = choose|i: int| 0 <= i < r.len() && r[i].0 == k2;
            if i > 0 {
                assert(entries[i].0 == k2);
            }
        }
        assert forall|k2: Seq<char>| has_key(entries, k2) || k2 == key implies #[trigger] has_key(
            r,
            k2,
        ) by {
            if k2 == key {
                assert(r[0].0 == k2);
            } else {
                let i = choose|i: int| 0 <= i < entries.len() && entries[i].0 == k2;
                assert(i > 0);
                assert(r[i].0 == k2);
            }
        }
    } else {
        assert(unique_keys(entries.skip(1))) by {
            assert(forall|i: int, j: int|
                0 <= i < j < entries.skip(1).len() ==> (#[trigger] entries.skip(1)[i].0) != (
                #[trigger] entries.skip(1)[j].0)) by {
                assert(forall|i: int|
                    0 <= i < entries.skip(1).len() ==> #[trigger] entries.skip(1)[i]
                        == entries[i + 1]);
            }
        }
        lemma_insert_semantics(entries.skip(1), key, val);
        let rt = spec_insert(entries.skip(1), key, val);
        assert(r == seq![entries[0]] + rt);
        assert(r[0] == entries[0]);
        assert(r.skip(1) =~= rt);
        assert forall|i: int, j: int| 0 <= i < j < r.len() implies (#[trigger] r[i].0) != (
        #[trigger] r[j].0) by {
            if i == 0 {
                assert(rt[j - 1].0 == r[j].0);
                assert(has_key(rt, r[j].0)) by {
                    assert(rt[j - 1].0 == r[j].0);
                }
                if r[j].0 == entries[0].0 {
                    assert(has_key(entries.skip(1), entries[0].0) || entries[0].0 == key);
                    if has_key(entries.skip(1), entries[0].0) {
                        let w = choose|w: int|
                            0 <= w < entries.skip(1).len() && entries.skip(1)[w].0 == entries[0].0;
                        assert(entries[w + 1].0 == entries[0].0);
                        assert(false);
                    } else {
                        assert(false);
                    }
                }
            } else {
                assert(r[i] == rt[i - 1] && r[j] == rt[j - 1]);
            }
        }
        assert(spec_lookup(r, key) == spec_lookup(rt, key));
        assert forall|k2: Seq<char>| k2 != key implies #[trigger] spec_lookup(r, k2)
            == spec_lookup(entries, k2) by {
            if k2 == entries[0].0 {
                assert(spec_lookup(r, k2) == Some(r[0].1));
                assert(spec_lookup(entries, k2) == Some(entries[0].1));
            } else {
                assert(spec_lookup(r, k2) == spec_lookup(rt, k2));
                assert(spec_lookup(entries, k2) == spec_lookup(entries.skip(1), k2));
            }
        }
        assert forall|k2: Seq<char>| #[trigger] has_key(r, k2) implies (has_key(entries, k2) || k2
            == key) by {
            let i = choose|i: int| 0 <= i < r.len() && r[i].0 == k2;
            if i == 0 {
                assert(entries[0].0 == k2);
            } else {
                assert(rt[i - 1].0 == k2);
                assert(has_key(rt, k2));
                if has_key(entries.skip(1), k2) {
                    let w = choose|w: int|
                        0 <= w < entries.skip(1).len() && entries.skip(1)[w].0 == k2;
                    assert(entries[w + 1].0 == k2);
                }
            }
        }
        assert forall|k2: Seq<char>| has_key(entries, k2) || k2 == key implies #[trigger] has_key(
            r,
            k2,
        ) by {
            if k2 == key {
                assert(has_key(rt, k2));
                let w = choose|w: int| 0 <= w < rt.len() && rt[w].0 == k2;
                assert(r[w + 1].0 == k2);
            } else {
                let i = choose|i: int| 0 <= i < entries.len() && entries[i].0 == k2;
                if i == 0 {
                    assert(r[0].0 == k2);
                } else {
                    assert(entries.skip(1)[i - 1].0 == k2);
                    assert(has_key(entries.skip(1), k2));
                    assert(has_key(rt, k2));
                    let w = choose|w: int| 0 <= w < rt.len() && rt[w].0 == k2;
                    assert(r[w + 1].0 == k2);
                }
            }
        }
    }
}

impl Object {
    pub fn new() -> (o: Object)
        ensures
            o@ == Seq::<(Seq<char>, ValueView)>::empty(),
    {
        let o = Object { entries: Vec::new() };
        proof {
            assert(o@ =~= Seq::<(Seq<char>, ValueView)>::empty());
        }
        o
    }

    pub fn len(&self) -> (n: usize)
        ensures
            n == self@.len(),
    {
        proof {
            lemma_view_entries(self.entries@);
        }
        self.entries.len()
    }

    /// The entry at a position, in insertion order.
    pub fn entry_at(&self, i: usize) -> (r: (&String, &Value))
        requires
            i < self@.len(),
        ensures
            (r.0@, r.1@) == self@[i as int],
    {
        proof {
            lemma_view_entries(self.entries@);
        }
        (&self.entries[i].0, &self.entries[i].1)
    }

    /// Inserts a key/value pair, overwriting the value in place when
    /// the key already exists.
    pub fn insert(&mut self, key: String, val: Value)
        ensures
            final(self)@ == spec_insert(old(self)@, key@, val@),
    {
        proof {
            lemma_view_entries(self.entries@);
        }
        let ghost orig = self@;
        let n = self.entries.len();
        let mut i: usize = 0;
        while i < n
            invariant
                0 <= i <= n,
                n == self.entries@.len(),
                self@ == orig,
                orig == old(self)@,
                orig == view_entries(self.entries@),
                orig.len() == n,
                forall|k: int| 0 <= k < n ==> #[trigger] orig[k] == (self.entries@[k].0@, self.entries@[k].1@),
                forall|k: int| 0 <= k < i ==> #[trigger] orig[k].0 != key@,
            decreases n - i,
        {
            let hit = crate::text::str_eq(self.entries[i].0.as_str(), key.as_str());
            if hit {
                proof {
                    lemma_insert_at(orig, key@, val@, i as int);
                }
                let ghost pre = self.entries@;
                self.entries.set(i, (key, val));
                proof {
                    lemma_view_entries(self.entries@);
                    assert(self.entries@ == pre.update(i as int, (key, val)));
                    assert forall|k: int| 0 <= k < n implies #[trigger] self@[k] == orig.update(
                        i as int,
                        (key@, val@),
                    )[k] by {
                        if k != i {
                            assert(self.entries@[k] == pre[k]);
                        }
                    }
                    assert(self@ =~= orig.update(i as int, (key@, val@)));
                }
                return ;
            }
            i = i + 1;
        }
        proof {
            lemma_insert_append(orig, key@, val@);
        }
        let ghost pre = self.entries@;
        self.entries.push((key, val));
        proof {
            lemma_view_entries(self.entries@);
            assert(self.entries@ == pre.push((key, val)));
            assert forall|k: int| 0 <= k < n + 1 implies #[trigger] self@[k] == orig.push(
                (key@, val@),
            )[k] by {
                if k < n {
                    assert(self.entries@[k] == pre[k]);
                }
            }
            assert(self@ =~= orig.push((key@, val@)));
        }
    }

    /// Looks a key up.
    pub fn get(&self, key: &str) -> (r: Option<&Value>)
        ensures
            match r {
                Some(v) => spec_lookup(self@, key@) == Some(v@),
                None => spec_lookup(self@, key@) is None,
            },
    {
        proof {
            lemma_view_entries(self.entries@);
        }
        let n = self.entries.len();
        let mut i: usize = 0;
        while i < n
            invariant
                0 <= i <= n,
                n == self.entries@.len(),
                self@.len() == n,
                forall|k: int| 0 <= k < n ==> #[trigger] self@[k] == (self.entries@[k].0@, self.entries@[k].1@),
                forall|k: int| 0 <= k < i ==> #[trigger] self@[k].0 != key@,
            decreases n - i,
        {
            let hit = crate::text::str_eq(self.entries[i].0.as_str(), key);
            if hit {
                proof {
                    lemma_lookup_at(self@, key@, i as int);
                }
                return Some(&self.entries[i].1);
            }
            i = i + 1;
        }
        proof {
            lemma_lookup_none(self@, key@);
        }
        None
    }
}

proof fn lemma_insert_at(entries: Seq<(Seq<char>, ValueView)>, key: Seq<char>, val: ValueView, i: int)
    requires
        0 <= i < entries.len(),
        entries[i].0 == key,
        forall|k: int| 0 <= k < i ==> entries[k].0 != key,
    ensures
        spec_insert(entries, key, val) == entries.update(i, (key, val)),
    decreases i,
{
    if i == 0 {
        assert(spec_insert(entries, key, val) == seq![(key, val)] + entries.skip(1));
        assert(seq![(key, val)] + entries.skip(1) =~= entries.update(0, (key, val)));
    } else {
        assert(entries[0].0 != key);
        lemma_insert_at(entries.skip(1), key, val, i - 1);
        assert(entries.skip(1)[i - 1] == entries[i]);
        assert(spec_insert(entries, key, val) == seq![entries[0]] + spec_insert(
            entries.skip(1),
            key,
            val,
        ));
        assert(seq![entries[0]] + entries.skip(1).update(i - 1, (key, val)) =~= entries.update(
            i,
            (key, val),
        ));
    }
}

pub proof fn lemma_insert_append(entries: Seq<(Seq<char>, ValueView)>, key: Seq<char>, val: ValueView)
    requires
        forall|k: int| 0 <= k < entries.len() ==> entries[k].0 != key,
    ensures
        spec_insert(entries, key, val) == entries.push((key, val)),
    decreases entries.len(),
{
    if entries.len() == 0 {
        assert(spec_insert(entries, key, val) =~= entries.push((key, val)));
    } else {
        lemma_insert_append(entries.skip(1), key, val);
        assert(seq![entries[0]] + entries.skip(1).push((key, val)) =~= entries.push((key, val)));
    }
}

proof fn lemma_lookup_at(entries: Seq<(Seq<char>, ValueView)>, key: Seq<char>, i: int)
    requires
        0 <= i < entries.len(),
        entries[i].0 == key,
        forall|k: int| 0 <= k < i ==> entries[k].0 != key,
    ensures
        spec_lookup(entries, key) == Some(entries[i].1),
    decreases i,
{
    if i > 0 {
        lemma_lookup_at(entries.skip(1), key, i - 1);
        assert(entries.skip(1)[i - 1] == entries[i]);
    }
}

proof fn lemma_lookup_none(entries: Seq<(Seq<char>, ValueView)>, key: Seq<char>)
    requires
        forall|k: int| 0 <= k < entries.len() ==> entries[k].0 != key,
    ensures
        spec_lookup(entries, key) is None,
    decreases entries.len(),
{
    if entries.len() > 0 {
        lemma_lookup_none(entries.skip(1), key);
    }
}

/// The name of a value's variant, for error messages.
pub open spec fn spec_kind_name(v: ValueView) -> Seq<char> {
    match v {
        ValueView::String(_) => "String"@,
        ValueView::Number(_) => "Number"@,
        ValueView::Object(_) => "Object"@,
        ValueView::Null => "Null"@,
        ValueView::Boolean(_) => "Boolean"@,
        ValueView::Array(_) => "Array"@,
    }
}

pub open spec fn convert_err_msg(v: ValueView, target: Seq<char>) -> Seq<char> {
    "Cannot convert "@ + spec_kind_name(v) + " to "@ + target
}

impl Value {
    fn kind_name(&self) -> (r: &'static str)
        ensures
            r@ == spec_kind_name(self@),
    {
        match self {
            Value::String(_) => "String",
            Value::Number(_) => "Number",
            Value::Object(_) => "Object",
            Value::Null => "Null",
            Value::Boolean(_) => "Boolean",
            Value::Array(_) => "Array",
        }
    }

    fn convert_err(&self, target: &str) -> (e: ParsingError)
        ensures
            e@ == convert_err_msg(self@, target@),
    {
        let mut msg = String::from_str("Cannot convert ");
        msg.append(self.kind_name());
        msg.append(" to ");
        msg.append(target);
        ParsingError { message: msg }
    }

    /// Projects the signed 64-bit truncation of a numeric value; any
    /// other variant is a type mismatch.
    pub fn try_into_integer(self) -> (r: ParsonResult<i64>)
        ensures
            match r {
                Ok(n) => self@ is Number && n as int == number::literal_trunc_i64(
                    self@->Number_0,
                ) && number::is_number_literal(self@->Number_0),
                Err(e) => !(self@ is Number && number::is_number_literal(self@->Number_0)) && e@
                    == convert_err_msg(self@, "integer"@),
            },
    {
        match &self {
            Value::Number(Number::Float(text)) => {
                let chars = crate::text::chars_of_str(text.as_str());
                match number::analyze_number(&chars) {
                    Some(ev) => Ok(ev.trunc),
                    None => Err(self.convert_err("integer")),
                }
            },
            _ => Err(self.convert_err("integer")),
        }
    }

    /// Projects the literal text of a numeric value; any other variant
    /// is a type mismatch.
    pub fn try_into_float(self) -> (r: ParsonResult<String>)
        ensures
            match r {
                Ok(t) => self@ is Number && t@ == self@->Number_0,
                Err(e) => !(self@ is Number) && e@ == convert_err_msg(self@, "float"@),
            },
    {
        match self {
            Value::Number(Number::Float(text)) => Ok(text),
            _ => Err(self.convert_err("float")),
        }
    }

    /// Projects a string value; any other variant is a type mismatch.
    pub fn try_into_string(self) -> (r: ParsonResult<String>)
        ensures
            match r {
                Ok(t) => self@ is String && t@ == self@->String_0,
                Err(e) => !(self@ is String) && e@ == convert_err_msg(self@, "String"@),
            },
    {
        match self {
            Value::String(text) => Ok(text),
            _ => Err(self.convert_err("String")),
        }
    }

    /// Projects a boolean value; any other variant is a type mismatch.
    pub fn try_into_boolean(self) -> (r: ParsonResult<bool>)
        ensures
            match r {
                Ok(b) => self@ is Boolean && b == self@->Boolean_0,
                Err(e) => !(self@ is Boolean) && e@ == convert_err_msg(self@, "boolean"@),
            },
    {
        match self {
            Value::Boolean(b) => Ok(b),
            _ => Err(self.convert_err("boolean")),
        }
    }

    /// Projects an object value; any other variant is a type mismatch.
    pub fn try_into_object(self) -> (r: ParsonResult<Object>)
        ensures
            match r {
                Ok(o) => self@ is Object && o@ == self@->Object_0,
                Err(e) => !(self@ is Object) && e@ == convert_err_msg(self@, "object"@),
            },
    {
        match self {
            Value::Object(o) => Ok(o),
            _ => Err(self.convert_err("object")),
        }
    }

    /// Projects an array value; any other variant is a type mismatch.
    pub fn try_into_array(self) -> (r: ParsonResult<Vec<Value>>)
        ensures
            match r {
                Ok(a) => self@ is Array && a.deep_view() == self@->Array_0,
                Err(e) => !(self@ is Array) && e@ == convert_err_msg(self@, "array"@),
            },
    {
        match self {
            Value::Array(a) => {
                proof {
                    lemma_view_list(a@);
                    assert(a.deep_view() =~= view_list(a@));
                }
                Ok(a)
            },
            _ => Err(self.convert_err("array")),
        }
    }
}

} // verus!
