//! An in-memory JSON value, and its mathematical model.

use vstd::prelude::*;

verus! {

/// A JSON number as the JSON data model distinguishes it: a non-negative
/// integer, a negative integer, or a number with a fraction or exponent
/// (kept as its decimal text). That `NegInt` holds a negative value is
/// part of `value_well_formed`.
#[derive(Debug, PartialEq)]
pub enum Number {
    PosInt(u64),
    NegInt(i64),
    Float(String),
}

/// A JSON value. An object is a list of members; in a well-formed value
/// (`value_well_formed`) no object has two members with the same key.
#[derive(Debug)]
pub enum Value {
    Null,
    Bool(bool),
    Number(Number),
    String(String),
    Array(Vec<Value>),
    Object(Vec<(String, Value)>),
}

/// The mathematical model of a JSON value.
pub enum Json {
    Null,
    Bool(bool),
    Int(int),
    Float(Seq<char>),
    Str(Seq<char>),
    Array(Seq<Json>),
    Object(Seq<(Seq<char>, Json)>),
}

pub open spec fn number_view(n: Number) -> Json {
    match n {
        Number::PosInt(u) => Json::Int(u as int),
        Number::NegInt(i) => Json::Int(i as int),
        Number::Float(t) => Json::Float(t@),
    }
}

pub open spec fn value_view(v: Value) -> Json
    decreases v,
{
    match v {
        Value::Null => Json::Null,
        Value::Bool(b) => Json::Bool(b),
        Value::Number(n) => number_view(n),
        Value::String(s) => Json::Str(s@),
        Value::Array(a) => Json::Array(items_view(a@)),
        Value::Object(m) => Json::Object(members_view(m@)),
    }
}

pub open spec fn items_view(s: Seq<Value>) -> Seq<Json>
    decreases s,
{
    if s.len() == 0 {
        seq![]
    } else {
        seq![value_view(s[0])] + items_view(s.drop_first())
    }
}

pub open spec fn members_view(s: Seq<(String, Value)>) -> Seq<(Seq<char>, Json)>
    decreases s,
{
    if s.len() == 0 {
        seq![]
    } else {
        seq![(s[0].0@, value_view(s[0].1))] + members_view(s.drop_first())
    }
}

impl View for Value {
    type V = Json;

    open spec fn view(&self) -> Json {
        value_view(*self)
    }
}

/// The model of an element list, element by element.
pub proof fn lemma_items_view_index(s: Seq<Value>)
    ensures
        items_view(s).len() == s.len(),
        forall|i: int| 0 <= i < s.len() ==> items_view(s)[i] == value_view(#[trigger] s[i]),
    decreases s.len(),
{
    if s.len() > 0 {
        lemma_items_view_index(s.drop_first());
        assert forall|i: int| 0 <= i < s.len() implies items_view(s)[i] == value_view(#[trigger] s[i]) by {
            if i > 0 {
                assert(s.drop_first()[i - 1] == s[i]);
            }
        }
    }
}

/// The model of a member list, member by member.
pub proof fn lemma_members_view_index(s: Seq<(String, Value)>)
    ensures
        members_view(s).len() == s.len(),
        forall|i: int| 0 <= i < s.len() ==> members_view(s)[i] == (s[i].0@, value_view(#[trigger] s[i].1)),
    decreases s.len(),
{
    if s.len() > 0 {
        lemma_members_view_index(s.drop_first());
        assert forall|i: int| 0 <= i < s.len() implies members_view(s)[i] == (s[i].0@, value_view(#[trigger] s[i].1)) by {
            if i > 0 {
                assert(s.drop_first()[i - 1] == s[i]);
            }
        }
    }
}

/// Appending an element appends its model.
pub proof fn lemma_items_view_push(s: Seq<Value>, e: Value)
    ensures
        items_view(s.push(e)) == items_view(s).push(value_view(e)),
{
    lemma_items_view_index(s);
    lemma_items_view_index(s.push(e));
    assert forall|i: int| 0 <= i < s.len() + 1 implies #[trigger] items_view(s.push(e))[i] == items_view(s).push(value_view(e))[i] by {
        if i < s.len() {
            assert(s.push(e)[i] == s[i]);
        } else {
            assert(s.push(e)[i] == e);
        }
    }
    assert(items_view(s.push(e)) =~= items_view(s).push(value_view(e)));
}

/// Appending a member appends its model.
pub proof fn lemma_members_view_push(s: Seq<(String, Value)>, e: (String, Value))
    ensures
        members_view(s.push(e)) == members_view(s).push((e.0@, value_view(e.1))),
{
    lemma_members_view_index(s);
    lemma_members_view_index(s.push(e));
    assert forall|i: int| 0 <= i < s.len() + 1 implies #[trigger] members_view(s.push(e))[i] == members_view(s).push((e.0@, value_view(e.1)))[i] by {
        if i < s.len() {
            assert(s.push(e)[i] == s[i]);
            assert(s.push(e)[i].1 == s[i].1);
        } else {
            assert(s.push(e)[i] == e);
            assert(s.push(e)[i].1 == e.1);
        }
    }
    assert(members_view(s.push(e)) =~= members_view(s).push((e.0@, value_view(e.1))));
}

} // verus!

verus! {

/// A copy of `v` with the same model.
pub fn clone_value(v: &Value) -> (r: Value)
    ensures
        r@ == v@,
        numbers_canonical(r) == numbers_canonical(*v),
    decreases v,
{
    match v {
        Value::Null => Value::Null,
        Value::Bool(b) => Value::Bool(*b),
        Value::Number(n) => Value::Number(
            match n {
                Number::PosInt(u) => Number::PosInt(*u),
                Number::NegInt(i) => Number::NegInt(*i),
                Number::Float(t) => Number::Float(t.clone()),
            },
        ),
        Value::String(s) => Value::String(s.clone()),
        Value::Array(a) => {
            let mut out: Vec<Value> = Vec::new();
            assert(a@.take(0) =~= Seq::<Value>::empty());
            let mut i: usize = 0;
            while i < a.len()
                invariant
                    i <= a.len(),
                    *v == Value::Array(*a),
                    items_view(out@) == items_view(a@.take(i as int)),
                    items_numbers_canonical(out@) == items_numbers_canonical(a@.take(i as int)),
                decreases a.len() - i,
            {
                proof {
                    assert(decreases_to!(*v => v->Array_0));
                    assert(v->Array_0 == *a);
                    assert(decreases_to!(*a => a@));
                    assert(decreases_to!(a@ => a@[i as int]));
                }
                let e = clone_value(&a[i]);
                proof {
                    lemma_items_view_push(out@, e);
                    lemma_items_view_push(a@.take(i as int), a@[i as int]);
                    lemma_items_numbers_push(out@, e);
                    lemma_items_numbers_push(a@.take(i as int), a@[i as int]);
                    assert(a@.take(i as int + 1) =~= a@.take(i as int).push(a@[i as int]));
                }
                out.push(e);
                i = i + 1;
            }
            assert(a@.take(a.len() as int) =~= a@);
            Value::Array(out)
        },
        Value::Object(m) => {
            let mut out: Vec<(String, Value)> = Vec::new();
            assert(m@.take(0) =~= Seq::<(String, Value)>::empty());
            let mut i: usize = 0;
            while i < m.len()
                invariant
                    i <= m.len(),
                    *v == Value::Object(*m),
                    members_view(out@) == members_view(m@.take(i as int)),
                    members_numbers_canonical(out@) == members_numbers_canonical(m@.take(i as int)),
                decreases m.len() - i,
            {
                proof {
                    assert(decreases_to!(*v => v->Object_0));
                    assert(v->Object_0 == *m);
                    assert(decreases_to!(*m => m@));
                    assert(decreases_to!(m@ => m@[i as int]));
                    assert(decreases_to!(m@[i as int] => m@[i as int].1));
                }
                let e = (m[i].0.clone(), clone_value(&m[i].1));
                proof {
                    lemma_members_view_push(out@, e);
                    lemma_members_view_push(m@.take(i as int), m@[i as int]);
                    lemma_members_numbers_push(out@, e);
                    lemma_members_numbers_push(m@.take(i as int), m@[i as int]);
                    assert(m@.take(i as int + 1) =~= m@.take(i as int).push(m@[i as int]));
                }
                out.push(e);
                i = i + 1;
            }
            assert(m@.take(m.len() as int) =~= m@);
            Value::Object(out)
        },
    }
}

} // verus!

verus! {

/// No key occurs twice among the members.
pub open spec fn keys_distinct<T>(ms: Seq<(Seq<char>, T)>) -> bool {
    forall|i: int, j: int|
        #![trigger ms[i], ms[j]]
        0 <= i < ms.len() && 0 <= j < ms.len() && i != j ==> ms[i].0 != ms[j].0
}

/// No object, at any depth, has a key twice (as in a JSON map).
pub open spec fn json_keys_distinct(j: Json) -> bool
    decreases j,
{
    match j {
        Json::Array(items) => items_keys_distinct(items),
        Json::Object(ms) => keys_distinct(ms) && members_keys_distinct(ms),
        _ => true,
    }
}

/// No element has an object with a key twice.
pub open spec fn items_keys_distinct(s: Seq<Json>) -> bool
    decreases s,
{
    if s.len() == 0 {
        true
    } else {
        json_keys_distinct(s[0]) && items_keys_distinct(s.drop_first())
    }
}

/// No member value has an object with a key twice.
pub open spec fn members_keys_distinct(s: Seq<(Seq<char>, Json)>) -> bool
    decreases s,
{
    if s.len() == 0 {
        true
    } else {
        json_keys_distinct(s[0].1) && members_keys_distinct(s.drop_first())
    }
}

/// Every number held as a negative integer is negative, at any depth (as
/// in serde's numbers, where a non-negative integer is always unsigned).
pub open spec fn numbers_canonical(v: Value) -> bool
    decreases v,
{
    match v {
        Value::Number(Number::NegInt(i)) => i < 0,
        Value::Array(a) => items_numbers_canonical(a@),
        Value::Object(m) => members_numbers_canonical(m@),
        _ => true,
    }
}

/// Every element keeps its numbers canonical.
pub open spec fn items_numbers_canonical(s: Seq<Value>) -> bool
    decreases s,
{
    if s.len() == 0 {
        true
    } else {
        numbers_canonical(s[0]) && items_numbers_canonical(s.drop_first())
    }
}

/// Every member value keeps its numbers canonical.
pub open spec fn members_numbers_canonical(s: Seq<(String, Value)>) -> bool
    decreases s,
{
    if s.len() == 0 {
        true
    } else {
        numbers_canonical(s[0].1) && members_numbers_canonical(s.drop_first())
    }
}

/// The invariant of a JSON value as a JSON map and serde's numbers keep
/// it: no object has a key twice, and a negative integer is negative.
pub open spec fn value_well_formed(v: Value) -> bool {
    numbers_canonical(v) && json_keys_distinct(v@)
}

/// Member values have no repeated key exactly when none of them has.
pub proof fn lemma_members_keys_distinct(s: Seq<(Seq<char>, Json)>)
    ensures
        members_keys_distinct(s) <==> forall|i: int| 0 <= i < s.len() ==> json_keys_distinct(#[trigger] s[i].1),
    decreases s.len(),
{
    if s.len() > 0 {
        lemma_members_keys_distinct(s.drop_first());
        if forall|i: int| 0 <= i < s.len() ==> json_keys_distinct(#[trigger] s[i].1) {
            assert forall|i: int| 0 <= i < s.drop_first().len() implies json_keys_distinct(#[trigger] s.drop_first()[i].1) by {
                assert(s.drop_first()[i] == s[i + 1]);
            }
            assert(json_keys_distinct(s[0].1));
        }
        if members_keys_distinct(s) {
            assert forall|i: int| 0 <= i < s.len() implies json_keys_distinct(#[trigger] s[i].1) by {
                if i > 0 {
                    assert(s.drop_first()[i - 1] == s[i]);
                }
            }
        }
    }
}

/// Elements have no repeated key exactly when none of them has.
pub proof fn lemma_items_keys_distinct(s: Seq<Json>)
    ensures
        items_keys_distinct(s) <==> forall|i: int| 0 <= i < s.len() ==> json_keys_distinct(#[trigger] s[i]),
    decreases s.len(),
{
    if s.len() > 0 {
        lemma_items_keys_distinct(s.drop_first());
        if forall|i: int| 0 <= i < s.len() ==> json_keys_distinct(#[trigger] s[i]) {
            assert forall|i: int| 0 <= i < s.drop_first().len() implies json_keys_distinct(#[trigger] s.drop_first()[i]) by {
                assert(s.drop_first()[i] == s[i + 1]);
            }
            assert(json_keys_distinct(s[0]));
        }
        if items_keys_distinct(s) {
            assert forall|i: int| 0 <= i < s.len() implies json_keys_distinct(#[trigger] s[i]) by {
                if i > 0 {
                    assert(s.drop_first()[i - 1] == s[i]);
                }
            }
        }
    }
}

/// Appending a member keeps the numbers canonical exactly when its value
/// keeps them.
pub proof fn lemma_members_numbers_push(s: Seq<(String, Value)>, e: (String, Value))
    ensures
        members_numbers_canonical(s.push(e)) == (members_numbers_canonical(s) && numbers_canonical(e.1)),
    decreases s.len(),
{
    if s.len() == 0 {
        assert(s.push(e).drop_first() =~= Seq::<(String, Value)>::empty());
        assert(s.push(e)[0] == e);
        assert(members_numbers_canonical(Seq::<(String, Value)>::empty()));
    } else {
        assert(s.push(e).drop_first() =~= s.drop_first().push(e));
        assert(s.push(e)[0] == s[0]);
        lemma_members_numbers_push(s.drop_first(), e);
    }
}

/// Appending an element keeps the numbers canonical exactly when it keeps
/// them.
pub proof fn lemma_items_numbers_push(s: Seq<Value>, e: Value)
    ensures
        items_numbers_canonical(s.push(e)) == (items_numbers_canonical(s) && numbers_canonical(e)),
    decreases s.len(),
{
    if s.len() == 0 {
        assert(s.push(e).drop_first() =~= Seq::<Value>::empty());
        assert(s.push(e)[0] == e);
        assert(items_numbers_canonical(Seq::<Value>::empty()));
    } else {
        assert(s.push(e).drop_first() =~= s.drop_first().push(e));
        assert(s.push(e)[0] == s[0]);
        lemma_items_numbers_push(s.drop_first(), e);
    }
}

} // verus!
