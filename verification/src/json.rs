//! A model of the JSON values the response rules read, with the object order and the equality of
//! `serde_json::Value` (built with `preserve_order`), and its compact text.
//!
//! A number carries what the rules read of it. Its `f64` value itself stays with the caller: the
//! facts that depend on it (`order`, `unit`, `hundredths`, and the texts) are given by whoever
//! builds the model.

use vstd::prelude::*;
use vstd::string::StringExecFns;
use crate::text::push_char;

verus! {

/// The JSON values of `serde_json`.
#[verifier::external_type_specification]
#[verifier::external_body]
pub struct ExValue(serde_json::Value);

/// How `serde_json` holds a number: a non-negative integer, a negative integer, or a float.
#[derive(Debug, Clone, Copy, PartialEq, Eq, Structural)]
pub enum NumberKind {
    PosInt(u64),
    NegInt(i64),
    Float,
}

/// A JSON number and what the rules read of its `f64` value.
#[derive(Debug)]
pub struct Number {
    pub kind: NumberKind,
    /// The number's place among numbers: two numbers have the same `order` exactly when their
    /// `f64` values are equal, and a smaller one exactly when their value is smaller.
    pub order: i64,
    /// Whether the `f64` value is finite and within `[0, 1]`.
    pub unit: bool,
    /// The `f64` value times 100, rounded, as an `i64`.
    pub hundredths: i64,
    /// The number as JSON text.
    pub text: String,
    /// The `f64` value as `Debug` writes it.
    pub shown: String,
}

impl Number {
    /// The facts that hold together for any `f64` value: a value within `[0, 1]` is between zero
    /// and one hundred hundredths.
    pub open spec fn valid(self) -> bool {
        self.unit ==> 0 <= self.hundredths <= 100
    }
}

/// A JSON value; an object keeps its members in order.
#[derive(Debug)]
pub enum Json {
    Null,
    Bool(bool),
    Number(Number),
    String(String),
    Array(Vec<Json>),
    Object(Vec<(String, Json)>),
}

/// The value of the first member of `es` named `key`.
pub open spec fn lookup(es: Seq<(String, Json)>, key: Seq<char>) -> Option<Json>
    decreases es.len(),
{
    if es.len() == 0 {
        None
    } else if es[0].0@ == key {
        Some(es[0].1)
    } else {
        lookup(es.drop_first(), key)
    }
}

/// The position of the first member of `es` named `key`.
pub open spec fn position(es: Seq<(String, Json)>, key: Seq<char>) -> Option<int>
    decreases es.len(),
{
    if es.len() == 0 {
        None
    } else if es[0].0@ == key {
        Some(0)
    } else {
        match position(es.drop_first(), key) {
            Some(i) => Some(i + 1),
            None => None,
        }
    }
}

pub proof fn lemma_position(es: Seq<(String, Json)>, key: Seq<char>)
    ensures
        match position(es, key) {
            Some(i) => 0 <= i < es.len() && es[i].0@ == key && lookup(es, key) == Some(es[i].1)
                && forall|j: int| 0 <= j < i ==> (#[trigger] es[j]).0@ != key,
            None => lookup(es, key) is None && forall|j: int|
                0 <= j < es.len() ==> (#[trigger] es[j]).0@ != key,
        },
    decreases es.len(),
{
    if es.len() > 0 {
        lemma_position(es.drop_first(), key);
        assert forall|j: int| 1 <= j < es.len() implies es[j] == es.drop_first()[j - 1] by {}
    }
}

pub proof fn lemma_position_first(es: Seq<(String, Json)>, key: Seq<char>, i: int)
    requires
        0 <= i <= es.len(),
        forall|j: int| 0 <= j < i ==> (#[trigger] es[j]).0@ != key,
        i == es.len() || es[i].0@ == key,
    ensures
        position(es, key) == if i < es.len() {
            Some(i)
        } else {
            None::<int>
        },
    decreases i,
{
    if i > 0 {
        assert forall|j: int| 0 <= j < i - 1 implies (#[trigger] es.drop_first()[j]).0@ != key by {
            assert(es.drop_first()[j] == es[j + 1]);
        }
        lemma_position_first(es.drop_first(), key, i - 1);
    }
}

pub proof fn lemma_lookup_push(es: Seq<(String, Json)>, key: String, member: Json, k: Seq<char>)
    ensures
        lookup(es.push((key, member)), k) == match lookup(es, k) {
            Some(v) => Some(v),
            None => if k == key@ {
                Some(member)
            } else {
                None
            },
        },
    decreases es.len(),
{
    let pushed = es.push((key, member));
    if es.len() > 0 {
        assert(pushed.drop_first() =~= es.drop_first().push((key, member)));
        assert(pushed[0] == es[0]);
        lemma_lookup_push(es.drop_first(), key, member, k);
        if es[0].0@ != k {
            assert(lookup(pushed, k) == lookup(pushed.drop_first(), k));
            assert(lookup(es, k) == lookup(es.drop_first(), k));
        }
    } else {
        assert(pushed[0] == (key, member));
        assert(pushed.drop_first().len() == 0);
        assert(lookup(pushed.drop_first(), k) is None);
        assert(lookup(es, k) is None);
    }
}

pub proof fn lemma_lookup_update(es: Seq<(String, Json)>, i: int, member: Json, k: Seq<char>)
    requires
        0 <= i < es.len(),
    ensures
        lookup(es.update(i, (es[i].0, member)), k) == if position(es, k) == Some(i) {
            Some(member)
        } else {
            lookup(es, k)
        },
    decreases es.len(),
{
    lemma_position(es, k);
    if i == 0 {
        assert(es.update(0, (es[0].0, member)).drop_first() =~= es.drop_first());
    } else {
        assert(es.update(i, (es[i].0, member)).drop_first() =~= es.drop_first().update(
            i - 1,
            (es[i].0, member),
        ));
        assert(es.drop_first()[i - 1] == es[i]);
        lemma_lookup_update(es.drop_first(), i - 1, member, k);
    }
}

/// The names of the members of `es`, in order.
pub open spec fn keys(es: Seq<(String, Json)>) -> Seq<Seq<char>> {
    es.map_values(|e: (String, Json)| e.0@)
}

/// The texts of a sequence of strings.
pub open spec fn texts(v: Seq<String>) -> Seq<Seq<char>> {
    v.map_values(|s: String| s@)
}

impl Json {
    /// `Value::get` with a name: the member of an object, `None` for anything else.
    pub open spec fn field(self, key: Seq<char>) -> Option<Json> {
        match self {
            Json::Object(es) => lookup(es@, key),
            _ => None,
        }
    }

    pub open spec fn object(self) -> Option<Seq<(String, Json)>> {
        match self {
            Json::Object(es) => Some(es@),
            _ => None,
        }
    }

    pub open spec fn array(self) -> Option<Seq<Json>> {
        match self {
            Json::Array(xs) => Some(xs@),
            _ => None,
        }
    }

    pub open spec fn string(self) -> Option<Seq<char>> {
        match self {
            Json::String(s) => Some(s@),
            _ => None,
        }
    }

    pub open spec fn number(self) -> Option<Number> {
        match self {
            Json::Number(n) => Some(n),
            _ => None,
        }
    }

    /// `Value::as_u64`.
    pub open spec fn unsigned(self) -> Option<u64> {
        match self {
            Json::Number(n) => match n.kind {
                NumberKind::PosInt(u) => Some(u),
                _ => None,
            },
            _ => None,
        }
    }

    /// The member named `key`, if this is an object that has one.
    pub fn get(&self, key: &str) -> (r: Option<&Json>)
        ensures
            match r {
                Some(v) => self.field(key@) == Some(*v),
                None => self.field(key@) is None,
            },
    {
        match self {
            Json::Object(es) => {
                let k = String::from_str(key);
                match find_member(es, &k) {
                    Some(j) => Some(&es[j].1),
                    None => None,
                }
            },
            _ => None,
        }
    }

    pub fn as_object(&self) -> (r: Option<&Vec<(String, Json)>>)
        ensures
            match r {
                Some(es) => self.object() == Some(es@),
                None => self.object() is None,
            },
    {
        match self {
            Json::Object(es) => Some(es),
            _ => None,
        }
    }

    pub fn as_array(&self) -> (r: Option<&Vec<Json>>)
        ensures
            match r {
                Some(xs) => self.array() == Some(xs@),
                None => self.array() is None,
            },
    {
        match self {
            Json::Array(xs) => Some(xs),
            _ => None,
        }
    }

    pub fn as_str(&self) -> (r: Option<&String>)
        ensures
            match r {
                Some(s) => self.string() == Some(s@),
                None => self.string() is None,
            },
    {
        match self {
            Json::String(s) => Some(s),
            _ => None,
        }
    }

    pub fn as_number(&self) -> (r: Option<&Number>)
        ensures
            match r {
                Some(n) => self.number() == Some(*n),
                None => self.number() is None,
            },
    {
        match self {
            Json::Number(n) => Some(n),
            _ => None,
        }
    }

    pub fn as_u64(&self) -> (r: Option<u64>)
        ensures
            r == self.unsigned(),
    {
        match self {
            Json::Number(n) => match n.kind {
                NumberKind::PosInt(u) => Some(u),
                _ => None,
            },
            _ => None,
        }
    }
}

/// What a number is as a value: its fields, the texts by their characters.
pub struct NumberV {
    pub kind: NumberKind,
    pub order: i64,
    pub unit: bool,
    pub hundredths: i64,
    pub text: Seq<char>,
    pub shown: Seq<char>,
}

impl View for Number {
    type V = NumberV;

    open spec fn view(&self) -> NumberV {
        NumberV {
            kind: self.kind,
            order: self.order,
            unit: self.unit,
            hundredths: self.hundredths,
            text: self.text@,
            shown: self.shown@,
        }
    }
}

/// What a JSON value is, whatever memory holds it: strings by their characters, arrays and
/// objects by the sequence of their items and members.
pub enum JsonV {
    Null,
    Bool(bool),
    Number(NumberV),
    String(Seq<char>),
    Array(Seq<JsonV>),
    Object(Seq<(Seq<char>, JsonV)>),
}

/// The value that `j` holds.
pub open spec fn value_of(j: Json) -> JsonV
    decreases j, 0int,
{
    match j {
        Json::Null => JsonV::Null,
        Json::Bool(b) => JsonV::Bool(b),
        Json::Number(n) => JsonV::Number(n@),
        Json::String(s) => JsonV::String(s@),
        Json::Array(xs) => JsonV::Array(items_value(xs@, 0)),
        Json::Object(es) => JsonV::Object(members_value(es@, 0)),
    }
}

/// The values of items `i..` of `xs`.
pub open spec fn items_value(xs: Seq<Json>, i: int) -> Seq<JsonV>
    decreases xs, xs.len() - i,
{
    if 0 <= i < xs.len() {
        seq![value_of(xs[i])] + items_value(xs, i + 1)
    } else {
        Seq::empty()
    }
}

/// The names and values of members `i..` of `es`.
pub open spec fn members_value(es: Seq<(String, Json)>, i: int) -> Seq<(Seq<char>, JsonV)>
    decreases es, es.len() - i,
{
    if 0 <= i < es.len() {
        seq![(es[i].0@, value_of(es[i].1))] + members_value(es, i + 1)
    } else {
        Seq::empty()
    }
}

impl View for Json {
    type V = JsonV;

    open spec fn view(&self) -> JsonV {
        value_of(*self)
    }
}

pub proof fn lemma_items_value(xs: Seq<Json>, i: int)
    requires
        0 <= i <= xs.len(),
    ensures
        items_value(xs, i).len() == xs.len() - i,
        forall|k: int| 0 <= k < xs.len() - i ==> #[trigger] items_value(xs, i)[k] == value_of(xs[i + k]),
    decreases xs.len() - i,
{
    if i < xs.len() {
        lemma_items_value(xs, i + 1);
        assert forall|k: int| 0 <= k < xs.len() - i implies #[trigger] items_value(xs, i)[k] == value_of(xs[i + k]) by {
            if k > 0 {
                assert(items_value(xs, i)[k] == items_value(xs, i + 1)[k - 1]);
            }
        }
    }
}

pub proof fn lemma_members_value(es: Seq<(String, Json)>, i: int)
    requires
        0 <= i <= es.len(),
    ensures
        members_value(es, i).len() == es.len() - i,
        forall|k: int| 0 <= k < es.len() - i ==> #[trigger] members_value(es, i)[k] == (es[i + k].0@, value_of(es[i + k].1)),
    decreases es.len() - i,
{
    if i < es.len() {
        lemma_members_value(es, i + 1);
        assert forall|k: int| 0 <= k < es.len() - i implies #[trigger] members_value(es, i)[k] == (es[i + k].0@, value_of(es[i + k].1)) by {
            if k > 0 {
                assert(members_value(es, i)[k] == members_value(es, i + 1)[k - 1]);
            }
        }
    }
}

/// The position of the first member of `es` named `key`.
pub open spec fn position_v(es: Seq<(Seq<char>, JsonV)>, key: Seq<char>) -> Option<int>
    decreases es.len(),
{
    if es.len() == 0 {
        None
    } else if es[0].0 == key {
        Some(0)
    } else {
        match position_v(es.drop_first(), key) {
            Some(i) => Some(i + 1),
            None => None,
        }
    }
}

proof fn lemma_position_v_first(es: Seq<(Seq<char>, JsonV)>, key: Seq<char>, i: int)
    requires
        0 <= i <= es.len(),
        forall|j: int| 0 <= j < i ==> (#[trigger] es[j]).0 != key,
        i == es.len() || es[i].0 == key,
    ensures
        position_v(es, key) == if i < es.len() {
            Some(i)
        } else {
            None::<int>
        },
    decreases i,
{
    if i > 0 {
        assert forall|j: int| 0 <= j < i - 1 implies (#[trigger] es.drop_first()[j]).0 != key by {
            assert(es.drop_first()[j] == es[j + 1]);
        }
        lemma_position_v_first(es.drop_first(), key, i - 1);
    }
}

/// A member is first found at the same place in an object and in its value.
pub proof fn lemma_position_value(es: Seq<(String, Json)>, key: Seq<char>)
    ensures
        position_v(members_value(es, 0), key) == position(es, key),
{
    lemma_position(es, key);
    lemma_members_value(es, 0);
    let vs = members_value(es, 0);
    match position(es, key) {
        Some(i) => {
            assert forall|j: int| 0 <= j < i implies (#[trigger] vs[j]).0 != key by {
                assert(vs[j] == (es[j].0@, value_of(es[j].1)));
            }
            lemma_position_v_first(vs, key, i);
        },
        None => {
            assert forall|j: int| 0 <= j < vs.len() implies (#[trigger] vs[j]).0 != key by {
                assert(vs[j] == (es[j].0@, value_of(es[j].1)));
            }
            lemma_position_v_first(vs, key, vs.len() as int);
        },
    }
}

/// `value[key] = member` on values: the first member named `key` takes the new value where it
/// stands, or the member is added at the end; a null becomes an object of that one member.
pub open spec fn set_v(value: JsonV, key: Seq<char>, member: JsonV) -> JsonV {
    match value {
        JsonV::Object(es) => match position_v(es, key) {
            Some(i) => JsonV::Object(es.update(i, (key, member))),
            None => JsonV::Object(es.push((key, member))),
        },
        JsonV::Null => JsonV::Object(seq![(key, member)]),
        _ => value,
    }
}

/// The member named `key` of an object value.
pub open spec fn field_v(value: JsonV, key: Seq<char>) -> Option<JsonV> {
    match value {
        JsonV::Object(es) => match position_v(es, key) {
            Some(i) => Some(es[i].1),
            None => None,
        },
        _ => None,
    }
}

/// A member read from an object is the member read from its value.
pub proof fn lemma_field_value(j: Json, key: Seq<char>)
    ensures
        field_v(j@, key) == match j.field(key) {
            Some(v) => Some(v@),
            None => None::<JsonV>,
        },
{
    if let Json::Object(es) = j {
        lemma_position(es@, key);
        lemma_position_value(es@, key);
        lemma_members_value(es@, 0);
    }
}

/// A copy of `j`.
pub fn duplicate(j: &Json) -> (r: Json)
    ensures
        r@ == j@,
    decreases j,
{
    match j {
        Json::Null => Json::Null,
        Json::Bool(b) => Json::Bool(*b),
        Json::Number(n) => Json::Number(
            Number {
                kind: n.kind,
                order: n.order,
                unit: n.unit,
                hundredths: n.hundredths,
                text: n.text.clone(),
                shown: n.shown.clone(),
            },
        ),
        Json::String(s) => Json::String(s.clone()),
        Json::Array(xs) => {
            let mut ys: Vec<Json> = Vec::new();
            let mut i: usize = 0;
            while i < xs.len()
                invariant
                    i <= xs@.len(),
                    *j == Json::Array(*xs),
                    ys@.len() == i,
                    forall|k: int| 0 <= k < i ==> value_of(#[trigger] ys@[k]) == value_of(xs@[k]),
                decreases xs@.len() - i,
            {
                proof {
                    assert(decreases_to!(*j => (*j)->Array_0));
                    assert(decreases_to!(*xs => xs@));
                    assert(decreases_to!(xs@ => xs@[i as int]));
                    assert(decreases_to!(*j => xs@[i as int]));
                }
                let y = duplicate(&xs[i]);
                ys.push(y);
                i += 1;
            }
            proof {
                lemma_items_value(xs@, 0);
                lemma_items_value(ys@, 0);
                assert(items_value(ys@, 0) =~= items_value(xs@, 0));
            }
            Json::Array(ys)
        },
        Json::Object(es) => {
            let mut fs: Vec<(String, Json)> = Vec::new();
            let mut i: usize = 0;
            while i < es.len()
                invariant
                    i <= es@.len(),
                    *j == Json::Object(*es),
                    fs@.len() == i,
                    forall|k: int|
                        0 <= k < i ==> (#[trigger] fs@[k]).0@ == es@[k].0@ && value_of(fs@[k].1)
                            == value_of(es@[k].1),
                decreases es@.len() - i,
            {
                proof {
                    assert(decreases_to!(*j => (*j)->Object_0));
                    assert(decreases_to!(*es => es@));
                    assert(decreases_to!(es@ => es@[i as int]));
                    assert(decreases_to!(es@[i as int] => es@[i as int].1));
                    assert(decreases_to!(*j => es@[i as int].1));
                }
                let v = duplicate(&es[i].1);
                fs.push((es[i].0.clone(), v));
                i += 1;
            }
            proof {
                lemma_members_value(es@, 0);
                lemma_members_value(fs@, 0);
                assert(members_value(fs@, 0) =~= members_value(es@, 0));
            }
            Json::Object(fs)
        },
    }
}

/// The value that `serde_json::from_str` gives for `text` when it is JSON, and otherwise
/// `Value::String` of the text.
pub uninterp spec fn json_value_of(text: Seq<char>) -> serde_json::Value;

/// `serde_json::from_str` of `text` when it is JSON, else `Value::String(text)`; a function of the
/// text alone, named `json_value_of`.
#[verifier::external_body]
pub fn json_or_string(text: String) -> (r: serde_json::Value)
    ensures
        r == json_value_of(text@),
{
    match serde_json::from_str(&text) {
        Ok(v) => v,
        Err(_) => serde_json::Value::String(text),
    }
}

/// The position of the first member of `es` named `key`.
pub fn find_member(es: &Vec<(String, Json)>, key: &String) -> (r: Option<usize>)
    ensures
        match r {
            Some(j) => j < es@.len() && lookup(es@, key@) == Some(es@[j as int].1) && position(
                es@,
                key@,
            ) == Some(j as int),
            None => lookup(es@, key@) is None && position(es@, key@) is None,
        },
{
    let mut i: usize = 0;
    proof {
        lemma_position(es@, key@);
    }
    while i < es.len()
        invariant
            i <= es@.len(),
            forall|j: int| 0 <= j < i ==> (#[trigger] es@[j]).0@ != key@,
        decreases es@.len() - i,
    {
        if es[i].0 == *key {
            proof {
                lemma_position_first(es@, key@, i as int);
                lemma_position(es@, key@);
            }
            return Some(i);
        }
        i += 1;
    }
    proof {
        lemma_position_first(es@, key@, i as int);
        lemma_position(es@, key@);
    }
    None
}

/// `serde_json`'s equality of numbers: the same kind, and the same value.
pub open spec fn number_eq(x: Number, y: Number) -> bool {
    match (x.kind, y.kind) {
        (NumberKind::PosInt(a), NumberKind::PosInt(b)) => a == b,
        (NumberKind::NegInt(a), NumberKind::NegInt(b)) => a == b,
        (NumberKind::Float, NumberKind::Float) => x.order == y.order,
        _ => false,
    }
}

/// `serde_json`'s equality of values: arrays item by item, objects as maps, whatever the order of
/// their members.
pub open spec fn json_eq(a: Json, b: Json) -> bool
    decreases a, 0int,
{
    match a {
        Json::Null => b is Null,
        Json::Bool(x) => b matches Json::Bool(y) && x == y,
        Json::Number(x) => b matches Json::Number(y) && number_eq(x, y),
        Json::String(x) => b matches Json::String(y) && x@ == y@,
        Json::Array(xs) => b matches Json::Array(ys) && xs@.len() == ys@.len() && items_eq(
            xs@,
            ys@,
            0,
        ),
        Json::Object(es) => b matches Json::Object(fs) && es@.len() == fs@.len() && members_eq(
            es@,
            fs@,
            0,
        ),
    }
}

/// Items `i..` of `xs` equal those of `ys`.
pub open spec fn items_eq(xs: Seq<Json>, ys: Seq<Json>, i: int) -> bool
    decreases xs, xs.len() - i,
{
    if 0 <= i < xs.len() {
        i < ys.len() && json_eq(xs[i], ys[i]) && items_eq(xs, ys, i + 1)
    } else {
        true
    }
}

/// Each member `i..` of `es` has a member of the same name in `fs`, with an equal value.
pub open spec fn members_eq(es: Seq<(String, Json)>, fs: Seq<(String, Json)>, i: int) -> bool
    decreases es, es.len() - i,
{
    if 0 <= i < es.len() {
        match lookup(fs, es[i].0@) {
            Some(v) => json_eq(es[i].1, v) && members_eq(es, fs, i + 1),
            None => false,
        }
    } else {
        true
    }
}

/// Whether `new` is `old` with its member `key` set to `member`, as `set_member` sets it: the first
/// member named `key` takes the new value where it stands, or the member is added at the end; a
/// null becomes an object of that one member.
pub open spec fn is_set(old: Json, new: Json, key: Seq<char>, member: Json) -> bool {
    match new {
        Json::Object(fs) => match old {
            Json::Object(es) => match position(es@, key) {
                Some(i) => fs@.len() == es@.len() && fs@[i].0@ == key && fs@[i].1 == member
                    && forall|j: int| 0 <= j < es@.len() && j != i ==> #[trigger] fs@[j] == es@[j],
                None => fs@.len() == es@.len() + 1 && fs@.last().0@ == key && fs@.last().1
                    == member && forall|j: int| 0 <= j < es@.len() ==> #[trigger] fs@[j] == es@[j],
            },
            Json::Null => fs@.len() == 1 && fs@[0].0@ == key && fs@[0].1 == member,
            _ => false,
        },
        _ => false,
    }
}

/// `value[key] = member`, as `Value` does it for an object or for null, which becomes an object:
/// the first member named `key` takes the new value where it stands, or the member is added at the
/// end. Afterwards `key` reads the new value, and every other name reads what it read before.
pub fn set_member(value: &mut Json, key: String, member: Json)
    requires
        *old(value) is Object || *old(value) is Null,
    ensures
        *final(value) is Object,
        (*final(value)).field(key@) == Some(member),
        forall|k: Seq<char>| k != key@ ==> #[trigger] (*final(value)).field(k) == (*old(value)).field(k),
        *old(value) is Null ==> (*final(value)).object() == Some(seq![(key, member)]),
        *old(value) matches Json::Object(es) ==> match position(es@, key@) {
            Some(i) => (*final(value)).object() == Some(es@.update(i, (es@[i].0, member))),
            None => (*final(value)).object() == Some(es@.push((key, member))),
        },
        is_set(*old(value), *final(value), key@, member),
        final(value)@ == set_v(old(value)@, key@, member@),
{
    let ghost k0 = key@;
    let ghost m0 = member;
    match value {
        Json::Object(es) => {
            let ghost old_es = es@;
            proof {
                lemma_position(old_es, k0);
            }
            match find_member(es, &key) {
                Some(i) => {
                    let name = es[i].0.clone();
                    es.set(i, (name, member));
                    assert(es@ == old_es.update(i as int, (old_es[i as int].0, m0)));
                    proof {
                        lemma_position_value(old_es, k0);
                        lemma_members_value(old_es, 0);
                        lemma_members_value(es@, 0);
                        assert(members_value(es@, 0) =~= members_value(old_es, 0).update(
                            i as int,
                            (k0, m0@),
                        ));
                        assert forall|k: Seq<char>| true implies #[trigger] lookup(es@, k) == if position(
                            old_es,
                            k,
                        ) == Some(i as int) {
                            Some(m0)
                        } else {
                            lookup(old_es, k)
                        } by {
                            lemma_lookup_update(old_es, i as int, m0, k);
                        }
                        assert forall|k: Seq<char>| k != k0 implies #[trigger] lookup(es@, k) == lookup(
                            old_es,
                            k,
                        ) by {
                            lemma_position(old_es, k);
                            lemma_lookup_update(old_es, i as int, m0, k);
                        }
                    }
                },
                None => {
                    let ghost kk = key;
                    es.push((key, member));
                    proof {
                        lemma_position_value(old_es, k0);
                        lemma_members_value(old_es, 0);
                        lemma_members_value(es@, 0);
                        assert(members_value(es@, 0) =~= members_value(old_es, 0).push((k0, m0@)));
                        assert forall|k: Seq<char>| true implies #[trigger] lookup(es@, k) == match lookup(
                            old_es,
                            k,
                        ) {
                            Some(v) => Some(v),
                            None => if k == k0 {
                                Some(m0)
                            } else {
                                None
                            },
                        } by {
                            lemma_lookup_push(old_es, kk, m0, k);
                        }
                        assert forall|k: Seq<char>| k != k0 implies #[trigger] lookup(es@, k) == lookup(
                            old_es,
                            k,
                        ) by {
                            lemma_lookup_push(old_es, kk, m0, k);
                        }
                    }
                },
            }
        },
        _ => {
            let ghost kk = key;
            let mut es: Vec<(String, Json)> = Vec::new();
            es.push((key, member));
            assert(es@ =~= Seq::<(String, Json)>::empty().push((kk, m0)));
            proof {
                lemma_members_value(es@, 0);
                assert(members_value(es@, 0) =~= seq![(k0, m0@)]);
                assert forall|k: Seq<char>| true implies #[trigger] lookup(es@, k) == if k == k0 {
                    Some(m0)
                } else {
                    None
                } by {
                    lemma_lookup_push(Seq::empty(), kk, m0, k);
                }
            }
            *value = Json::Object(es);
        },
    }
}

/// Whether two numbers are equal as `serde_json` compares them.
pub fn number_equal(x: &Number, y: &Number) -> (r: bool)
    ensures
        r == number_eq(*x, *y),
{
    match (x.kind, y.kind) {
        (NumberKind::PosInt(a), NumberKind::PosInt(b)) => a == b,
        (NumberKind::NegInt(a), NumberKind::NegInt(b)) => a == b,
        (NumberKind::Float, NumberKind::Float) => x.order == y.order,
        _ => false,
    }
}

/// Whether two values are equal as `serde_json` compares them.
pub fn json_equal(a: &Json, b: &Json) -> (r: bool)
    ensures
        r == json_eq(*a, *b),
    decreases a,
{
    match a {
        Json::Null => match b {
            Json::Null => true,
            _ => false,
        },
        Json::Bool(x) => match b {
            Json::Bool(y) => *x == *y,
            _ => false,
        },
        Json::Number(x) => match b {
            Json::Number(y) => number_equal(x, y),
            _ => false,
        },
        Json::String(x) => match b {
            Json::String(y) => *x == *y,
            _ => false,
        },
        Json::Array(xs) => match b {
            Json::Array(ys) => {
                if xs.len() != ys.len() {
                    return false;
                }
                let mut i: usize = 0;
                while i < xs.len()
                    invariant
                        i <= xs@.len() == ys@.len(),
                        json_eq(*a, *b) == items_eq(xs@, ys@, i as int),
                        *a == Json::Array(*xs),
                    decreases xs@.len() - i,
                {
                    assert(decreases_to!(*a => (*a)->Array_0));
                    assert(decreases_to!(*xs => xs@));
                    assert(decreases_to!(xs@ => xs@[i as int]));
                    assert(decreases_to!(*a => xs@[i as int]));
                    if !json_equal(&xs[i], &ys[i]) {
                        return false;
                    }
                    i += 1;
                }
                true
            },
            _ => false,
        },
        Json::Object(es) => match b {
            Json::Object(fs) => {
                if es.len() != fs.len() {
                    return false;
                }
                let mut i: usize = 0;
                while i < es.len()
                    invariant
                        i <= es@.len() == fs@.len(),
                        json_eq(*a, *b) == members_eq(es@, fs@, i as int),
                        *a == Json::Object(*es),
                    decreases es@.len() - i,
                {
                    match find_member(fs, &es[i].0) {
                        None => {
                            return false;
                        },
                        Some(j) => {
                            assert(decreases_to!(*a => (*a)->Object_0));
                            assert(decreases_to!(*es => es@));
                            assert(decreases_to!(es@ => es@[i as int]));
                            assert(decreases_to!(es@[i as int] => es@[i as int].1));
                            assert(decreases_to!(*a => es@[i as int].1));
                            if !json_equal(&es[i].1, &fs[j].1) {
                                return false;
                            }
                        },
                    }
                    i += 1;
                }
                true
            },
            _ => false,
        },
    }
}

/// How `serde_json` writes a character inside a string: quotes, backslashes and control
/// characters escaped, everything else as it is.
pub open spec fn escape_char(c: char) -> Seq<char> {
    let u = c as u32;
    if c == '"' {
        seq!['\\', '"']
    } else if c == '\\' {
        seq!['\\', '\\']
    } else if u == 0x08 {
        seq!['\\', 'b']
    } else if u == 0x0c {
        seq!['\\', 'f']
    } else if c == '\n' {
        seq!['\\', 'n']
    } else if c == '\r' {
        seq!['\\', 'r']
    } else if c == '\t' {
        seq!['\\', 't']
    } else if u < 0x20 {
        seq!['\\', 'u', '0', '0', hex_digit(u / 16), hex_digit(u % 16)]
    } else {
        seq![c]
    }
}

/// The lowercase hexadecimal digit for `d < 16`.
pub open spec fn hex_digit(d: u32) -> char {
    if d < 10 {
        (d + 0x30) as char
    } else {
        (d - 10 + 0x61) as char
    }
}

/// The characters of `s`, escaped.
pub open spec fn escaped(s: Seq<char>) -> Seq<char>
    decreases s.len(),
{
    if s.len() == 0 {
        Seq::empty()
    } else {
        escape_char(s[0]) + escaped(s.drop_first())
    }
}

/// `s` as a JSON string.
pub open spec fn quoted(s: Seq<char>) -> Seq<char> {
    seq!['"'] + escaped(s) + seq!['"']
}

/// `serde_json::to_string` of a string slice: it never fails, and writes the string quoted, with
/// the escapes of `escape_char`.
#[verifier::external_body]
pub fn json_quote(s: &str) -> (r: String)
    ensures
        r@ == quoted(s@),
{
    match serde_json::to_string(s) {
        Ok(t) => t,
        Err(_) => String::new(),
    }
}

/// A value as compact JSON text, as `Value`'s `Display` writes it.
pub open spec fn json_text(j: Json) -> Seq<char>
    decreases j, 0int,
{
    match j {
        Json::Null => "null"@,
        Json::Bool(b) => if b {
            "true"@
        } else {
            "false"@
        },
        Json::Number(n) => n.text@,
        Json::String(s) => quoted(s@),
        Json::Array(xs) => seq!['['] + items_text(xs@, 0) + seq![']'],
        Json::Object(es) => seq!['{'] + members_text(es@, 0) + seq!['}'],
    }
}

/// Items `i..` of an array as JSON text, each after a comma but the first.
pub open spec fn items_text(xs: Seq<Json>, i: int) -> Seq<char>
    decreases xs, xs.len() - i,
{
    if 0 <= i < xs.len() {
        (if i > 0 {
            seq![',']
        } else {
            Seq::empty()
        }) + json_text(xs[i]) + items_text(xs, i + 1)
    } else {
        Seq::empty()
    }
}

/// Members `i..` of an object as JSON text: the quoted name, a colon and the value, each after a
/// comma but the first.
pub open spec fn members_text(es: Seq<(String, Json)>, i: int) -> Seq<char>
    decreases es, es.len() - i,
{
    if 0 <= i < es.len() {
        (if i > 0 {
            seq![',']
        } else {
            Seq::empty()
        }) + quoted(es[i].0@) + seq![':'] + json_text(es[i].1) + members_text(es, i + 1)
    } else {
        Seq::empty()
    }
}

/// Appends `j` as compact JSON text to `out`.
pub fn push_json(out: &mut String, j: &Json)
    ensures
        final(out)@ == old(out)@ + json_text(*j),
    decreases j,
{
    match j {
        Json::Null => out.append("null"),
        Json::Bool(b) => if *b {
            out.append("true")
        } else {
            out.append("false")
        },
        Json::Number(n) => out.append(n.text.as_str()),
        Json::String(s) => {
            let q = json_quote(s.as_str());
            out.append(q.as_str());
        },
        Json::Array(xs) => {
            let ghost start = out@;
            push_char(out, '[');
            let mut i: usize = 0;
            while i < xs.len()
                invariant
                    i <= xs@.len(),
                    *j == Json::Array(*xs),
                    out@ + items_text(xs@, i as int) == start + seq!['['] + items_text(xs@, 0),
                decreases xs@.len() - i,
            {
                let ghost before = out@;
                if i > 0 {
                    push_char(out, ',');
                }
                assert(decreases_to!(*j => (*j)->Array_0));
                    assert(decreases_to!(*xs => xs@));
                    assert(decreases_to!(xs@ => xs@[i as int]));
                    assert(decreases_to!(*j => xs@[i as int]));
                push_json(out, &xs[i]);
                let ghost sep: Seq<char> = if i > 0 {
                    seq![',']
                } else {
                    Seq::empty()
                };
                assert(out@ == before + sep + json_text(xs@[i as int]));
                assert(out@ + items_text(xs@, i + 1) =~= before + items_text(xs@, i as int));
                i += 1;
            }
            push_char(out, ']');
        },
        Json::Object(es) => {
            let ghost start = out@;
            push_char(out, '{');
            let mut i: usize = 0;
            while i < es.len()
                invariant
                    i <= es@.len(),
                    *j == Json::Object(*es),
                    out@ + members_text(es@, i as int) == start + seq!['{'] + members_text(es@, 0),
                decreases es@.len() - i,
            {
                let ghost before = out@;
                if i > 0 {
                    push_char(out, ',');
                }
                let q = json_quote(es[i].0.as_str());
                out.append(q.as_str());
                push_char(out, ':');
                assert(decreases_to!(*j => (*j)->Object_0));
                            assert(decreases_to!(*es => es@));
                            assert(decreases_to!(es@ => es@[i as int]));
                            assert(decreases_to!(es@[i as int] => es@[i as int].1));
                            assert(decreases_to!(*j => es@[i as int].1));
                push_json(out, &es[i].1);
                let ghost sep: Seq<char> = if i > 0 {
                    seq![',']
                } else {
                    Seq::empty()
                };
                assert(out@ == before + sep + quoted(es@[i as int].0@) + seq![':'] + json_text(
                    es@[i as int].1,
                ));
                assert(out@ + members_text(es@, i + 1) =~= before + members_text(es@, i as int));
                i += 1;
            }
            push_char(out, '}');
        },
    }
}

/// `j` as compact JSON text.
pub fn to_text(j: &Json) -> (r: String)
    ensures
        r@ == json_text(*j),
{
    let mut s = String::new();
    push_json(&mut s, j);
    assert(s@ =~= json_text(*j));
    s
}

} // verus!
