//! The JSON values that the label logic reads and writes.
use vstd::prelude::*;

use crate::workspace::strictly_sorted;

verus! {

/// A JSON number, held the way serde_json holds one: a non-negative integer,
/// a negative integer, or a finite float given by its IEEE-754 bit pattern.
#[derive(Clone, Copy, Debug, PartialEq, Eq)]
pub enum JsonNumber {
    PosInt(u64),
    NegInt(i64),
    Float(u64),
}

/// A JSON value. Objects keep their entries in order; lookups use the
/// first entry with a key. The values that serde_json holds are those whose
/// model meets [`json_valid`].
#[derive(Debug, PartialEq)]
pub enum Json {
    Null,
    Bool(bool),
    Number(JsonNumber),
    Str(String),
    Array(Vec<Json>),
    Object(Vec<(String, Json)>),
}

/// The mathematical model of a [`Json`] value.
pub enum JsonV {
    Null,
    Bool(bool),
    Number(JsonNumber),
    Str(Seq<char>),
    Array(Seq<JsonV>),
    Object(Seq<(Seq<char>, JsonV)>),
}

pub open spec fn json_view(j: Json) -> JsonV
    decreases j, 1nat,
{
    match j {
        Json::Null => JsonV::Null,
        Json::Bool(b) => JsonV::Bool(b),
        Json::Number(n) => JsonV::Number(n),
        Json::Str(s) => JsonV::Str(s@),
        Json::Array(items) => JsonV::Array(items_view(items@)),
        Json::Object(entries) => JsonV::Object(entries_view(entries@)),
    }
}

pub open spec fn items_view(items: Seq<Json>) -> Seq<JsonV>
    decreases items, 0nat,
{
    if items.len() == 0 {
        Seq::empty()
    } else {
        items_view(items.drop_last()).push(json_view(items.last()))
    }
}

pub open spec fn entries_view(entries: Seq<(String, Json)>) -> Seq<(Seq<char>, JsonV)>
    decreases entries, 0nat,
{
    if entries.len() == 0 {
        Seq::empty()
    } else {
        entries_view(entries.drop_last()).push(
            (entries.last().0@, json_view(entries.last().1)),
        )
    }
}

impl View for Json {
    type V = JsonV;

    open spec fn view(&self) -> JsonV {
        json_view(*self)
    }
}

pub proof fn lemma_items_view(items: Seq<Json>)
    ensures
        items_view(items).len() == items.len(),
        forall|i: int| 0 <= i < items.len() ==> #[trigger] items_view(items)[i] == json_view(items[i]),
    decreases items.len(),
{
    if items.len() > 0 {
        lemma_items_view(items.drop_last());
    }
}

pub proof fn lemma_entries_view(entries: Seq<(String, Json)>)
    ensures
        entries_view(entries).len() == entries.len(),
        forall|i: int|
            0 <= i < entries.len() ==> #[trigger] entries_view(entries)[i] == (
                entries[i].0@,
                json_view(entries[i].1),
            ),
    decreases entries.len(),
{
    if entries.len() > 0 {
        lemma_entries_view(entries.drop_last());
    }
}

/// Whether a float's bit pattern is NaN.
pub open spec fn float_bits_nan(bits: u64) -> bool {
    (bits & 0x7ff0_0000_0000_0000u64) == 0x7ff0_0000_0000_0000u64 && (bits
        & 0x000f_ffff_ffff_ffffu64) != 0
}

/// Whether a float's bit pattern is +0.0 or -0.0.
pub open spec fn float_bits_zero(bits: u64) -> bool {
    bits == 0 || bits == 0x8000_0000_0000_0000u64
}

/// Whether a float's bit pattern is neither infinite nor NaN.
pub open spec fn float_bits_finite(bits: u64) -> bool {
    (bits & 0x7ff0_0000_0000_0000u64) != 0x7ff0_0000_0000_0000u64
}

/// `==` on numbers as serde_json defines it: the same kind of number and
/// equal values, floats compared as `f64`.
pub open spec fn number_eq(a: JsonNumber, b: JsonNumber) -> bool {
    match (a, b) {
        (JsonNumber::PosInt(x), JsonNumber::PosInt(y)) => x == y,
        (JsonNumber::NegInt(x), JsonNumber::NegInt(y)) => x == y,
        (JsonNumber::Float(x), JsonNumber::Float(y)) => !float_bits_nan(x) && !float_bits_nan(y)
            && (x == y || (float_bits_zero(x) && float_bits_zero(y))),
        _ => false,
    }
}

/// `==` on JSON values as serde_json defines it: the same kind of value and
/// equal contents, arrays element by element and objects entry by entry.
pub open spec fn json_eq(a: JsonV, b: JsonV) -> bool
    decreases a, 1nat,
{
    match (a, b) {
        (JsonV::Null, JsonV::Null) => true,
        (JsonV::Bool(x), JsonV::Bool(y)) => x == y,
        (JsonV::Number(x), JsonV::Number(y)) => number_eq(x, y),
        (JsonV::Str(x), JsonV::Str(y)) => x == y,
        (JsonV::Array(x), JsonV::Array(y)) => items_eq(x, y),
        (JsonV::Object(x), JsonV::Object(y)) => entries_eq(x, y),
        _ => false,
    }
}

pub open spec fn items_eq(x: Seq<JsonV>, y: Seq<JsonV>) -> bool
    decreases x, 0nat,
{
    if x.len() != y.len() {
        false
    } else if x.len() == 0 {
        true
    } else {
        items_eq(x.drop_last(), y.drop_last()) && json_eq(x.last(), y.last())
    }
}

pub open spec fn entries_eq(x: Seq<(Seq<char>, JsonV)>, y: Seq<(Seq<char>, JsonV)>) -> bool
    decreases x, 0nat,
{
    if x.len() != y.len() {
        false
    } else if x.len() == 0 {
        true
    } else {
        entries_eq(x.drop_last(), y.drop_last()) && x.last().0 == y.last().0 && json_eq(
            x.last().1,
            y.last().1,
        )
    }
}

/// The value of the first entry with `key`.
pub open spec fn entries_get(e: Seq<(Seq<char>, JsonV)>, key: Seq<char>) -> Option<JsonV>
    decreases e.len(),
{
    if e.len() == 0 {
        None
    } else if e[0].0 == key {
        Some(e[0].1)
    } else {
        entries_get(e.drop_first(), key)
    }
}

/// The keys of an object's entries, in order.
pub open spec fn entry_keys(e: Seq<(Seq<char>, JsonV)>) -> Seq<Seq<char>> {
    e.map_values(|p: (Seq<char>, JsonV)| p.0)
}

/// Whether an object's keys are in strictly increasing order, as serde_json
/// keeps them.
pub open spec fn keys_sorted(e: Seq<(Seq<char>, JsonV)>) -> bool {
    strictly_sorted(entry_keys(e))
}

/// The invariant of the model: a JSON value as serde_json holds one, with
/// no infinite or NaN float and every object's keys in strictly increasing
/// order (so none twice), at any depth. Every value that serde_json parses
/// or builds meets it.
pub open spec fn json_valid(v: JsonV) -> bool
    decreases v, 1nat,
{
    match v {
        JsonV::Number(JsonNumber::Float(bits)) => float_bits_finite(bits),
        JsonV::Array(x) => items_valid(x),
        JsonV::Object(x) => keys_sorted(x) && entries_valid(x),
        _ => true,
    }
}

pub open spec fn items_valid(x: Seq<JsonV>) -> bool
    decreases x, 0nat,
{
    if x.len() == 0 {
        true
    } else {
        items_valid(x.drop_last()) && json_valid(x.last())
    }
}

pub open spec fn entries_valid(x: Seq<(Seq<char>, JsonV)>) -> bool
    decreases x, 0nat,
{
    if x.len() == 0 {
        true
    } else {
        entries_valid(x.drop_last()) && json_valid(x.last().1)
    }
}

impl JsonV {
    /// `Value::get` with a key: the member of an object, nothing otherwise.
    pub open spec fn get(self, key: Seq<char>) -> Option<JsonV> {
        match self {
            JsonV::Object(e) => entries_get(e, key),
            _ => None,
        }
    }

    /// `Value::as_str`.
    pub open spec fn as_str(self) -> Option<Seq<char>> {
        match self {
            JsonV::Str(s) => Some(s),
            _ => None,
        }
    }

    /// `Value::as_array`.
    pub open spec fn as_array(self) -> Option<Seq<JsonV>> {
        match self {
            JsonV::Array(a) => Some(a),
            _ => None,
        }
    }

    /// The string member `key` of an object.
    pub open spec fn str_field(self, key: Seq<char>) -> Option<Seq<char>> {
        match self.get(key) {
            Some(v) => v.as_str(),
            None => None,
        }
    }
}

/// Whether a value counts as set: `false`, `null`, zero and empty strings,
/// arrays and objects do not.
pub open spec fn truthy_spec(v: JsonV) -> bool {
    match v {
        JsonV::Null => false,
        JsonV::Bool(b) => b,
        JsonV::Number(n) => number_nonzero(n),
        JsonV::Str(s) => s.len() > 0,
        JsonV::Array(a) => a.len() > 0,
        JsonV::Object(o) => o.len() > 0,
    }
}

/// An optional JSON value's model.
pub open spec fn opt_view(v: Option<&Json>) -> Option<JsonV> {
    match v {
        Some(j) => Some(j@),
        None => None,
    }
}


pub proof fn lemma_items_eq(x: Seq<JsonV>, y: Seq<JsonV>)
    ensures
        items_eq(x, y) <==> (x.len() == y.len() && forall|i: int|
            0 <= i < x.len() ==> json_eq(#[trigger] x[i], y[i])),
    decreases x.len(),
{
    if x.len() == y.len() && x.len() > 0 {
        lemma_items_eq(x.drop_last(), y.drop_last());
        if (forall|i: int| 0 <= i < x.len() ==> json_eq(#[trigger] x[i], y[i])) {
            assert(json_eq(x[x.len() - 1], y[y.len() - 1]));
            assert forall|i: int| 0 <= i < x.drop_last().len() implies json_eq(
                #[trigger] x.drop_last()[i],
                y.drop_last()[i],
            ) by {
                assert(json_eq(x[i], y[i]));
            }
        }
        if items_eq(x, y) {
            assert forall|i: int| 0 <= i < x.len() implies json_eq(#[trigger] x[i], y[i]) by {
                if i < x.len() - 1 {
                    assert(json_eq(x.drop_last()[i], y.drop_last()[i]));
                }
            }
        }
    }
}

pub proof fn lemma_entries_eq(x: Seq<(Seq<char>, JsonV)>, y: Seq<(Seq<char>, JsonV)>)
    ensures
        entries_eq(x, y) <==> (x.len() == y.len() && forall|i: int|
            0 <= i < x.len() ==> (#[trigger] x[i]).0 == y[i].0 && json_eq(x[i].1, y[i].1)),
    decreases x.len(),
{
    if x.len() == y.len() && x.len() > 0 {
        lemma_entries_eq(x.drop_last(), y.drop_last());
        if (forall|i: int| 0 <= i < x.len() ==> (#[trigger] x[i]).0 == y[i].0 && json_eq(x[i].1, y[i].1)) {
            assert(x[x.len() - 1].0 == y[y.len() - 1].0);
            assert forall|i: int| 0 <= i < x.drop_last().len() implies (
            #[trigger] x.drop_last()[i]).0 == y.drop_last()[i].0 && json_eq(
                x.drop_last()[i].1,
                y.drop_last()[i].1,
            ) by {
                assert(x[i].0 == y[i].0);
            }
        }
        if entries_eq(x, y) {
            assert forall|i: int| 0 <= i < x.len() implies (#[trigger] x[i]).0 == y[i].0
                && json_eq(x[i].1, y[i].1) by {
                if i < x.len() - 1 {
                    assert(x.drop_last()[i].0 == y.drop_last()[i].0);
                }
            }
        }
    }
}

/// Whether a number is non-zero, as `Value::as_f64(..) != 0.0` tests it.
pub open spec fn number_nonzero(n: JsonNumber) -> bool {
    match n {
        JsonNumber::PosInt(u) => u != 0,
        JsonNumber::NegInt(i) => i != 0,
        JsonNumber::Float(bits) => !float_bits_zero(bits),
    }
}

fn float_nan(bits: u64) -> (r: bool)
    ensures
        r == float_bits_nan(bits),
{
    (bits & 0x7ff0_0000_0000_0000u64) == 0x7ff0_0000_0000_0000u64 && (bits
        & 0x000f_ffff_ffff_ffffu64) != 0
}

/// `==` on two numbers, as serde_json compares them.
pub fn number_equal(a: JsonNumber, b: JsonNumber) -> (r: bool)
    ensures
        r == number_eq(a, b),
{
    match (a, b) {
        (JsonNumber::PosInt(x), JsonNumber::PosInt(y)) => x == y,
        (JsonNumber::NegInt(x), JsonNumber::NegInt(y)) => x == y,
        (JsonNumber::Float(x), JsonNumber::Float(y)) => !float_nan(x) && !float_nan(y) && (x == y
            || ((x == 0 || x == 0x8000_0000_0000_0000u64) && (y == 0 || y
            == 0x8000_0000_0000_0000u64))),
        _ => false,
    }
}

impl Json {
    /// The member `key` of an object; `None` for a value of another kind or a
    /// missing key.
    pub fn get(&self, key: &str) -> (r: Option<&Json>)
        ensures
            opt_view(r) == self@.get(key@),
    {
        match self {
            Json::Object(entries) => {
                let ghost ev = entries_view(entries@);
                proof {
                    lemma_entries_view(entries@);
                    assert(ev.skip(0) =~= ev);
                }
                let n = entries.len();
                let mut i: usize = 0;
                while i < n
                    invariant
                        i <= n,
                        n == entries@.len(),
                        ev == entries_view(entries@),
                        self@ == JsonV::Object(ev),
                        ev.len() == n,
                        forall|k: int|
                            0 <= k < n ==> #[trigger] ev[k] == (
                                entries@[k].0@,
                                json_view(entries@[k].1),
                            ),
                        entries_get(ev, key@) == entries_get(ev.skip(i as int), key@),
                    decreases n - i,
                {
                    let entry = &entries[i];
                    proof {
                        assert(ev.skip(i as int)[0] == ev[i as int]);
                        assert(ev.skip(i as int).drop_first() =~= ev.skip(i + 1));
                    }
                    if crate::text::str_equal(entry.0.as_str(), key) {
                        proof {
                            assert(self@ == JsonV::Object(ev));
                            assert(ev.skip(i as int)[0].0 == key@);
                        }
                        return Some(&entry.1);
                    }
                    i = i + 1;
                }
                None
            },
            _ => None,
        }
    }

    /// The characters of a string value.
    pub fn as_str(&self) -> (r: Option<&str>)
        ensures
            match r {
                Some(s) => self@.as_str() == Some(s@),
                None => self@.as_str() is None,
            },
    {
        match self {
            Json::Str(s) => Some(s.as_str()),
            _ => None,
        }
    }

    /// `==` on JSON values, as serde_json compares them.
    pub fn equals(&self, other: &Json) -> (r: bool)
        ensures
            r == json_eq(self@, other@),
        decreases self,
    {
        match (self, other) {
            (Json::Null, Json::Null) => true,
            (Json::Bool(x), Json::Bool(y)) => *x == *y,
            (Json::Number(x), Json::Number(y)) => number_equal(*x, *y),
            (Json::Str(x), Json::Str(y)) => crate::text::str_equal(x.as_str(), y.as_str()),
            (Json::Array(x), Json::Array(y)) => {
                proof {
                    lemma_items_view(x@);
                    lemma_items_view(y@);
                    lemma_items_eq(items_view(x@), items_view(y@));
                }
                if x.len() != y.len() {
                    return false;
                }
                let n = x.len();
                let mut i: usize = 0;
                while i < n
                    invariant
                        i <= n,
                        n == x@.len(),
                        n == y@.len(),
                        *self == Json::Array(*x),
                        *other == Json::Array(*y),
                        forall|k: int| 0 <= k < i ==> json_eq(#[trigger] x@[k]@, y@[k]@),
                    decreases n - i,
                {
                    proof {
                        vstd::std_specs::vec::axiom_vec_index_decreases(*x, i as int);
                        assert(decreases_to!(*self => (*self)->Array_0));
                    }
                    if !x[i].equals(&y[i]) {
                        proof {
                            lemma_items_view(x@);
                            lemma_items_view(y@);
                            lemma_items_eq(items_view(x@), items_view(y@));
                            assert(items_view(x@)[i as int] == x@[i as int]@);
                        }
                        return false;
                    }
                    i = i + 1;
                }
                proof {
                    assert forall|k: int| 0 <= k < n implies json_eq(
                        #[trigger] items_view(x@)[k],
                        items_view(y@)[k],
                    ) by {
                        assert(json_eq(x@[k]@, y@[k]@));
                    }
                }
                true
            },
            (Json::Object(x), Json::Object(y)) => {
                proof {
                    lemma_entries_view(x@);
                    lemma_entries_view(y@);
                    lemma_entries_eq(entries_view(x@), entries_view(y@));
                }
                if x.len() != y.len() {
                    return false;
                }
                let n = x.len();
                let mut i: usize = 0;
                while i < n
                    invariant
                        i <= n,
                        n == x@.len(),
                        n == y@.len(),
                        *self == Json::Object(*x),
                        *other == Json::Object(*y),
                        forall|k: int|
                            0 <= k < i ==> (#[trigger] x@[k]).0@ == y@[k].0@ && json_eq(
                                x@[k].1@,
                                y@[k].1@,
                            ),
                    decreases n - i,
                {
                    proof {
                        vstd::std_specs::vec::axiom_vec_index_decreases(*x, i as int);
                        assert(decreases_to!(*self => (*self)->Object_0));
                        assert(decreases_to!(x@[i as int] => x@[i as int].1));
                    }
                    if !crate::text::str_equal(x[i].0.as_str(), y[i].0.as_str()) || !x[i].1.equals(
                        &y[i].1,
                    ) {
                        proof {
                            lemma_entries_view(x@);
                            lemma_entries_view(y@);
                            lemma_entries_eq(entries_view(x@), entries_view(y@));
                            assert(entries_view(x@)[i as int] == (x@[i as int].0@, x@[i as int].1@));
                            assert(entries_view(y@)[i as int] == (y@[i as int].0@, y@[i as int].1@));
                        }
                        return false;
                    }
                    i = i + 1;
                }
                proof {
                    assert forall|k: int| 0 <= k < n implies (#[trigger] entries_view(x@)[k]).0
                        == entries_view(y@)[k].0 && json_eq(
                        entries_view(x@)[k].1,
                        entries_view(y@)[k].1,
                    ) by {
                        assert(x@[k].0@ == y@[k].0@);
                    }
                }
                true
            },
            _ => false,
        }
    }

    /// Whether the value counts as set: `false`, `null`, zero and empty
    /// strings, arrays and objects do not.
    pub fn is_truthy(&self) -> (r: bool)
        ensures
            r == truthy_spec(self@),
    {
        match self {
            Json::Null => false,
            Json::Bool(b) => *b,
            Json::Number(JsonNumber::PosInt(u)) => *u != 0,
            Json::Number(JsonNumber::NegInt(i)) => *i != 0,
            Json::Number(JsonNumber::Float(bits)) => !(*bits == 0 || *bits
                == 0x8000_0000_0000_0000u64),
            Json::Str(s) => !s.as_str().is_empty(),
            Json::Array(a) => a.len() != 0,
            Json::Object(o) => {
                proof {
                    lemma_entries_view(o@);
                }
                o.len() != 0
            },
        }
    }

    /// Whether this is `null`.
    pub fn is_null(&self) -> (r: bool)
        ensures
            r == (self@ is Null),
    {
        match self {
            Json::Null => true,
            _ => false,
        }
    }

    /// A copy of this value with the same contents.
    pub fn deep_copy(&self) -> (r: Json)
        ensures
            r@ == self@,
        decreases self,
    {
        match self {
            Json::Null => Json::Null,
            Json::Bool(b) => Json::Bool(*b),
            Json::Number(n) => Json::Number(*n),
            Json::Str(s) => Json::Str(s.clone()),
            Json::Array(items) => {
                let mut out: Vec<Json> = Vec::new();
                let n = items.len();
                let mut i: usize = 0;
                while i < n
                    invariant
                        i <= n,
                        n == items@.len(),
                        out@.len() == i,
                        *self == Json::Array(*items),
                        forall|k: int| 0 <= k < i ==> (#[trigger] out@[k])@ == items@[k]@,
                    decreases n - i,
                {
                    proof {
                        vstd::std_specs::vec::axiom_vec_index_decreases(*items, i as int);
                        assert(decreases_to!(*self => (*self)->Array_0));
                    }
                    let c = items[i].deep_copy();
                    out.push(c);
                    i = i + 1;
                }
                proof {
                    lemma_items_view(out@);
                    lemma_items_view(items@);
                    assert(items_view(out@) =~= items_view(items@));
                }
                Json::Array(out)
            },
            Json::Object(entries) => {
                let mut out: Vec<(String, Json)> = Vec::new();
                let n = entries.len();
                let mut i: usize = 0;
                while i < n
                    invariant
                        i <= n,
                        n == entries@.len(),
                        out@.len() == i,
                        *self == Json::Object(*entries),
                        forall|k: int|
                            0 <= k < i ==> (#[trigger] out@[k]).0@ == entries@[k].0@ && out@[k].1@
                                == entries@[k].1@,
                    decreases n - i,
                {
                    proof {
                        vstd::std_specs::vec::axiom_vec_index_decreases(*entries, i as int);
                        assert(decreases_to!(*self => (*self)->Object_0));
                        assert(decreases_to!(entries@[i as int] => entries@[i as int].1));
                    }
                    let v = entries[i].1.deep_copy();
                    out.push((entries[i].0.clone(), v));
                    i = i + 1;
                }
                proof {
                    lemma_entries_view(out@);
                    lemma_entries_view(entries@);
                    assert(entries_view(out@) =~= entries_view(entries@));
                }
                Json::Object(out)
            },
        }
    }
}

impl Clone for Json {
    /// A copy with the same contents.
    fn clone(&self) -> (r: Self)
        ensures
            r@ == self@,
    {
        self.deep_copy()
    }
}

} // verus!
