//! JSON: what apps and omakeel send, read by serde_json, and the messages the
//! engine sends.

use crate::number::{finite64, Real};
use crate::text::same_text;
use vstd::prelude::*;

verus! {

/// A JSON number, as it is read: each way it can be taken.
#[derive(Clone, Copy, Debug)]
pub struct Number {
    /// As a whole number from 0 on.
    pub unsigned: Option<u64>,
    /// As a whole number.
    pub signed: Option<i64>,
    /// As the bits of a 64-bit float.
    pub float: Option<u64>,
}

/// A JSON value.
#[derive(Debug)]
pub enum Json {
    Null,
    Bool(bool),
    /// A number that was read.
    Number(Number),
    Text(String),
    List(Vec<Json>),
    Object(Vec<(String, Json)>),
    /// A whole number to send.
    Count(u64),
    /// A number to send as it is.
    Exact(Real),
    /// A number to send rounded to so many decimal places.
    Rounded(Real, u32),
    /// Metres a second to send in knots, to a tenth.
    Knots(Real),
}

/// What a JSON value is.
pub ghost enum JsonView {
    Null,
    Bool(bool),
    Number(Number),
    Text(Seq<char>),
    List(Seq<JsonView>),
    Object(Seq<(Seq<char>, JsonView)>),
    Count(nat),
    Exact(u64),
    Rounded(u64, nat),
    Knots(u64),
}

/// What a JSON value is.
pub open spec fn json_view(j: Json) -> JsonView
    decreases j,
{
    match j {
        Json::Null => JsonView::Null,
        Json::Bool(b) => JsonView::Bool(b),
        Json::Number(n) => JsonView::Number(n),
        Json::Text(s) => JsonView::Text(s@),
        Json::List(v) => JsonView::List(
            Seq::new(
                v@.len(),
                |i: int|
                    if 0 <= i < v@.len() {
                        json_view(v@[i])
                    } else {
                        JsonView::Null
                    },
            ),
        ),
        Json::Object(v) => JsonView::Object(
            Seq::new(
                v@.len(),
                |i: int|
                    if 0 <= i < v@.len() {
                        (v@[i].0@, json_view(v@[i].1))
                    } else {
                        (seq![], JsonView::Null)
                    },
            ),
        ),
        Json::Count(n) => JsonView::Count(n as nat),
        Json::Exact(x) => JsonView::Exact(x@),
        Json::Rounded(x, places) => JsonView::Rounded(x@, places as nat),
        Json::Knots(x) => JsonView::Knots(x@),
    }
}

impl View for Json {
    type V = JsonView;

    open spec fn view(&self) -> JsonView {
        json_view(*self)
    }
}

/// What each value in a list is.
pub open spec fn list_view(v: Seq<Json>) -> Seq<JsonView> {
    Seq::new(v.len(), |i: int| v[i]@)
}

/// What each field of an object is.
pub open spec fn object_view(v: Seq<(String, Json)>) -> Seq<(Seq<char>, JsonView)> {
    Seq::new(v.len(), |i: int| (v[i].0@, v[i].1@))
}

/// A list is its values, an object its fields.
pub proof fn lemma_view(j: Json)
    ensures
        j matches Json::List(v) ==> j@ == JsonView::List(list_view(v@)),
        j matches Json::Object(v) ==> j@ == JsonView::Object(object_view(v@)),
{
    match j {
        Json::List(v) => {
            assert(j@->List_0 =~= list_view(v@));
        },
        Json::Object(v) => {
            assert(j@->Object_0 =~= object_view(v@));
        },
        _ => {},
    }
}

/// The first field with this name.
pub open spec fn field_named(fields: Seq<(Seq<char>, JsonView)>, key: Seq<char>) -> Option<JsonView>
    decreases fields.len(),
{
    if fields.len() == 0 {
        None
    } else if fields[0].0 == key {
        Some(fields[0].1)
    } else {
        field_named(fields.skip(1), key)
    }
}

impl JsonView {
    /// The field of an object with this name.
    pub open spec fn get(self, key: Seq<char>) -> Option<JsonView> {
        match self {
            JsonView::Object(fields) => field_named(fields, key),
            _ => None,
        }
    }

    /// A text's characters.
    pub open spec fn text(self) -> Option<Seq<char>> {
        match self {
            JsonView::Text(s) => Some(s),
            _ => None,
        }
    }

    /// A number read, as a whole number from 0 on.
    pub open spec fn unsigned(self) -> Option<u64> {
        match self {
            JsonView::Number(n) => n.unsigned,
            _ => None,
        }
    }

    /// A number read, as a finite float.
    pub open spec fn float(self) -> Option<u64> {
        match self {
            JsonView::Number(n) => if n.float is Some && finite64(n.float->0) {
                n.float
            } else {
                None
            },
            _ => None,
        }
    }
}

/// The value an optional reference is to.
pub open spec fn found(r: Option<&Json>) -> Option<JsonView> {
    match r {
        Some(j) => Some(j@),
        None => None,
    }
}

impl Json {
    /// The field of an object with this name.
    pub fn get(&self, key: &str) -> (r: Option<&Json>)
        ensures
            found(r) == self@.get(key@),
    {
        proof {
            lemma_view(*self);
        }
        match self {
            Json::Object(fields) => {
                let mut i: usize = 0;
                assert(object_view(fields@).skip(0) =~= object_view(fields@));
                while i < fields.len()
                    invariant
                        i <= fields@.len(),
                        self@ == JsonView::Object(object_view(fields@)),
                        field_named(object_view(fields@), key@) == field_named(
                            object_view(fields@).skip(i as int),
                            key@,
                        ),
                    decreases fields@.len() - i,
                {
                    if same_text(fields[i].0.as_str(), key) {
                        return Some(&fields[i].1);
                    }
                    assert(object_view(fields@).skip(i as int).skip(1) =~= object_view(
                        fields@,
                    ).skip(i + 1));
                    i += 1;
                }
                None
            },
            _ => None,
        }
    }

    /// A text.
    pub fn as_text(&self) -> (r: Option<&String>)
        ensures
            match r {
                Some(s) => self@.text() == Some(s@),
                None => self@.text() is None,
            },
    {
        match self {
            Json::Text(s) => Some(s),
            _ => None,
        }
    }

    /// A number read, as a whole number from 0 on.
    pub fn as_u64(&self) -> (r: Option<u64>)
        ensures
            r == self@.unsigned(),
    {
        match self {
            Json::Number(n) => n.unsigned,
            _ => None,
        }
    }

    /// A number read, as a finite number.
    pub fn as_real(&self) -> (r: Option<Real>)
        ensures
            match r {
                Some(x) => self@.float() == Some(x@),
                None => self@.float() is None,
            },
    {
        match self {
            Json::Number(n) => match n.float {
                Some(bits) => Real::new(bits),
                None => None,
            },
            _ => None,
        }
    }

    /// A copy of a value.
    pub fn copy(&self) -> (r: Json)
        ensures
            r@ == self@,
        decreases self,
    {
        proof {
            lemma_view(*self);
        }
        match self {
            Json::Null => Json::Null,
            Json::Bool(b) => Json::Bool(*b),
            Json::Number(n) => Json::Number(*n),
            Json::Text(s) => Json::Text(s.as_str().to_owned()),
            Json::List(v) => {
                let mut out: Vec<Json> = Vec::new();
                let mut i: usize = 0;
                while i < v.len()
                    invariant
                        i <= v@.len(),
                        self matches Json::List(w) && w == v,
                        list_view(out@) == list_view(v@).take(i as int),
                    decreases v@.len() - i,
                {
                    assert(decreases_to!(*self => v@[i as int]));
                    let ghost before = out@;
                    out.push(v[i].copy());
                    i += 1;
                    assert(list_view(out@) =~= list_view(v@).take(i as int)) by {
                        assert(list_view(out@) =~= list_view(before).push(v@[i - 1]@));
                    }
                }
                assert(list_view(v@).take(i as int) =~= list_view(v@));
                let r = Json::List(out);
                proof {
                    lemma_view(r);
                }
                r
            },
            Json::Object(v) => {
                let mut out: Vec<(String, Json)> = Vec::new();
                let mut i: usize = 0;
                while i < v.len()
                    invariant
                        i <= v@.len(),
                        self matches Json::Object(w) && w == v,
                        object_view(out@) == object_view(v@).take(i as int),
                    decreases v@.len() - i,
                {
                    assert(decreases_to!(*self => v@[i as int]));
                    let ghost before = out@;
                    let field = &v[i];
                    let copy = (field.0.as_str().to_owned(), field.1.copy());
                    out.push(copy);
                    i += 1;
                    assert(object_view(out@) =~= object_view(v@).take(i as int)) by {
                        assert(object_view(out@) =~= object_view(before).push((copy.0@, copy.1@)));
                    }
                }
                assert(object_view(v@).take(i as int) =~= object_view(v@));
                let r = Json::Object(out);
                proof {
                    lemma_view(r);
                }
                r
            },
            Json::Count(n) => Json::Count(*n),
            Json::Exact(x) => Json::Exact(*x),
            Json::Rounded(x, places) => Json::Rounded(*x, *places),
            Json::Knots(x) => Json::Knots(*x),
        }
    }
}

// --- Making ----------------------------------------------------------------------

/// An object's fields so far, in the order they were added.
pub struct Fields {
    pub fields: Vec<(String, Json)>,
}

impl View for Fields {
    type V = Seq<(Seq<char>, JsonView)>;

    open spec fn view(&self) -> Seq<(Seq<char>, JsonView)> {
        object_view(self.fields@)
    }
}

impl Fields {
    pub fn new() -> (r: Fields)
        ensures
            r@ == Seq::<(Seq<char>, JsonView)>::empty(),
    {
        let r = Fields { fields: Vec::new() };
        assert(r@ =~= Seq::empty());
        r
    }

    /// Adds a field.
    pub fn put(&mut self, name: &str, v: Json)
        ensures
            final(self)@ == old(self)@.push((name@, v@)),
    {
        let ghost was = self.fields@;
        self.fields.push((name.to_owned(), v));
        assert(self@ =~= object_view(was).push((name@, v@)));
    }

    /// Adds a text.
    pub fn text(&mut self, name: &str, v: &str)
        ensures
            final(self)@ == old(self)@.push((name@, JsonView::Text(v@))),
    {
        self.put(name, Json::Text(v.to_owned()));
    }

    /// The object with these fields.
    pub fn object(self) -> (r: Json)
        ensures
            r@ == JsonView::Object(self@),
    {
        let r = Json::Object(self.fields);
        proof {
            lemma_view(r);
        }
        r
    }
}

/// A list of values.
pub fn list(v: Vec<Json>) -> (r: Json)
    ensures
        r@ == JsonView::List(list_view(v@)),
{
    let r = Json::List(v);
    proof {
        lemma_view(r);
    }
    r
}

/// Whether a value is null nowhere, however deep.
pub open spec fn no_null(j: JsonView) -> bool
    decreases j,
{
    match j {
        JsonView::Null => false,
        JsonView::List(v) => forall|i: int| 0 <= i < v.len() ==> no_null(#[trigger] v[i]),
        JsonView::Object(f) => forall|i: int| 0 <= i < f.len() ==> no_null((#[trigger] f[i]).1),
        _ => true,
    }
}

/// Fields that go by other names don't hide the ones after them.
pub proof fn lemma_field_after(a: Seq<(Seq<char>, JsonView)>, b: Seq<(Seq<char>, JsonView)>, key: Seq<
    char,
>)
    requires
        forall|i: int| 0 <= i < a.len() ==> (#[trigger] a[i]).0 != key,
    ensures
        field_named(a + b, key) == field_named(b, key),
    decreases a.len(),
{
    if a.len() == 0 {
        assert(a + b =~= b);
    } else {
        assert((a + b)[0] == a[0]);
        assert((a + b).skip(1) =~= a.skip(1) + b);
        assert forall|i: int| 0 <= i < a.skip(1).len() implies (#[trigger] a.skip(1)[i]).0 != key by {
            assert(a.skip(1)[i] == a[i + 1]);
        }
        lemma_field_after(a.skip(1), b, key);
    }
}

/// An object has a null only in a field.
pub proof fn lemma_full(f: Seq<(Seq<char>, JsonView)>)
    ensures
        no_null(JsonView::Object(f)) == (forall|i: int|
            0 <= i < f.len() ==> no_null((#[trigger] f[i]).1)),
{
    reveal_with_fuel(no_null, 3);
    let j = JsonView::Object(f);
    assert(j->Object_0 == f);
    assert(no_null(j) == (match j {
        JsonView::Object(f) => forall|i: int| 0 <= i < f.len() ==> no_null((#[trigger] f[i]).1),
        _ => true,
    }));
}

/// A list has a null only in a value.
pub proof fn lemma_full_list(v: Seq<JsonView>)
    ensures
        no_null(JsonView::List(v)) == (forall|i: int| 0 <= i < v.len() ==> no_null(#[trigger] v[i])),
{
    reveal_with_fuel(no_null, 3);
    let j = JsonView::List(v);
    assert(j->List_0 == v);
    assert(no_null(j) == (match j {
        JsonView::List(v) => forall|i: int| 0 <= i < v.len() ==> no_null(#[trigger] v[i]),
        _ => true,
    }));
}

/// Fields without nulls, one after the other, have none.
pub proof fn lemma_no_null(a: Seq<(Seq<char>, JsonView)>, b: Seq<(Seq<char>, JsonView)>)
    requires
        no_null(JsonView::Object(a)),
        no_null(JsonView::Object(b)),
    ensures
        no_null(JsonView::Object(a + b)),
{
    lemma_full(a);
    lemma_full(b);
    lemma_full(a + b);
    assert forall|i: int| 0 <= i < (a + b).len() implies no_null((#[trigger] (a + b)[i]).1) by {
        if i < a.len() {
            assert((a + b)[i] == a[i]);
        } else {
            assert((a + b)[i] == b[i - a.len()]);
        }
    }
}

// --- Reading ----------------------------------------------------------------------

/// `serde_json::Value`: a JSON value, whichever kind it is.
#[verifier::external_type_specification]
#[verifier::external_body]
pub struct ExValue(serde_json::Value);

/// What a `serde_json::Value` holds, all the way down.
pub uninterp spec fn contents(v: serde_json::Value) -> JsonView;

/// What `serde_json::from_str` reads a text as.
pub uninterp spec fn json_text(text: Seq<char>) -> Option<JsonView>;

/// What `serde_json::from_slice` reads bytes as.
pub uninterp spec fn json_bytes(bytes: Seq<u8>) -> Option<JsonView>;

/// `serde_json::from_str`: the value the whole text is JSON for, if it is JSON.
#[verifier::external_body]
fn value_from_str(text: &str) -> (r: Option<serde_json::Value>)
    ensures
        match r {
            Some(v) => json_text(text@) == Some(contents(v)),
            None => json_text(text@) is None,
        },
{
    serde_json::from_str(text).ok()
}

/// `serde_json::from_slice`: the value the bytes are JSON for, if they are.
#[verifier::external_body]
fn value_from_slice(bytes: &[u8]) -> (r: Option<serde_json::Value>)
    ensures
        match r {
            Some(v) => json_bytes(bytes@) == Some(contents(v)),
            None => json_bytes(bytes@) is None,
        },
{
    serde_json::from_slice(bytes).ok()
}

/// A `serde_json::Value`'s parts, moved over one for one: a number in each of
/// the ways `serde_json::Number` gives it, and a list's values and an object's
/// fields in the order they are iterated in.
#[verifier::external_body]
fn taken_apart(v: serde_json::Value) -> (r: Json)
    ensures
        r@ == contents(v),
{
    match v {
        serde_json::Value::Null => Json::Null,
        serde_json::Value::Bool(b) => Json::Bool(b),
        serde_json::Value::Number(n) => Json::Number(Number {
            unsigned: n.as_u64(),
            signed: n.as_i64(),
            float: n.as_f64().map(|x| x.to_bits()),
        }),
        serde_json::Value::String(s) => Json::Text(s),
        serde_json::Value::Array(a) => Json::List(a.into_iter().map(taken_apart).collect()),
        serde_json::Value::Object(m) => Json::Object(m.into_iter().map(|(k, v)| (k, taken_apart(v))).collect()),
    }
}

/// The value a text is JSON for, if it is JSON.
pub fn from_text(text: &str) -> (r: Option<Json>)
    ensures
        match r {
            Some(j) => json_text(text@) == Some(j@),
            None => json_text(text@) is None,
        },
{
    match value_from_str(text) {
        Some(v) => Some(taken_apart(v)),
        None => None,
    }
}

/// The value bytes are JSON for, if they are JSON.
pub fn from_bytes(bytes: &[u8]) -> (r: Option<Json>)
    ensures
        match r {
            Some(j) => json_bytes(bytes@) == Some(j@),
            None => json_bytes(bytes@) is None,
        },
{
    match value_from_slice(bytes) {
        Some(v) => Some(taken_apart(v)),
        None => None,
    }
}

} // verus!
