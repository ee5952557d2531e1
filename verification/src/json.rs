//! JSON values as plain data, and `serde_json` for their text.

use crate::text::{same_text, text_less};
use vstd::prelude::*;

verus! {

/// A number as `serde_json` holds it. It is carried through, and never looked into.
#[verifier::external_type_specification]
#[verifier::external_body]
pub struct ExNumber(serde_json::Number);

/// A document as `serde_json` holds it.
#[verifier::external_type_specification]
#[verifier::external_body]
pub struct ExValue(serde_json::Value);

/// `serde_json::Number` copies itself: the copy is the same number.
pub assume_specification[ <serde_json::Number as Clone>::clone ](
    n: &serde_json::Number,
) -> (r: serde_json::Number)
    ensures
        r == *n,
;

/// A JSON value. An object lists its pairs; where a key stands twice, the later pair counts.
#[derive(Debug, PartialEq, Eq)]
pub enum Json {
    Null,
    Bool(bool),
    Number(serde_json::Number),
    Text(String),
    List(Vec<Json>),
    Object(Vec<(String, Json)>),
}

/// What a JSON value says.
#[verifier::ext_equal]
pub enum Doc {
    Null,
    Bool(bool),
    Number(serde_json::Number),
    Text(Seq<char>),
    List(Seq<Doc>),
    Object(Seq<(Seq<char>, Doc)>),
}

impl View for Json {
    type V = Doc;

    open spec fn view(&self) -> Doc {
        doc(*self)
    }
}

pub open spec fn doc(j: Json) -> Doc
    decreases j,
{
    match j {
        Json::Null => Doc::Null,
        Json::Bool(b) => Doc::Bool(b),
        Json::Number(n) => Doc::Number(n),
        Json::Text(t) => Doc::Text(t@),
        Json::List(v) => Doc::List(docs(v@)),
        Json::Object(v) => Doc::Object(doc_pairs(v@)),
    }
}

pub open spec fn docs(v: Seq<Json>) -> Seq<Doc>
    decreases v,
{
    if v.len() == 0 {
        Seq::empty()
    } else {
        docs(v.subrange(0, v.len() - 1)).push(doc(v[v.len() - 1]))
    }
}

pub open spec fn doc_pairs(v: Seq<(String, Json)>) -> Seq<(Seq<char>, Doc)>
    decreases v,
{
    if v.len() == 0 {
        Seq::empty()
    } else {
        doc_pairs(v.subrange(0, v.len() - 1)).push((v[v.len() - 1].0@, doc(v[v.len() - 1].1)))
    }
}

pub proof fn lemma_docs(v: Seq<Json>)
    ensures
        docs(v) == v.map_values(|j: Json| j@),
    decreases v.len(),
{
    if v.len() > 0 {
        lemma_docs(v.subrange(0, v.len() - 1));
    }
    assert(docs(v) =~= v.map_values(|j: Json| j@));
}

pub proof fn lemma_doc_pairs(v: Seq<(String, Json)>)
    ensures
        doc_pairs(v) == v.map_values(|p: (String, Json)| (p.0@, p.1@)),
    decreases v.len(),
{
    if v.len() > 0 {
        lemma_doc_pairs(v.subrange(0, v.len() - 1));
    }
    assert(doc_pairs(v) =~= v.map_values(|p: (String, Json)| (p.0@, p.1@)));
}

// ---------------------------------------------------------------------------
// serde_json
// ---------------------------------------------------------------------------

/// The name of what a `serde_json::Value` holds; an object's pairs come in the order in which
/// the value yields them.
pub uninterp spec fn contents(value: serde_json::Value) -> Doc;

/// The name of what `serde_json::from_str` reads into a `Value`, or of its error in words.
pub uninterp spec fn json_read(text: Seq<char>) -> Result<Doc, Seq<char>>;

/// The name of what `serde_json::from_slice` reads into a `Value`, or of its error in words.
pub uninterp spec fn json_read_bytes(bytes: Seq<u8>) -> Result<Doc, Seq<char>>;

/// The name of the compact text of a `serde_json::Value` with these contents.
pub uninterp spec fn json_written(doc: Doc) -> Seq<char>;

/// The name of the number that `serde_json` makes of an integer.
pub uninterp spec fn number_of(n: i64) -> serde_json::Number;

/// `serde_json::from_str`.
#[verifier::external_body]
fn parse_value(text: &str) -> (r: Result<serde_json::Value, String>)
    ensures
        match r {
            Ok(v) => json_read(text@) == Ok::<Doc, Seq<char>>(contents(v)),
            Err(e) => json_read(text@) == Err::<Doc, Seq<char>>(e@),
        },
{
    serde_json::from_str(text).map_err(|error| error.to_string())
}

/// `serde_json::from_slice`.
#[verifier::external_body]
fn parse_bytes(bytes: &[u8]) -> (r: Result<serde_json::Value, String>)
    ensures
        match r {
            Ok(v) => json_read_bytes(bytes@) == Ok::<Doc, Seq<char>>(contents(v)),
            Err(e) => json_read_bytes(bytes@) == Err::<Doc, Seq<char>>(e@),
        },
{
    serde_json::from_slice(bytes).map_err(|error| error.to_string())
}

/// `serde_json::Value` taken apart, variant by variant: nothing is added, dropped or moved.
#[verifier::external_body]
fn taken_apart(value: serde_json::Value) -> (r: Json)
    ensures
        r@ == contents(value),
{
    match value {
        serde_json::Value::Null => Json::Null,
        serde_json::Value::Bool(b) => Json::Bool(b),
        serde_json::Value::Number(n) => Json::Number(n),
        serde_json::Value::String(t) => Json::Text(t),
        serde_json::Value::Array(v) => Json::List(v.into_iter().map(taken_apart).collect()),
        serde_json::Value::Object(v) => Json::Object(
            v.into_iter().map(|(key, value)| (key, taken_apart(value))).collect(),
        ),
    }
}

/// `serde_json::Value` put together, variant by variant. Its objects are B-tree maps, so their
/// pairs are ordered by key, and the last of several pairs with one key is the one that stays.
#[verifier::external_body]
fn put_together(json: &Json) -> (r: serde_json::Value)
    ensures
        contents(r) == stored(json@),
{
    match json {
        Json::Null => serde_json::Value::Null,
        Json::Bool(b) => serde_json::Value::Bool(*b),
        Json::Number(n) => serde_json::Value::Number(n.clone()),
        Json::Text(t) => serde_json::Value::String(t.clone()),
        Json::List(v) => serde_json::Value::Array(v.iter().map(put_together).collect()),
        Json::Object(v) => serde_json::Value::Object(
            v.iter().map(|(key, json)| (key.clone(), put_together(json))).collect(),
        ),
    }
}

/// `serde_json::Value::to_string`.
#[verifier::external_body]
fn print_value(value: &serde_json::Value) -> (r: String)
    ensures
        r@ == json_written(contents(*value)),
{
    value.to_string()
}

/// `serde_json::Number::from`.
#[verifier::external_body]
fn number(n: i64) -> (r: serde_json::Number)
    ensures
        r == number_of(n),
{
    serde_json::Number::from(n)
}

/// Whether a result of reading is what was named.
pub open spec fn reads(r: Result<Json, String>) -> Result<Doc, Seq<char>> {
    match r {
        Ok(j) => Ok(j@),
        Err(e) => Err(e@),
    }
}

/// Read a document.
pub fn read_json(text: &str) -> (r: Result<Json, String>)
    ensures
        reads(r) == json_read(text@),
{
    match parse_value(text) {
        Ok(value) => Ok(taken_apart(value)),
        Err(error) => Err(error),
    }
}

/// Read a document from bytes.
pub fn read_json_bytes(bytes: &[u8]) -> (r: Result<Json, String>)
    ensures
        reads(r) == json_read_bytes(bytes@),
{
    match parse_bytes(bytes) {
        Ok(value) => Ok(taken_apart(value)),
        Err(error) => Err(error),
    }
}

/// The compact text of a document.
pub fn write_json(json: &Json) -> (r: String)
    ensures
        r@ == json_written(stored(json@)),
{
    print_value(&put_together(json))
}

// ---------------------------------------------------------------------------
// How a document is stored
// ---------------------------------------------------------------------------

/// Pairs ordered by key, with one more put among them.
pub open spec fn put(pairs: Seq<(Seq<char>, Doc)>, key: Seq<char>, value: Doc) -> Seq<
    (Seq<char>, Doc),
>
    decreases pairs.len(),
{
    if pairs.len() == 0 || text_less(pairs.last().0, key) {
        pairs.push((key, value))
    } else if pairs.last().0 == key {
        pairs.drop_last().push((key, value))
    } else {
        put(pairs.drop_last(), key, value).push(pairs.last())
    }
}

/// A document with the pairs of each object ordered by key, one for each key.
pub open spec fn stored(d: Doc) -> Doc
    decreases d,
{
    match d {
        Doc::List(v) => Doc::List(stored_all(v)),
        Doc::Object(v) => Doc::Object(stored_pairs(v)),
        _ => d,
    }
}

pub open spec fn stored_all(v: Seq<Doc>) -> Seq<Doc>
    decreases v,
{
    if v.len() == 0 {
        Seq::empty()
    } else {
        stored_all(v.subrange(0, v.len() - 1)).push(stored(v[v.len() - 1]))
    }
}

pub open spec fn stored_pairs(v: Seq<(Seq<char>, Doc)>) -> Seq<(Seq<char>, Doc)>
    decreases v,
{
    if v.len() == 0 {
        Seq::empty()
    } else {
        put(
            stored_pairs(v.subrange(0, v.len() - 1)),
            v[v.len() - 1].0,
            stored(v[v.len() - 1].1),
        )
    }
}

// ---------------------------------------------------------------------------
// Looking into a document
// ---------------------------------------------------------------------------

/// The value of the last pair with this key.
pub open spec fn pair_of(pairs: Seq<(Seq<char>, Doc)>, key: Seq<char>) -> Option<Doc>
    decreases pairs.len(),
{
    if pairs.len() == 0 {
        None
    } else if pairs.last().0 == key {
        Some(pairs.last().1)
    } else {
        pair_of(pairs.drop_last(), key)
    }
}

impl Doc {
    /// The field of an object.
    pub open spec fn field(self, key: Seq<char>) -> Option<Doc> {
        match self {
            Doc::Object(pairs) => pair_of(pairs, key),
            _ => None,
        }
    }

    /// The text of a string value.
    pub open spec fn text(self) -> Option<Seq<char>> {
        match self {
            Doc::Text(t) => Some(t),
            _ => None,
        }
    }

    /// The text of a field that is a string.
    pub open spec fn text_field(self, key: Seq<char>) -> Option<Seq<char>> {
        match self.field(key) {
            Some(d) => d.text(),
            None => None,
        }
    }

    /// The items of a field that is a list.
    pub open spec fn list_field(self, key: Seq<char>) -> Option<Seq<Doc>> {
        match self.field(key) {
            Some(Doc::List(v)) => Some(v),
            _ => None,
        }
    }
}

/// Nothing for nothing, and otherwise what a value says.
pub open spec fn opt_doc(o: Option<&Json>) -> Option<Doc> {
    match o {
        Some(j) => Some(j@),
        None => None,
    }
}

impl Json {
    /// The field of an object.
    pub fn get<'a>(&'a self, key: &str) -> (r: Option<&'a Json>)
        ensures
            opt_doc(r) == self@.field(key@),
    {
        match self {
            Json::Object(pairs) => {
                let ghost all = doc_pairs(pairs@);
                proof {
                    lemma_doc_pairs(pairs@);
                    assert(all.take(all.len() as int) =~= all);
                }
                let mut i: usize = pairs.len();
                while i > 0
                    invariant
                        i <= pairs.len(),
                        all == doc_pairs(pairs@),
                        all == pairs@.map_values(|p: (String, Json)| (p.0@, p.1@)),
                        pair_of(all, key@) == pair_of(all.take(i as int), key@),
                        self@.field(key@) == pair_of(all, key@),
                    decreases i,
                {
                    i = i - 1;
                    assert(all.take(i + 1).drop_last() =~= all.take(i as int));
                    assert(all.take(i + 1).last() == all[i as int]);
                    if same_text(pairs[i].0.as_str(), key) {
                        return Some(&pairs[i].1);
                    }
                }
                None
            },
            _ => None,
        }
    }

    /// The text of a string value.
    pub fn as_str<'a>(&'a self) -> (r: Option<&'a str>)
        ensures
            match r {
                Some(t) => self@.text() == Some(t@),
                None => self@.text() is None,
            },
    {
        match self {
            Json::Text(t) => Some(t.as_str()),
            _ => None,
        }
    }

    /// The items of a list.
    pub fn as_list<'a>(&'a self) -> (r: Option<&'a Vec<Json>>)
        ensures
            match r {
                Some(v) => self@ == Doc::List(v@.map_values(|j: Json| j@)),
                None => !(self@ is List),
            },
    {
        match self {
            Json::List(v) => {
                proof {
                    lemma_docs(v@);
                }
                Some(v)
            },
            _ => None,
        }
    }

    /// The text of a field that is a string.
    pub fn get_str<'a>(&'a self, key: &str) -> (r: Option<&'a str>)
        ensures
            match r {
                Some(t) => self@.text_field(key@) == Some(t@),
                None => self@.text_field(key@) is None,
            },
    {
        match self.get(key) {
            Some(j) => j.as_str(),
            None => None,
        }
    }

    /// The items of a field that is a list.
    pub fn get_list<'a>(&'a self, key: &str) -> (r: Option<&'a Vec<Json>>)
        ensures
            match r {
                Some(v) => self@.list_field(key@) == Some(v@.map_values(|j: Json| j@)),
                None => self@.list_field(key@) is None,
            },
    {
        match self.get(key) {
            Some(j) => j.as_list(),
            None => None,
        }
    }
}

impl Clone for Json {
    fn clone(&self) -> (r: Self)
        ensures
            r@ == self@,
        decreases self,
    {
        match self {
            Json::Null => Json::Null,
            Json::Bool(b) => Json::Bool(*b),
            Json::Number(n) => Json::Number(n.clone()),
            Json::Text(t) => Json::Text(t.clone()),
            Json::List(v) => {
                let mut out: Vec<Json> = Vec::new();
                for i in 0..v.len()
                    invariant
                        *self == Json::List(*v),
                        out.len() == i,
                        forall|k: int| 0 <= k < i ==> (#[trigger] out@[k])@ == v@[k]@,
                {
                    assert(decreases_to!(*self => self->List_0));
                    assert(decreases_to!(self->List_0 => self->List_0@));
                    assert(decreases_to!(v@ => v@[i as int]));
                    let item = v[i].clone();
                    out.push(item);
                }
                proof {
                    lemma_docs(v@);
                    lemma_docs(out@);
                    assert(out@.map_values(|j: Json| j@) =~= v@.map_values(|j: Json| j@));
                }
                Json::List(out)
            },
            Json::Object(v) => {
                let mut out: Vec<(String, Json)> = Vec::new();
                for i in 0..v.len()
                    invariant
                        *self == Json::Object(*v),
                        out.len() == i,
                        forall|k: int|
                            0 <= k < i ==> (#[trigger] out@[k]).0@ == v@[k].0@ && out@[k].1@
                                == v@[k].1@,
                {
                    assert(decreases_to!(*self => self->Object_0));
                    assert(decreases_to!(self->Object_0 => self->Object_0@));
                    assert(decreases_to!(v@ => v@[i as int]));
                    assert(decreases_to!(v@[i as int] => v@[i as int].1));
                    let item = v[i].1.clone();
                    out.push((v[i].0.clone(), item));
                }
                proof {
                    lemma_doc_pairs(v@);
                    lemma_doc_pairs(out@);
                    assert(out@.map_values(|p: (String, Json)| (p.0@, p.1@)) =~= v@.map_values(
                        |p: (String, Json)| (p.0@, p.1@),
                    ));
                }
                Json::Object(out)
            },
        }
    }
}

// ---------------------------------------------------------------------------
// Making a document
// ---------------------------------------------------------------------------

impl Json {
    /// A string value.
    pub fn text(t: &str) -> (r: Json)
        ensures
            r@ == Doc::Text(t@),
    {
        Json::Text(t.to_string())
    }

    /// A whole number.
    pub fn whole(n: i64) -> (r: Json)
        ensures
            r@ == Doc::Number(number_of(n)),
    {
        Json::Number(number(n))
    }

    /// A list.
    pub fn list(items: Vec<Json>) -> (r: Json)
        ensures
            r@ == Doc::List(items@.map_values(|j: Json| j@)),
    {
        proof {
            lemma_docs(items@);
        }
        Json::List(items)
    }

    /// A list of strings.
    pub fn texts(items: &[&str]) -> (r: Json)
        ensures
            r@ == Doc::List(items@.map_values(|t: &str| Doc::Text(t@))),
    {
        let mut out: Vec<Json> = Vec::new();
        for i in 0..items.len()
            invariant
                out.len() == i,
                forall|k: int| 0 <= k < i ==> (#[trigger] out@[k])@ == Doc::Text(items@[k]@),
        {
            out.push(Json::text(items[i]));
        }
        assert(out@.map_values(|j: Json| j@) =~= items@.map_values(|t: &str| Doc::Text(t@)));
        Json::list(out)
    }

    /// An object without fields.
    pub fn empty() -> (r: Json)
        ensures
            r@ == Doc::Object(Seq::empty()),
    {
        Json::Object(Vec::new())
    }

    /// An object with one more field at its end; a value that is no object stays as it is.
    pub fn with(self, key: &str, value: Json) -> (r: Json)
        ensures
            r@ == self@.with(key@, value@),
    {
        match self {
            Json::Object(pairs) => {
                let ghost before = pairs@;
                let mut pairs = pairs;
                pairs.push((key.to_string(), value));
                proof {
                    assert(pairs@.subrange(0, pairs@.len() - 1) =~= before);
                }
                Json::Object(pairs)
            },
            other => other,
        }
    }
}

impl Doc {
    /// An object with one more field at its end.
    pub open spec fn with(self, key: Seq<char>, value: Doc) -> Doc {
        match self {
            Doc::Object(pairs) => Doc::Object(pairs.push((key, value))),
            _ => self,
        }
    }
}

/// An object without fields.
pub open spec fn object() -> Doc {
    Doc::Object(Seq::empty())
}

// ---------------------------------------------------------------------------
// Laws
// ---------------------------------------------------------------------------

proof fn lemma_put(pairs: Seq<(Seq<char>, Doc)>, key: Seq<char>, value: Doc, k: Seq<char>)
    ensures
        pair_of(put(pairs, key, value), k) == if k == key {
            Some(value)
        } else {
            pair_of(pairs, k)
        },
    decreases pairs.len(),
{
    let out = put(pairs, key, value);
    if pairs.len() == 0 || text_less(pairs.last().0, key) {
        assert(out.drop_last() =~= pairs);
    } else if pairs.last().0 == key {
        assert(out.drop_last() =~= pairs.drop_last());
    } else {
        lemma_put(pairs.drop_last(), key, value, k);
        assert(out.drop_last() =~= put(pairs.drop_last(), key, value));
    }
}

/// Storing a document keeps each field of an object: what a key holds is stored under it.
pub proof fn stored_objects_keep_their_fields(pairs: Seq<(Seq<char>, Doc)>, key: Seq<char>)
    ensures
        stored(Doc::Object(pairs)).field(key) == match Doc::Object(pairs).field(key) {
            Some(value) => Some(stored(value)),
            None => None,
        },
    decreases pairs.len(),
{
    if pairs.len() > 0 {
        let rest = pairs.subrange(0, pairs.len() - 1);
        assert(rest =~= pairs.drop_last());
        stored_objects_keep_their_fields(rest, key);
        lemma_put(stored_pairs(rest), pairs.last().0, stored(pairs.last().1), key);
    }
}

/// Adding a field sets it, and leaves every other one alone.
pub proof fn an_added_field_is_set(d: Doc, key: Seq<char>, value: Doc, k: Seq<char>)
    requires
        d is Object,
    ensures
        d.with(key, value).field(k) == if k == key {
            Some(value)
        } else {
            d.field(k)
        },
{
    assert(d->Object_0.push((key, value)).drop_last() =~= d->Object_0);
}

} // verus!
