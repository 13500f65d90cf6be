//! JSON text: parsing it into a tree that mirrors the parser's values,
//! and turning that tree into a value.
use vstd::prelude::*;
use crate::integer::Int;
use crate::val::{Json, Val, Obj, Error, Fault, ValR, Entries, number_model, vals_view, lemma_arr_model, lemma_obj_model, entries_insert};

verus! {

#[verifier::external_type_specification]
#[verifier::external_body]
pub struct ExValue(serde_json::Value);

/// A JSON value as the parser gives it: numbers as their decimal text
/// together with the binary64 number they denote (as bits), objects as
/// their entries in the parser's order.
#[derive(Debug)]
pub enum Raw {
    /// `null`
    Null,
    /// Boolean
    Bool(bool),
    /// Number: its text and the bits of the float it denotes
    Number(String, Option<u64>),
    /// String
    String(String),
    /// Array
    Array(Vec<Raw>),
    /// Object
    Object(Vec<(String, Raw)>),
}

/// Model of a [`Raw`] value.
pub enum RawModel {
    Null,
    Bool(bool),
    Number(Seq<char>, Option<u64>),
    String(Seq<char>),
    Array(Seq<RawModel>),
    Object(Seq<(Seq<char>, RawModel)>),
}

impl Raw {
    /// The model of the tree.
    pub open spec fn model(self) -> RawModel
        decreases self,
    {
        match self {
            Raw::Null => RawModel::Null,
            Raw::Bool(b) => RawModel::Bool(b),
            Raw::Number(t, f) => RawModel::Number(t@, f),
            Raw::String(s) => RawModel::String(s@),
            Raw::Array(a) => RawModel::Array(
                Seq::new(
                    a@.len(),
                    |k: int|
                        if 0 <= k < a@.len() {
                            a@[k].model()
                        } else {
                            RawModel::Null
                        },
                ),
            ),
            Raw::Object(o) => RawModel::Object(
                Seq::new(
                    o@.len(),
                    |k: int|
                        if 0 <= k < o@.len() {
                            (o@[k].0@, o@[k].1.model())
                        } else {
                            (Seq::empty(), RawModel::Null)
                        },
                ),
            ),
        }
    }
}

impl View for Raw {
    type V = RawModel;

    open spec fn view(&self) -> RawModel {
        self.model()
    }
}

/// What `serde_json::from_str` makes of a text: a tree, or the parser's
/// error message.
pub uninterp spec fn parsed_json(text: Seq<char>) -> Result<RawModel, Seq<char>>;

/// Model of a parse result.
pub open spec fn raw_result_view(r: Result<Raw, String>) -> Result<RawModel, Seq<char>> {
    match r {
        Ok(t) => Ok(t@),
        Err(m) => Err(m@),
    }
}

/// The value of a tree: numbers as [`number_model`] makes them, objects
/// built by inserting their entries one after the other.
pub open spec fn raw_to_json(r: RawModel) -> Json
    decreases r, 0int,
{
    match r {
        RawModel::Null => Json::Null,
        RawModel::Bool(b) => Json::Bool(b),
        RawModel::Number(t, f) => number_model(t, f),
        RawModel::String(s) => Json::Str(s),
        RawModel::Array(a) => Json::Arr(raw_elems(a, a.len() as int)),
        RawModel::Object(o) => Json::Obj(raw_entries(o, o.len() as int)),
    }
}

/// The values of the first `n` elements.
pub open spec fn raw_elems(a: Seq<RawModel>, n: int) -> Seq<Json>
    decreases a, n,
{
    if n <= 0 || n > a.len() {
        Seq::empty()
    } else {
        raw_elems(a, n - 1).push(raw_to_json(a[n - 1]))
    }
}

/// The entries made by inserting the first `n` entries of `o` one after
/// the other (an existing key keeps its place and gets the new value).
pub open spec fn raw_entries(o: Seq<(Seq<char>, RawModel)>, n: int) -> Entries
    decreases o, n,
{
    if n <= 0 || n > o.len() {
        Seq::empty()
    } else {
        entries_insert(raw_entries(o, n - 1), o[n - 1].0, raw_to_json(o[n - 1].1))
    }
}

/// The tree of a value of `serde_json`, variant by variant.
#[verifier::external_body]
fn raw_of_value(v: serde_json::Value) -> Raw {
    match v {
        serde_json::Value::Null => Raw::Null,
        serde_json::Value::Bool(b) => Raw::Bool(b),
        serde_json::Value::Number(n) => Raw::Number(n.to_string(), n.as_f64().map(|x| x.to_bits())),
        serde_json::Value::String(s) => Raw::String(s),
        serde_json::Value::Array(a) => Raw::Array(a.into_iter().map(raw_of_value).collect()),
        serde_json::Value::Object(o) => Raw::Object(o.into_iter().map(|(k, x)| (k, raw_of_value(x))).collect()),
    }
}

/// Parse JSON text with `serde_json::from_str` into a `serde_json::Value`
/// and give its tree, or the parser's error message. The result depends
/// on the text alone; its content is named [`parsed_json`].
#[verifier::external_body]
fn parse_json(text: &str) -> (r: Result<Raw, String>)
    ensures
        raw_result_view(r) == parsed_json(text@),
{
    serde_json::from_str::<serde_json::Value>(text).map(raw_of_value).map_err(|e| e.to_string())
}

impl Val {
    /// The value of a tree, see [`raw_to_json`].
    #[verifier::loop_isolation(false)]
    pub fn from_raw(r: &Raw) -> (v: Val)
        ensures
            v@ == raw_to_json(r@),
        decreases r,
    {
        match r {
            Raw::Null => Val::Null,
            Raw::Bool(b) => Val::Bool(*b),
            Raw::Number(t, f) => Val::from_number(t.clone(), *f),
            Raw::String(s) => Val::Str(s.clone()),
            Raw::Array(a) => {
                let ghost m = r@->Array_0;
                let mut out: Vec<Val> = Vec::new();
                let mut i: usize = 0;
                while i < a.len()
                    invariant
                        i <= a@.len(),
                        m.len() == a@.len(),
                        forall|k: int| 0 <= k < a@.len() ==> #[trigger] m[k] == a@[k]@,
                        vals_view(out@) == raw_elems(m, i as int),
                    decreases a@.len() - i,
                {
                    let x = Val::from_raw(&a[i]);
                    assert(m[i as int] == a@[i as int]@);
                    let ghost before = vals_view(out@);
                    out.push(x);
                    assert(vals_view(out@) =~= before.push(x@));
                    i = i + 1;
                }
                let v = Val::Arr(out);
                proof {
                    lemma_arr_model(v);
                }
                v
            },
            Raw::Object(o) => {
                let ghost m = r@->Object_0;
                let mut out = Obj::new();
                let mut i: usize = 0;
                while i < o.len()
                    invariant
                        i <= o@.len(),
                        m.len() == o@.len(),
                        forall|k: int| 0 <= k < o@.len() ==> #[trigger] m[k] == (o@[k].0@, o@[k].1@),
                        out.entries_view() == raw_entries(m, i as int),
                    decreases o@.len() - i,
                {
                    let x = Val::from_raw(&o[i].1);
                    assert(m[i as int] == (o@[i as int].0@, o@[i as int].1@));
                    out.insert(o[i].0.clone(), x);
                    i = i + 1;
                }
                let v = Val::Obj(out);
                proof {
                    lemma_obj_model(v);
                }
                v
            },
        }
    }

    /// Convert a string holding JSON text to the value it denotes,
    /// parsing it with `serde_json`; a text that does not parse gives the
    /// parser's error message.
    ///
    /// Fail on any other value.
    pub fn from_json(self) -> (r: ValR)
        ensures
            match self@ {
                Json::Str(s) => match parsed_json(s) {
                    Ok(t) => r matches Ok(v) && v@ == raw_to_json(t),
                    Err(m) => r matches Err(e) && e@ == Fault::FromJson(self@, Some(m)),
                },
                _ => r matches Err(e) && e@ == Fault::FromJson(self@, None),
            },
    {
        let parsed = match &self {
            Val::Str(s) => Some(parse_json(s.as_str())),
            _ => None,
        };
        match parsed {
            Some(Ok(t)) => Ok(Val::from_raw(&t)),
            Some(Err(m)) => Err(Error::FromJson(self, Some(m))),
            None => Err(Error::FromJson(self, None)),
        }
    }
}

} // verus!
