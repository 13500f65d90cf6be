//! JSON values and their mathematical model.
use vstd::prelude::*;
use vstd::string::*;
use crate::integer::Int;

verus! {

/// Arithmetic operations, as named in error messages.
#[derive(Clone, Copy, Debug, PartialEq, Eq, Structural)]
pub enum MathOp {
    /// Addition
    Add,
    /// Subtraction
    Sub,
    /// Multiplication
    Mul,
    /// Division
    Div,
    /// Remainder
    Rem,
}

/// A number that does not fit into [`Int`]: its decimal text, and the
/// binary64 number (as bits) that the text denotes, if it parses as one.
#[derive(Debug)]
pub struct Number {
    /// The number as written, e.g. `1.5` or `1e1000`.
    pub text: String,
    /// Bits of the nearest binary64 number, `None` if the text is no float.
    pub float: Option<u64>,
}

/// A JSON value.
///
/// Numbers are distinguished into integers, floating-point numbers
/// (held as their IEEE-754 binary64 bit patterns) and numbers that fit
/// neither (held as text). Objects keep their entries in insertion order.
#[derive(Debug)]
pub enum Val {
    /// `null`
    Null,
    /// Boolean
    Bool(bool),
    /// Integer
    Int(Int),
    /// Floating-point number, as the bits of a binary64 number
    Float(u64),
    /// Floating-point number or integer not fitting into `Int`
    Num(Number),
    /// String
    Str(String),
    /// Array
    Arr(Vec<Val>),
    /// Order-preserving map
    Obj(Obj),
}

/// The entries of an object in insertion order; each key occurs at most
/// once (see [`Obj::wf`]).
#[derive(Debug)]
pub struct Obj {
    /// Key-value pairs in insertion order.
    pub(crate) entries: Vec<(String, Val)>,
}

/// Mathematical model of a JSON value.
#[verifier::ext_equal]
pub enum Json {
    Null,
    Bool(bool),
    Int(int),
    Float(u64),
    Num(Seq<char>, Option<u64>),
    Str(Seq<char>),
    Arr(Seq<Json>),
    Obj(Seq<(Seq<char>, Json)>),
}

/// Model of the entries of an object.
pub type Entries = Seq<(Seq<char>, Json)>;

impl Val {
    /// The model of the value.
    pub open(crate) spec fn model(self) -> Json
        decreases self,
    {
        match self {
            Val::Null => Json::Null,
            Val::Bool(b) => Json::Bool(b),
            Val::Int(i) => Json::Int(i@),
            Val::Float(f) => Json::Float(f),
            Val::Num(n) => Json::Num(n.text@, n.float),
            Val::Str(s) => Json::Str(s@),
            Val::Arr(a) => Json::Arr(
                Seq::new(
                    a@.len(),
                    |k: int|
                        if 0 <= k < a@.len() {
                            a@[k].model()
                        } else {
                            Json::Null
                        },
                ),
            ),
            Val::Obj(o) => Json::Obj(
                Seq::new(
                    o.entries@.len(),
                    |k: int|
                        if 0 <= k < o.entries@.len() {
                            (o.entries@[k].0@, o.entries@[k].1.model())
                        } else {
                            (Seq::empty(), Json::Null)
                        },
                ),
            ),
        }
    }
}

impl View for Val {
    type V = Json;

    open spec fn view(&self) -> Json {
        self.model()
    }
}


impl Number {
    /// A copy of the number.
    pub fn copy(&self) -> (r: Number)
        ensures
            r.text@ == self.text@,
            r.float == self.float,
    {
        Number { text: self.text.clone(), float: self.float }
    }
}

impl Val {
    /// A deep copy of the value. Every value is well-formed: its objects
    /// hold each key at most once.
    #[verifier::loop_isolation(false)]
    pub fn copy(&self) -> (r: Val)
        ensures
            r@ == self@,
            json_wf(self@),
        decreases self,
    {
        match self {
            Val::Null => Val::Null,
            Val::Bool(b) => Val::Bool(*b),
            Val::Int(i) => Val::Int(*i),
            Val::Float(f) => Val::Float(*f),
            Val::Num(n) => Val::Num(n.copy()),
            Val::Str(s) => Val::Str(s.clone()),
            Val::Arr(a) => {
                let mut out: Vec<Val> = Vec::new();
                let mut i: usize = 0;
                while i < a.len()
                    invariant
                        i <= a@.len(),
                        out@.len() == i,
                        forall|k: int| 0 <= k < i ==> (#[trigger] out@[k])@ == a@[k]@,
                        forall|k: int| 0 <= k < i ==> json_wf(#[trigger] a@[k]@),
                    decreases a@.len() - i,
                {
                    out.push(a[i].copy());
                    i = i + 1;
                }
                proof {
                    lemma_arr_model(*self);
                    assert forall|k: int| 0 <= k < self@->Arr_0.len() implies json_wf(#[trigger] self@->Arr_0[k]) by {
                        assert(self@->Arr_0[k] == a@[k]@);
                    }
                }
                let r = Val::Arr(out);
                proof {
                    let ghost rs = r@;
                    let ghost ss = self@;
                    assert(rs is Arr && ss is Arr);
                    assert(rs->Arr_0.len() == ss->Arr_0.len());
                    assert forall|k: int| 0 <= k < rs->Arr_0.len() implies rs->Arr_0[k] == ss->Arr_0[k] by {
                        assert(out@[k]@ == a@[k]@);
                    }
                    assert(rs->Arr_0 =~= ss->Arr_0);
                }
                assert(r@ =~= self@);
                r
            },
            Val::Obj(o) => {
                let mut out: Vec<(String, Val)> = Vec::new();
                let mut i: usize = 0;
                while i < o.entries.len()
                    invariant
                        i <= o.entries@.len(),
                        out@.len() == i,
                        forall|k: int|
                            0 <= k < i ==> (#[trigger] out@[k]).0@ == o.entries@[k].0@ && out@[k].1@
                                == o.entries@[k].1@,
                        forall|k: int| 0 <= k < i ==> json_wf(#[trigger] o.entries@[k].1@),
                    decreases o.entries@.len() - i,
                {
                    out.push((o.entries[i].0.clone(), o.entries[i].1.copy()));
                    i = i + 1;
                }
                proof {
                    use_type_invariant(o);
                    assert(entries_model(out@) =~= o.entries_view());
                    lemma_obj_model(*self);
                    assert forall|k: int| 0 <= k < self@->Obj_0.len() implies json_wf(#[trigger] self@->Obj_0[k].1) by {
                        assert(self@->Obj_0[k].1 == o.entries@[k].1@);
                    }
                }
                let r = Val::Obj(Obj { entries: out });
                proof {
                    let ghost rs = r@;
                    let ghost ss = self@;
                    assert(rs->Obj_0.len() == ss->Obj_0.len());
                    assert forall|k: int| 0 <= k < rs->Obj_0.len() implies rs->Obj_0[k] == ss->Obj_0[k] by {
                        assert(out@[k].1@ == o.entries@[k].1@);
                    }
                    assert(rs->Obj_0 =~= ss->Obj_0);
                }
                assert(r@ =~= self@);
                r
            },
        }
    }
}

impl Clone for Val {
    fn clone(&self) -> (r: Self)
        ensures
            r@ == self@,
    {
        self.copy()
    }
}

impl Clone for Number {
    fn clone(&self) -> (r: Self)
        ensures
            r.text@ == self.text@,
            r.float == self.float,
    {
        self.copy()
    }
}


/// Errors of the operations on values.
#[derive(Debug)]
pub enum Error {
    /// The value is not a non-negative integer.
    Nat(Val),
    /// The value is not an integer.
    Int(Val),
    /// The value cannot be an object key.
    ObjKey(Val),
    /// The value has no length.
    Length(Val),
    /// The value cannot be rounded.
    Round(Val),
    /// The bounds of a range are not both integers.
    Range,
    /// The value cannot be indexed by the key.
    Has(Val, Val),
    /// The value has no keys.
    Keys(Val),
    /// The value cannot be iterated.
    Iter(Val),
    /// The value is no string, or its text is no JSON (with the parser's message).
    FromJson(Val, Option<String>),
    /// The value is no array.
    Sort(Val),
    /// The operation is not defined on the two values.
    MathOp(Val, MathOp, Val),
    /// The value cannot be negated.
    Neg(Val),
}

/// Model of an [`Error`].
#[verifier::ext_equal]
pub enum Fault {
    Nat(Json),
    Int(Json),
    ObjKey(Json),
    Length(Json),
    Round(Json),
    Range,
    Has(Json, Json),
    Keys(Json),
    Iter(Json),
    FromJson(Json, Option<Seq<char>>),
    Sort(Json),
    MathOp(Json, MathOp, Json),
    Neg(Json),
}

impl View for Error {
    type V = Fault;

    open spec fn view(&self) -> Fault {
        match self {
            Error::Nat(v) => Fault::Nat(v@),
            Error::Int(v) => Fault::Int(v@),
            Error::ObjKey(v) => Fault::ObjKey(v@),
            Error::Length(v) => Fault::Length(v@),
            Error::Round(v) => Fault::Round(v@),
            Error::Range => Fault::Range,
            Error::Has(v, k) => Fault::Has(v@, k@),
            Error::Keys(v) => Fault::Keys(v@),
            Error::Iter(v) => Fault::Iter(v@),
            Error::FromJson(v, m) => Fault::FromJson(
                v@,
                match m {
                    Some(m) => Some(m@),
                    None => None,
                },
            ),
            Error::Sort(v) => Fault::Sort(v@),
            Error::MathOp(l, op, r) => Fault::MathOp(l@, *op, r@),
            Error::Neg(v) => Fault::Neg(v@),
        }
    }
}

/// A value or an error.
pub type ValR = Result<Val, Error>;

/// Model of a [`ValR`].
pub open spec fn valr_view(r: ValR) -> Result<Json, Fault> {
    match r {
        Ok(v) => Ok(v@),
        Err(e) => Err(e@),
    }
}

/// Models of a sequence of values.
pub open spec fn vals_view(s: Seq<Val>) -> Seq<Json> {
    Seq::new(s.len(), |k: int| s[k]@)
}

/// Model of a result holding several values.
pub open spec fn vals_res_view(r: Result<Vec<Val>, Error>) -> Result<Seq<Json>, Fault> {
    match r {
        Ok(v) => Ok(vals_view(v@)),
        Err(e) => Err(e@),
    }
}

/// The length of a sequence as an integer.
pub open spec fn len_int<A>(s: Seq<A>) -> int {
    s.len() as int
}

/// A machine index as an integer.
pub open spec fn ix(i: usize) -> int {
    i as int
}

/// Machine indices as integers.
pub open spec fn idx_seq(v: Seq<usize>) -> Seq<int> {
    Seq::new(v.len(), |i: int| v[i] as int)
}

/// What a number that does not fit into [`Int`] stands for in
/// computations: its float, or `null` if its text is no float.
pub open spec fn num_value(f: Option<u64>) -> Json {
    match f {
        Some(b) => Json::Float(b),
        None => Json::Null,
    }
}

/// Position of the first entry with key `k`, or -1 if there is none.
pub open spec fn key_pos(s: Entries, k: Seq<char>) -> int
    decreases s.len(),
{
    if s.len() == 0 {
        -1
    } else if s[0].0 == k {
        0
    } else {
        let p = key_pos(s.drop_first(), k);
        if p < 0 {
            -1
        } else {
            p + 1
        }
    }
}

/// The value of key `k`, if there is one.
pub open spec fn entry_get(s: Entries, k: Seq<char>) -> Option<Json> {
    let p = key_pos(s, k);
    if p < 0 {
        None
    } else {
        Some(s[p].1)
    }
}

/// What inserting `(k, v)` into an insertion-ordered map gives: the value
/// of an existing key is replaced in place, a new key goes last.
pub open spec fn entries_insert(s: Entries, k: Seq<char>, v: Json) -> Entries {
    let p = key_pos(s, k);
    if p < 0 {
        s.push((k, v))
    } else {
        s.update(p, (k, v))
    }
}

/// Keys of the entries.
pub open spec fn entry_keys(s: Entries) -> Seq<Seq<char>> {
    Seq::new(s.len(), |k: int| s[k].0)
}

/// No key occurs twice.
pub open spec fn keys_distinct(s: Entries) -> bool {
    forall|i: int, j: int| 0 <= i < j < s.len() ==> s[i].0 != s[j].0
}

/// `key_pos` finds the first entry with the key.
pub proof fn lemma_key_pos(s: Entries, k: Seq<char>)
    ensures
        -1 <= key_pos(s, k) < s.len(),
        key_pos(s, k) >= 0 ==> s[key_pos(s, k)].0 == k,
        forall|i: int| 0 <= i < s.len() && (i < key_pos(s, k) || key_pos(s, k) < 0) ==> s[i].0 != k,
    decreases s.len(),
{
    if s.len() > 0 && s[0].0 != k {
        lemma_key_pos(s.drop_first(), k);
        assert forall|i: int|
            0 <= i < s.len() && (i < key_pos(s, k) || key_pos(s, k) < 0) implies s[i].0 != k by {
            if i > 0 {
                assert(s[i] == s.drop_first()[i - 1]);
            }
        }
    }
}

/// Each object in the value (nested ones too) has distinct keys.
pub open spec fn json_wf(j: Json) -> bool
    decreases j,
{
    match j {
        Json::Arr(a) => forall|i: int| 0 <= i < a.len() ==> json_wf(#[trigger] a[i]),
        Json::Obj(o) => keys_distinct(o) && forall|i: int| 0 <= i < o.len() ==> json_wf(#[trigger] o[i].1),
        _ => true,
    }
}

/// True unless the value is `null` or `false`.
pub open spec fn truthy(j: Json) -> bool {
    !(j is Null || j == Json::Bool(false))
}

/// The name of the type of the value.
pub open spec fn kind_name(j: Json) -> Seq<char> {
    match j {
        Json::Null => "null"@,
        Json::Bool(_) => "boolean"@,
        Json::Int(_) | Json::Float(_) | Json::Num(..) => "number"@,
        Json::Str(_) => "string"@,
        Json::Arr(_) => "array"@,
        Json::Obj(_) => "object"@,
    }
}

/// The length of a value: 0 for null, the absolute value of numbers,
/// the number of characters, elements or entries.
pub open spec fn json_len(j: Json) -> Result<Json, Fault> {
    match j {
        Json::Null => Ok(Json::Int(0)),
        Json::Bool(_) => Err(Fault::Length(j)),
        Json::Int(i) => Ok(Json::Int(crate::integer::abs_int(i) as int)),
        Json::Num(_, f) => match f {
            Some(b) => Ok(Json::Float(crate::float::abs_bits(b))),
            None => Ok(Json::Int(0)),
        },
        Json::Float(b) => Ok(Json::Float(crate::float::abs_bits(b))),
        Json::Str(s) => Ok(Json::Int(s.len() as int)),
        Json::Arr(a) => Ok(Json::Int(a.len() as int)),
        Json::Obj(o) => Ok(Json::Int(o.len() as int)),
    }
}

/// Whether `v | .[k]` is defined.
pub open spec fn json_has(v: Json, k: Json) -> Result<bool, Fault> {
    match (v, k) {
        (Json::Null, _) => Ok(false),
        (Json::Arr(a), Json::Int(i)) if i >= 0 => Ok(i < a.len()),
        (Json::Obj(o), Json::Str(s)) => Ok(key_pos(o, s) >= 0),
        _ => Err(Fault::Has(v, k)),
    }
}

/// The keys of an array (its indices) or of an object.
pub open spec fn json_keys(v: Json) -> Result<Seq<Json>, Fault> {
    match v {
        Json::Arr(a) => Ok(Seq::new(a.len(), |i: int| Json::Int(i))),
        Json::Obj(o) => Ok(Seq::new(o.len(), |i: int| Json::Str(o[i].0))),
        _ => Err(Fault::Keys(v)),
    }
}

/// The elements of an array or the values of an object.
pub open spec fn json_values(v: Json) -> Result<Seq<Json>, Fault> {
    match v {
        Json::Arr(a) => Ok(a),
        Json::Obj(o) => Ok(Seq::new(o.len(), |i: int| o[i].1)),
        _ => Err(Fault::Iter(v)),
    }
}

/// What a number's text maps to: an integer if the text (after an
/// optional minus sign) parses as `usize`, else a [`Json::Num`].
pub open spec fn number_model(text: Seq<char>, float: Option<u64>) -> Json {
    if text.len() > 0 && text[0] == '-' {
        match crate::integer::parse_usize_spec(text.drop_first()) {
            Some(u) => Json::Int(-(u as int)),
            None => Json::Num(text, float),
        }
    } else {
        match crate::integer::parse_usize_spec(text) {
            Some(u) => Json::Int(u as int),
            None => Json::Num(text, float),
        }
    }
}


/// Model of a sequence of entries.
pub open spec fn entries_model(e: Seq<(String, Val)>) -> Entries {
    Seq::new(e.len(), |k: int| (e[k].0@, e[k].1@))
}

impl Obj {
    /// Model of the entries.
    pub open(crate) spec fn entries_view(&self) -> Entries {
        entries_model(self.entries@)
    }

    /// No key occurs twice.
    pub open spec fn wf(&self) -> bool {
        keys_distinct(self.entries_view())
    }

    /// Every object holds each key at most once.
    #[verifier::type_invariant]
    pub(crate) open spec fn keys_unique(self) -> bool {
        self.wf()
    }

    /// The empty object.
    pub fn new() -> (r: Obj)
        ensures
            r.entries_view() == Seq::<(Seq<char>, Json)>::empty(),
            r.wf(),
    {
        let r = Obj { entries: Vec::new() };
        assert(r.entries_view() =~= Seq::<(Seq<char>, Json)>::empty());
        r
    }

    /// The entries, in insertion order; no key occurs twice.
    pub fn into_entries(self) -> (r: Vec<(String, Val)>)
        ensures
            entries_model(r@) == self.entries_view(),
            keys_distinct(entries_model(r@)),
    {
        proof {
            use_type_invariant(&self);
        }
        self.entries
    }

    /// Number of entries.
    pub fn len(&self) -> (r: usize)
        ensures
            r == self.entries_view().len(),
    {
        self.entries.len()
    }

    /// Position of the entry with key `k`.
    pub fn position(&self, k: &String) -> (r: Option<usize>)
        ensures
            match r {
                Some(p) => p as int == key_pos(self.entries_view(), k@) && p < self.entries_view().len(),
                None => key_pos(self.entries_view(), k@) < 0,
            },
    {
        proof {
            lemma_key_pos(self.entries_view(), k@);
        }
        let mut i: usize = 0;
        while i < self.entries.len()
            invariant
                i <= self.entries@.len(),
                forall|j: int| 0 <= j < i ==> self.entries_view()[j].0 != k@,
                -1 <= key_pos(self.entries_view(), k@) < self.entries_view().len(),
                key_pos(self.entries_view(), k@) >= 0 ==> self.entries_view()[key_pos(
                    self.entries_view(),
                    k@,
                )].0 == k@,
                forall|j: int|
                    0 <= j < self.entries_view().len() && (j < key_pos(self.entries_view(), k@)
                        || key_pos(self.entries_view(), k@) < 0) ==> self.entries_view()[j].0
                        != k@,
            decreases self.entries@.len() - i,
        {
            if self.entries[i].0 == *k {
                assert(self.entries_view()[i as int].0 == k@);
                return Some(i);
            }
            i = i + 1;
        }
        None
    }

    /// The value of key `k`, if there is one.
    pub fn get(&self, k: &String) -> (r: Option<&Val>)
        ensures
            match r {
                Some(v) => entry_get(self.entries_view(), k@) == Some(v@),
                None => entry_get(self.entries_view(), k@) is None,
            },
    {
        match self.position(k) {
            Some(p) => Some(&self.entries[p].1),
            None => None,
        }
    }

    /// True if the object has an entry with key `k`.
    pub fn contains_key(&self, k: &String) -> (r: bool)
        ensures
            r == (key_pos(self.entries_view(), k@) >= 0),
    {
        self.position(k).is_some()
    }

    /// Insert an entry: the value of an existing key is replaced in
    /// place, a new key goes last.
    pub fn insert(&mut self, k: String, v: Val)
        ensures
            final(self).entries_view() == entries_insert(old(self).entries_view(), k@, v@),
            final(self).wf(),
    {
        proof {
            use_type_invariant(&*self);
        }
        let ghost kv = k@;
        let ghost vv = v@;
        let ghost before = self.entries_view();
        proof {
            lemma_key_pos(before, kv);
            crate::laws::law_insert_get(before, kv, vv, kv);
        }
        let pos = self.position(&k);
        let mut e: Vec<(String, Val)> = Vec::new();
        std::mem::swap(&mut e, &mut self.entries);
        assert(entries_model(e@) == before);
        match pos {
            Some(p) => {
                e.set(p, (k, v));
                assert(entries_model(e@) =~= before.update(p as int, (kv, vv)));
            },
            None => {
                e.push((k, v));
                assert(entries_model(e@) =~= before.push((kv, vv)));
            },
        }
        assert(entries_model(e@) == entries_insert(before, kv, vv));
        let r = Obj { entries: e };
        *self = r;
    }
}

/// The model of an object value is the model of its entries.
pub proof fn lemma_obj_model(v: Val)
    requires
        v is Obj,
    ensures
        v@ == Json::Obj(v->Obj_0.entries_view()),
{
    assert(v@->Obj_0 =~= v->Obj_0.entries_view());
}

/// The model of an array value holds the models of its elements.
pub proof fn lemma_arr_model(v: Val)
    requires
        v is Arr,
    ensures
        v@ == Json::Arr(vals_view(v->Arr_0@)),
{
    assert(v@->Arr_0 =~= vals_view(v->Arr_0@));
}

impl Val {
    /// True if the value is neither null nor false.
    pub fn as_bool(&self) -> (r: bool)
        ensures
            r == truthy(self@),
    {
        match self {
            Val::Null => false,
            Val::Bool(b) => *b,
            _ => true,
        }
    }

    /// If the value is a non-negative integer, return it, else fail.
    pub fn as_usize(&self) -> (r: Result<usize, Error>)
        ensures
            match self@ {
                Json::Int(i) if i >= 0 => r == Ok::<usize, Error>(i as usize),
                _ => r matches Err(e) && e@ == Fault::Nat(self@),
            },
    {
        match self {
            Val::Int(i) => {
                if i.is_positive() {
                    return Ok(i.abs());
                }
            },
            _ => {},
        }
        Err(Error::Nat(self.copy()))
    }

    /// If the value is an integer, return it, else fail.
    pub fn as_int(&self) -> (r: Result<Int, Error>)
        ensures
            match self@ {
                Json::Int(i) => r matches Ok(n) && n@ == i,
                _ => r matches Err(e) && e@ == Fault::Int(self@),
            },
    {
        match self {
            Val::Int(i) => Ok(*i),
            _ => Err(Error::Int(self.copy())),
        }
    }

    /// If the value is a string, return it, else fail.
    pub fn as_obj_key(&self) -> (r: Result<String, Error>)
        ensures
            match self@ {
                Json::Str(s) => r matches Ok(k) && k@ == s,
                _ => r matches Err(e) && e@ == Fault::ObjKey(self@),
            },
    {
        match self {
            Val::Str(s) => Ok(s.clone()),
            _ => Err(Error::ObjKey(self.copy())),
        }
    }

    /// Return 0 for null, the absolute value for numbers, and
    /// the length for strings, arrays, and objects.
    ///
    /// Fail on booleans.
    pub fn len(&self) -> (r: ValR)
        ensures
            valr_view(r) == json_len(self@),
    {
        match self {
            Val::Null => Ok(Val::Int(Int::from_usize(0))),
            Val::Bool(_) => Err(Error::Length(self.copy())),
            Val::Int(i) => Ok(Val::Int(Int::from_usize(i.abs()))),
            Val::Num(n) => match n.float {
                Some(b) => Ok(Val::Float(crate::float::absolute_bits(b))),
                None => Ok(Val::Int(Int::from_usize(0))),
            },
            Val::Float(b) => Ok(Val::Float(crate::float::absolute_bits(*b))),
            Val::Str(s) => Ok(Val::Int(Int::from_usize(s.as_str().unicode_len()))),
            Val::Arr(a) => Ok(Val::Int(Int::from_usize(a.len()))),
            Val::Obj(o) => Ok(Val::Int(Int::from_usize(o.len()))),
        }
    }

    /// Return the type of the value, e.g. "boolean" for true and false.
    pub fn typ(&self) -> (r: &'static str)
        ensures
            r@ == kind_name(self@),
    {
        proof {
            reveal_strlit("null");
            reveal_strlit("boolean");
            reveal_strlit("number");
            reveal_strlit("string");
            reveal_strlit("array");
            reveal_strlit("object");
        }
        match self {
            Val::Null => "null",
            Val::Bool(_) => "boolean",
            Val::Int(_) | Val::Float(_) | Val::Num(_) => "number",
            Val::Str(_) => "string",
            Val::Arr(_) => "array",
            Val::Obj(_) => "object",
        }
    }

    /// Return true if `value | .[key]` is defined.
    ///
    /// Fail on values that are neither null, arrays, nor objects.
    pub fn has(&self, key: &Val) -> (r: Result<bool, Error>)
        ensures
            match json_has(self@, key@) {
                Ok(b) => r == Ok::<bool, Error>(b),
                Err(f) => r matches Err(e) && e@ == f,
            },
    {
        match (self, key) {
            (Val::Null, _) => Ok(false),
            (Val::Arr(a), Val::Int(i)) if i.is_positive() => Ok(i.abs() < a.len()),
            (Val::Obj(o), Val::Str(s)) => {
                proof {
                    lemma_obj_model(*self);
                }
                Ok(o.contains_key(s))
            },
            _ => Err(Error::Has(self.copy(), key.copy())),
        }
    }

    /// Return any `key` for which `value | .[key]` is defined.
    ///
    /// Fail on values that are neither arrays nor objects.
    pub fn keys(&self) -> (r: Result<Vec<Val>, Error>)
        ensures
            vals_res_view(r) == json_keys(self@),
    {
        match self {
            Val::Arr(a) => {
                let mut out: Vec<Val> = Vec::new();
                let mut i: usize = 0;
                while i < a.len()
                    invariant
                        i <= a@.len(),
                        out@.len() == i,
                        forall|k: int| 0 <= k < i ==> (#[trigger] out@[k])@ == Json::Int(k),
                    decreases a@.len() - i,
                {
                    out.push(Val::Int(Int::from_usize(i)));
                    i = i + 1;
                }
                proof {
                    lemma_arr_model(*self);
                    assert(vals_view(out@) =~= json_keys(self@)->Ok_0);
                }
                Ok(out)
            },
            Val::Obj(o) => {
                let mut out: Vec<Val> = Vec::new();
                let mut i: usize = 0;
                while i < o.entries.len()
                    invariant
                        i <= o.entries@.len(),
                        out@.len() == i,
                        forall|k: int|
                            0 <= k < i ==> (#[trigger] out@[k])@ == Json::Str(o.entries@[k].0@),
                    decreases o.entries@.len() - i,
                {
                    out.push(Val::Str(o.entries[i].0.clone()));
                    i = i + 1;
                }
                proof {
                    lemma_obj_model(*self);
                    assert(vals_view(out@) =~= json_keys(self@)->Ok_0);
                }
                Ok(out)
            },
            _ => Err(Error::Keys(self.copy())),
        }
    }

    /// Return the elements of an array or the values of an object (omitting its keys).
    ///
    /// Fail on any other value.
    pub fn iter(&self) -> (r: Result<Vec<Val>, Error>)
        ensures
            vals_res_view(r) == json_values(self@),
    {
        match self {
            Val::Arr(a) => {
                let mut out: Vec<Val> = Vec::new();
                let mut i: usize = 0;
                while i < a.len()
                    invariant
                        i <= a@.len(),
                        out@.len() == i,
                        forall|k: int| 0 <= k < i ==> (#[trigger] out@[k])@ == a@[k]@,
                    decreases a@.len() - i,
                {
                    out.push(a[i].copy());
                    i = i + 1;
                }
                proof {
                    if let Json::Arr(m) = self@ {
                        assert(vals_view(out@) =~= m);
                    }
                }
                Ok(out)
            },
            Val::Obj(o) => {
                let mut out: Vec<Val> = Vec::new();
                let mut i: usize = 0;
                while i < o.entries.len()
                    invariant
                        i <= o.entries@.len(),
                        out@.len() == i,
                        forall|k: int| 0 <= k < i ==> (#[trigger] out@[k])@ == o.entries@[k].1@,
                    decreases o.entries@.len() - i,
                {
                    out.push(o.entries[i].1.copy());
                    i = i + 1;
                }
                proof {
                    if let Json::Obj(m) = self@ {
                        assert(vals_view(out@) =~= Seq::new(m.len(), |k: int| m[k].1));
                    }
                }
                Ok(out)
            },
            _ => Err(Error::Iter(self.copy())),
        }
    }

    /// The value of a number from its text: an integer if the text (after
    /// an optional minus sign) parses as `usize`, else a [`Val::Num`]
    /// holding the text and the float it denotes.
    pub fn from_number(text: String, float: Option<u64>) -> (r: Val)
        ensures
            r@ == number_model(text@, float),
    {
        let n = text.as_str().unicode_len();
        if n > 0 && text.as_str().get_char(0) == '-' {
            let rest = text.as_str().substring_char(1, n);
            assert(rest@ =~= text@.drop_first());
            match crate::integer::parse_usize(rest) {
                Some(u) => Val::Int(Int::from_usize(u).negate()),
                None => Val::Num(Number { text, float }),
            }
        } else {
            match crate::integer::parse_usize(text.as_str()) {
                Some(u) => Val::Int(Int::from_usize(u)),
                None => Val::Num(Number { text, float }),
            }
        }
    }

    /// Return all numbers in the range `[self, other)` if both inputs are integer, else fail.
    pub fn range(&self, other: &Val) -> (r: Result<IntRange, Error>)
        ensures
            match (self@, other@) {
                (Json::Int(x), Json::Int(y)) => r matches Ok(it) && it.next@ == x && it.end@ == y,
                _ => r matches Err(e) && e@ == Fault::Range,
            },
    {
        match (self, other) {
            (Val::Int(x), Val::Int(y)) => Ok(IntRange { next: *x, end: *y }),
            _ => Err(Error::Range),
        }
    }
}

impl Number {
    /// The value that the number stands for in computations: its float,
    /// or `null` if its text is no float.
    pub fn to_val(&self) -> (r: Val)
        ensures
            r@ == num_value(self.float),
    {
        match self.float {
            Some(b) => Val::Float(b),
            None => Val::Null,
        }
    }
}

/// The integers `next, next + 1, ...` below `end`, produced one at a time.
pub struct IntRange {
    /// The next integer to produce.
    pub next: Int,
    /// The first integer not to produce.
    pub end: Int,
}

impl IntRange {
    /// Produce the next integer of the range, if any.
    pub fn next_val(&mut self) -> (r: Option<Val>)
        ensures
            old(self).next@ < old(self).end@ ==> (r matches Some(v) && v@ == Json::Int(
                old(self).next@,
            ) && final(self).next@ == old(self).next@ + 1 && final(self).end@ == old(self).end@),
            old(self).next@ >= old(self).end@ ==> r is None && final(self).next@ == old(self).next@
                && final(self).end@ == old(self).end@,
    {
        if self.next.less(&self.end) {
            let v = self.next;
            proof {
                self.end.lemma_fits();
                self.next.lemma_fits();
            }
            self.next = self.next.plus(&Int::from_usize(1));
            Some(Val::Int(v))
        } else {
            None
        }
    }
}
} // verus!
