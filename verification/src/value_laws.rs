//! What the operations on values do, stated directly in terms of their
//! inputs: the order of kinds and of numbers, which operands reach the
//! float function, how numbers held as text behave, lengths, keys, and
//! what containment and parsing give.
use vstd::prelude::*;
use std::cmp::Ordering;
use vstd::arithmetic::div_mod::lemma_fundamental_div_mod;
use crate::float::{int_f64_bits, f64_bits_to_usize};
use crate::integer::{trunc_div, trunc_rem, parse_usize_spec, unsigned_body, is_digit};
use crate::order::{json_order, json_eq, bytes_order, elems_order};
use crate::ops::{Step, add_step, sub_step, mul_step, div_step, rem_step, json_neg, round_input, rounded_int};
use crate::val::{
    Json, Fault, MathOp, json_len, json_keys, json_values, json_has, truthy, kind_name, keys_distinct,
    key_pos, lemma_key_pos, number_model,
};
use crate::contain::{json_contains, contained_in_some, is_infix};
use crate::raw::{RawModel, raw_to_json, raw_elems, raw_entries};
use vstd::utf8::encode_utf8;

verus! {

/// `false` comes before `true`, and two booleans are equal in the order
/// exactly when they are equal.
pub proof fn law_bool_order(a: bool, b: bool)
    ensures
        (json_order(Json::Bool(a), Json::Bool(b)) == Ordering::Less) == (!a && b),
        (json_order(Json::Bool(a), Json::Bool(b)) == Ordering::Equal) == (a == b),
        (json_order(Json::Bool(a), Json::Bool(b)) == Ordering::Greater) == (a && !b),
{
}

/// Values of different kinds are ordered null < booleans < numbers <
/// strings < arrays < objects.
pub proof fn law_kind_order(
    b: bool,
    i: int,
    f: u64,
    s: Seq<char>,
    a: Seq<Json>,
    o: Seq<(Seq<char>, Json)>,
)
    ensures
        json_order(Json::Null, Json::Null) == Ordering::Equal,
        json_order(Json::Null, Json::Bool(b)) == Ordering::Less,
        json_order(Json::Bool(b), Json::Int(i)) == Ordering::Less,
        json_order(Json::Bool(b), Json::Float(f)) == Ordering::Less,
        json_order(Json::Int(i), Json::Str(s)) == Ordering::Less,
        json_order(Json::Float(f), Json::Str(s)) == Ordering::Less,
        json_order(Json::Str(s), Json::Arr(a)) == Ordering::Less,
        json_order(Json::Arr(a), Json::Obj(o)) == Ordering::Less,
        json_order(Json::Obj(o), Json::Null) == Ordering::Greater,
{
}

/// Integers are ordered by value.
pub proof fn law_int_order(x: int, y: int)
    ensures
        (json_order(Json::Int(x), Json::Int(y)) == Ordering::Less) == (x < y),
        (json_order(Json::Int(x), Json::Int(y)) == Ordering::Equal) == (x == y),
        (json_order(Json::Int(x), Json::Int(y)) == Ordering::Greater) == (x > y),
{
}

/// Floats are ordered by the IEEE total order on their bits, except that
/// +0 and -0 are equal: non-negative bit patterns by their size, negative
/// ones (sign bit set) by the reverse of their size, and negative ones
/// before non-negative ones.
pub proof fn law_float_order(x: u64, y: u64)
    ensures
        ({
            let zx = x == 0 || x == 0x8000_0000_0000_0000;
            let zy = y == 0 || y == 0x8000_0000_0000_0000;
            let o = json_order(Json::Float(x), Json::Float(y));
            &&& zx && zy ==> o == Ordering::Equal
            &&& !(zx && zy) && x < 0x8000_0000_0000_0000 && y < 0x8000_0000_0000_0000 ==> o == (if x < y {
                Ordering::Less
            } else if x == y {
                Ordering::Equal
            } else {
                Ordering::Greater
            })
            &&& !(zx && zy) && x >= 0x8000_0000_0000_0000 && y >= 0x8000_0000_0000_0000 ==> o == (if x > y {
                Ordering::Less
            } else if x == y {
                Ordering::Equal
            } else {
                Ordering::Greater
            })
            &&& !(zx && zy) && x >= 0x8000_0000_0000_0000 && y < 0x8000_0000_0000_0000 ==> o
                == Ordering::Less
        }),
{
}

/// The binary64 bits that a number takes part in float arithmetic with.
pub open spec fn float_operand(a: Json) -> u64 {
    match a {
        Json::Int(i) => int_f64_bits(i),
        Json::Float(x) => x,
        _ => 0,
    }
}

/// An operation on two numbers that are not both integers is performed
/// by the float function on their floats: for `-`, `/` and `%` the left
/// operand first, for `+` and `*` the float operand first.
pub proof fn law_float_operands(a: Json, b: Json)
    requires
        a is Int || a is Float,
        b is Int || b is Float,
        !(a is Int && b is Int),
    ensures
        sub_step(a, b) == Step::Float(MathOp::Sub, float_operand(a), float_operand(b)),
        div_step(a, b) == Step::Float(MathOp::Div, float_operand(a), float_operand(b)),
        rem_step(a, b) == Step::Float(MathOp::Rem, float_operand(a), float_operand(b)),
        add_step(a, b) == (if a is Float {
            Step::Float(MathOp::Add, float_operand(a), float_operand(b))
        } else {
            Step::Float(MathOp::Add, float_operand(b), float_operand(a))
        }),
        mul_step(a, b) == (if a is Float {
            Step::Float(MathOp::Mul, float_operand(a), float_operand(b))
        } else {
            Step::Float(MathOp::Mul, float_operand(b), float_operand(a))
        }),
{
}

/// What a number held as text stands for: its float, or `null` if it has none.
pub open spec fn text_number_value(g: Option<u64>) -> Json {
    match g {
        Some(x) => Json::Float(x),
        None => Json::Null,
    }
}

/// A number held as text behaves in arithmetic, negation, rounding,
/// length and the order as its float does (as `null` if it has none).
pub proof fn law_text_number_as_float(t: Seq<char>, g: Option<u64>, b: Json)
    ensures
        !(b is Null) ==> add_step(Json::Num(t, g), b) == add_step(text_number_value(g), b),
        !(b is Null || b is Num) ==> add_step(b, Json::Num(t, g)) == add_step(b, text_number_value(g)),
        sub_step(Json::Num(t, g), b) == sub_step(text_number_value(g), b),
        sub_step(b, Json::Num(t, g)) == sub_step(b, text_number_value(g)),
        mul_step(Json::Num(t, g), b) == mul_step(text_number_value(g), b),
        mul_step(b, Json::Num(t, g)) == mul_step(b, text_number_value(g)),
        div_step(Json::Num(t, g), b) == div_step(text_number_value(g), b),
        div_step(b, Json::Num(t, g)) == div_step(b, text_number_value(g)),
        rem_step(Json::Num(t, g), b) == rem_step(text_number_value(g), b),
        rem_step(b, Json::Num(t, g)) == rem_step(b, text_number_value(g)),
        json_order(Json::Num(t, g), b) == json_order(text_number_value(g), b),
        json_order(b, Json::Num(t, g)) == json_order(b, text_number_value(g)),
        json_neg(Json::Num(t, g)) == (match g {
            Some(x) => json_neg(Json::Float(x)),
            None => Err(Fault::Neg(Json::Null)),
        }),
        json_len(Json::Num(t, g)) == json_len(text_number_value(g)),
        round_input(Json::Num(t, g)) == g,
{
    let n = Json::Num(t, g);
    let v = text_number_value(g);
    if let Json::Num(_, h) = b {
        let w = text_number_value(h);
        assert(sub_step(b, n) == sub_step(w, n));
        assert(sub_step(b, v) == sub_step(w, v));
        assert(mul_step(b, n) == mul_step(w, n));
        assert(mul_step(b, v) == mul_step(w, v));
        assert(div_step(b, n) == div_step(w, n));
        assert(div_step(b, v) == div_step(w, v));
        assert(rem_step(b, n) == rem_step(w, n));
        assert(rem_step(b, v) == rem_step(w, v));
    }
}

/// Rounding takes floats, and only floats, to the rounding function.
pub proof fn law_round_input(a: Json)
    ensures
        round_input(a) == (match a {
            Json::Float(x) => Some(x),
            Json::Num(_, g) => g,
            _ => None,
        }),
{
}

/// The quotient of two integers is rounded toward zero, and the
/// remainder is what is left: it has the sign of the dividend and is
/// smaller than the divisor in size.
pub proof fn law_trunc_div_rem(x: int, y: int)
    requires
        y != 0,
    ensures
        trunc_div(x, y) * y + trunc_rem(x, y) == x,
        (if trunc_rem(x, y) < 0 { -trunc_rem(x, y) } else { trunc_rem(x, y) }) < (if y < 0 {
            -y
        } else {
            y
        }),
        trunc_rem(x, y) == 0 || ((trunc_rem(x, y) < 0) == (x < 0)),
        (trunc_div(x, y) < 0) ==> ((x < 0) != (y < 0)),
{
    let a = if x < 0 { -x } else { x };
    let b = if y < 0 { -y } else { y };
    lemma_fundamental_div_mod(a, b);
    let q = a / b;
    let r = a % b;
    assert(0 <= r < b);
    assert(trunc_div(x, y) * y + trunc_rem(x, y) == x) by (nonlinear_arith)
        requires
            a == b * q + r,
            a == (if x < 0 { -x } else { x }),
            b == (if y < 0 { -y } else { y }),
            trunc_div(x, y) == (if (x < 0) != (y < 0) { -q } else { q }),
            trunc_rem(x, y) == (if x < 0 { -r } else { r }),
    ;
}

/// Negation: of an integer its negative, of a float the same bits with
/// the sign bit flipped; anything else cannot be negated.
pub proof fn law_neg(a: Json)
    ensures
        a is Int ==> json_neg(a) == Ok::<Json, Fault>(Json::Int(-a->Int_0)),
        a is Float ==> json_neg(a) == Ok::<Json, Fault>(
            Json::Float(
                if a->Float_0 < 0x8000_0000_0000_0000 {
                    (a->Float_0 + 0x8000_0000_0000_0000) as u64
                } else {
                    (a->Float_0 - 0x8000_0000_0000_0000) as u64
                },
            ),
        ),
        !(a is Int || a is Float || a is Num) ==> json_neg(a) == Err::<Json, Fault>(Fault::Neg(a)),
{
}

/// Lengths: 0 for null, the size of integers, the float with its sign
/// bit cleared, the number of characters, elements or entries; booleans
/// have none.
pub proof fn law_len(a: Json)
    ensures
        a is Null ==> json_len(a) == Ok::<Json, Fault>(Json::Int(0)),
        a is Bool ==> json_len(a) == Err::<Json, Fault>(Fault::Length(a)),
        a is Int ==> json_len(a) == Ok::<Json, Fault>(
            Json::Int(if a->Int_0 < 0 { -a->Int_0 } else { a->Int_0 }),
        ),
        a is Float ==> json_len(a) == Ok::<Json, Fault>(
            Json::Float(
                if a->Float_0 >= 0x8000_0000_0000_0000 {
                    (a->Float_0 - 0x8000_0000_0000_0000) as u64
                } else {
                    a->Float_0
                },
            ),
        ),
        a is Str ==> json_len(a) == Ok::<Json, Fault>(Json::Int(a->Str_0.len() as int)),
        a is Arr ==> json_len(a) == Ok::<Json, Fault>(Json::Int(a->Arr_0.len() as int)),
        a is Obj ==> json_len(a) == Ok::<Json, Fault>(Json::Int(a->Obj_0.len() as int)),
{
}

/// The keys of an array are its indices `0, 1, ...`, those of an object
/// its keys in order; the values of an array are its elements, those of
/// an object its values in order; other values have neither.
pub proof fn law_keys_values(a: Json, i: int)
    ensures
        a is Arr ==> json_keys(a) is Ok && json_keys(a)->Ok_0.len() == a->Arr_0.len() && json_values(a)
            == Ok::<Seq<Json>, Fault>(a->Arr_0),
        a is Arr && 0 <= i < a->Arr_0.len() ==> json_keys(a)->Ok_0[i] == Json::Int(i),
        a is Obj ==> json_keys(a) is Ok && json_keys(a)->Ok_0.len() == a->Obj_0.len() && json_values(
            a,
        ) is Ok && json_values(a)->Ok_0.len() == a->Obj_0.len(),
        a is Obj && 0 <= i < a->Obj_0.len() ==> json_keys(a)->Ok_0[i] == Json::Str(a->Obj_0[i].0)
            && json_values(a)->Ok_0[i] == a->Obj_0[i].1,
        !(a is Arr || a is Obj) ==> json_keys(a) == Err::<Seq<Json>, Fault>(Fault::Keys(a))
            && json_values(a) == Err::<Seq<Json>, Fault>(Fault::Iter(a)),
{
}

/// `null` has no key; an array has the indices below its length; an
/// object has the keys of its entries.
pub proof fn law_has(a: Json, k: Json)
    ensures
        a is Null ==> json_has(a, k) == Ok::<bool, Fault>(false),
        a is Arr && k is Int && k->Int_0 >= 0 ==> json_has(a, k) == Ok::<bool, Fault>(
            k->Int_0 < a->Arr_0.len(),
        ),
        a is Obj && k is Str ==> json_has(a, k) == Ok::<bool, Fault>(
            exists|j: int| 0 <= j < a->Obj_0.len() && #[trigger] a->Obj_0[j].0 == k->Str_0,
        ),
{
    if let (Json::Obj(o), Json::Str(s)) = (a, k) {
        crate::val::lemma_key_pos(o, s);
        let p = crate::val::key_pos(o, s);
        if p >= 0 {
            assert(o[p].0 == s);
        }
    }
}

/// Only `null` and `false` are false.
pub proof fn law_truthy(a: Json)
    ensures
        truthy(a) == !(a is Null || a == Json::Bool(false)),
        truthy(Json::Bool(true)),
        !truthy(Json::Null),
        !truthy(Json::Bool(false)),
{
}

/// The names of the kinds of values.
pub proof fn law_kind_names(b: bool, i: int, f: u64, t: Seq<char>, g: Option<u64>, s: Seq<char>, a: Seq<Json>, o: Seq<(Seq<char>, Json)>)
    ensures
        kind_name(Json::Null) == "null"@,
        kind_name(Json::Bool(b)) == "boolean"@,
        kind_name(Json::Int(i)) == "number"@,
        kind_name(Json::Float(f)) == "number"@,
        kind_name(Json::Num(t, g)) == "number"@,
        kind_name(Json::Str(s)) == "string"@,
        kind_name(Json::Arr(a)) == "array"@,
        kind_name(Json::Obj(o)) == "object"@,
{
}

/// Adding strings or arrays puts the right-hand one after the left-hand one.
pub proof fn law_add_concatenates(x: Seq<char>, y: Seq<char>, a: Seq<Json>, b: Seq<Json>)
    ensures
        add_step(Json::Str(x), Json::Str(y)) == Step::Value(Json::Str(x + y)),
        add_step(Json::Arr(a), Json::Arr(b)) == Step::Value(Json::Arr(a + b)),
        (add_step(Json::Str(x), Json::Str(y))->Value_0)->Str_0.len() == x.len() + y.len(),
{
}

proof fn lemma_contained_in_some_exists(l: Seq<Json>, x: Json, n: int)
    requires
        0 <= n <= l.len(),
    ensures
        contained_in_some(l, x, n) == exists|i: int| 0 <= i < n && json_contains(#[trigger] l[i], x),
    decreases n,
{
    if n > 0 {
        lemma_contained_in_some_exists(l, x, n - 1);
        if json_contains(l[n - 1], x) {
            assert(0 <= n - 1 < n && json_contains(l[n - 1], x));
        }
    }
}

proof fn lemma_arr_contains_elem(l: Seq<Json>, r: Seq<Json>, j: int)
    requires
        json_contains(Json::Arr(l), Json::Arr(r)),
        0 <= j < r.len(),
    ensures
        contained_in_some(l, r[j], crate::val::len_int(l)),
{
    assert(Json::Arr(r)->Arr_0 == r);
    assert(Json::Arr(l)->Arr_0 == l);
}

proof fn lemma_arr_contains_all(l: Seq<Json>, r: Seq<Json>)
    requires
        forall|j: int| 0 <= j < r.len() ==> contained_in_some(l, #[trigger] r[j], crate::val::len_int(l)),
    ensures
        json_contains(Json::Arr(l), Json::Arr(r)),
{
}

/// Some element of `l` contains `x`.
pub open spec fn in_some_element(l: Seq<Json>, x: Json) -> bool {
    exists|i: int| 0 <= i < l.len() && json_contains(#[trigger] l[i], x)
}

/// An array contains an array when every element of the second is
/// contained in some element of the first.
pub proof fn law_array_contains(l: Seq<Json>, r: Seq<Json>)
    ensures
        json_contains(Json::Arr(l), Json::Arr(r)) == (forall|j: int|
            0 <= j < r.len() ==> #[trigger] in_some_element(l, r[j])),
{
    assert forall|j: int| 0 <= j < r.len() implies contained_in_some(l, r[j], crate::val::len_int(l))
        == #[trigger] in_some_element(l, r[j]) by {
        lemma_contained_in_some_exists(l, r[j], l.len() as int);
    }
    if json_contains(Json::Arr(l), Json::Arr(r)) {
        assert forall|j: int| 0 <= j < r.len() implies #[trigger] in_some_element(l, r[j]) by {
            lemma_arr_contains_elem(l, r, j);
        }
    }
    if forall|j: int| 0 <= j < r.len() ==> #[trigger] in_some_element(l, r[j]) {
        assert forall|j: int| 0 <= j < r.len() implies contained_in_some(l, #[trigger] r[j], crate::val::len_int(l)) by {
            assert(in_some_element(l, r[j]));
        }
        lemma_arr_contains_all(l, r);
    }
}

/// An object (whose keys are distinct) contains an object when every
/// entry of the second has an entry with the same key in the first whose
/// value contains its value.
pub proof fn law_object_contains(l: Seq<(Seq<char>, Json)>, r: Seq<(Seq<char>, Json)>)
    requires
        keys_distinct(l),
    ensures
        json_contains(Json::Obj(l), Json::Obj(r)) == (forall|j: int|
            #![trigger r[j]]
            0 <= j < r.len() ==> exists|i: int|
                0 <= i < l.len() && #[trigger] l[i].0 == r[j].0 && json_contains(l[i].1, r[j].1)),
{
    assert forall|j: int| 0 <= j < r.len() implies ({
        let p = key_pos(l, (#[trigger] r[j]).0);
        0 <= p < l.len() && json_contains(l[p].1, r[j].1)
    }) == (exists|i: int| 0 <= i < l.len() && #[trigger] l[i].0 == r[j].0 && json_contains(l[i].1, r[j].1)) by {
        let k = r[j].0;
        lemma_key_pos(l, k);
        let p = key_pos(l, k);
        if p >= 0 {
            assert(l[p].0 == k);
        }
        if exists|i: int| 0 <= i < l.len() && #[trigger] l[i].0 == k && json_contains(l[i].1, r[j].1) {
            let i = choose|i: int| 0 <= i < l.len() && #[trigger] l[i].0 == k && json_contains(l[i].1, r[j].1);
            assert(p >= 0);
            assert(p == i);
        }
    }
    assert(Json::Obj(r)->Obj_0 == r);
    assert(Json::Obj(l)->Obj_0 == l);
    if json_contains(Json::Obj(l), Json::Obj(r)) {
        assert forall|j: int| #![trigger r[j]] 0 <= j < r.len() implies exists|i: int|
            0 <= i < l.len() && #[trigger] l[i].0 == r[j].0 && json_contains(l[i].1, r[j].1) by {
            let p = key_pos(l, r[j].0);
            assert(0 <= p < l.len() && json_contains(l[p].1, r[j].1));
        }
    }
    if forall|j: int|
        #![trigger r[j]]
        0 <= j < r.len() ==> exists|i: int|
            0 <= i < l.len() && #[trigger] l[i].0 == r[j].0 && json_contains(l[i].1, r[j].1) {
        assert forall|j: int| 0 <= j < r.len() implies {
            let p = key_pos(l, (#[trigger] r[j]).0);
            0 <= p < l.len() && json_contains(l[p].1, r[j].1)
        } by {
            assert(exists|i: int| 0 <= i < l.len() && #[trigger] l[i].0 == r[j].0 && json_contains(l[i].1, r[j].1));
        }
    }
}

/// The bytes `y` occur in `x` from position `i` on.
pub open spec fn occurs_at(x: Seq<u8>, y: Seq<u8>, i: int) -> bool {
    0 <= i && i + y.len() <= x.len() && forall|k: int| 0 <= k < y.len() ==> #[trigger] x[i + k] == y[k]
}

/// A string contains a string when the bytes of the second occur, one
/// after the other, somewhere in the bytes of the first.
pub proof fn law_string_contains(a: Seq<char>, b: Seq<char>)
    ensures
        json_contains(Json::Str(a), Json::Str(b)) == (exists|i: int|
            #[trigger] occurs_at(encode_utf8(a), encode_utf8(b), i)),
{
    let x = encode_utf8(a);
    let y = encode_utf8(b);
    if is_infix(y, x) {
        let i = choose|i: int| 0 <= i <= x.len() - y.len() && #[trigger] x.subrange(i, i + y.len()) == y;
        assert forall|k: int| 0 <= k < y.len() implies #[trigger] x[i + k] == y[k] by {
            assert(x.subrange(i, i + y.len())[k] == x[i + k]);
        }
        assert(occurs_at(x, y, i));
    }
    if exists|i: int| #[trigger] occurs_at(x, y, i) {
        let i = choose|i: int| #[trigger] occurs_at(x, y, i);
        assert(x.subrange(i, i + y.len()) =~= y) by {
            assert forall|k: int| 0 <= k < y.len() implies x.subrange(i, i + y.len())[k] == y[k] by {
                assert(x[i + k] == y[k]);
            }
        }
        assert(is_infix(y, x));
    }
}

proof fn lemma_raw_elems(a: Seq<RawModel>, n: int)
    requires
        0 <= n <= a.len(),
    ensures
        raw_elems(a, n).len() == n,
        forall|i: int| 0 <= i < n ==> #[trigger] raw_elems(a, n)[i] == raw_to_json(a[i]),
    decreases n,
{
    if n > 0 {
        lemma_raw_elems(a, n - 1);
    }
}

proof fn lemma_raw_entries(o: Seq<(Seq<char>, RawModel)>, n: int)
    requires
        0 <= n <= o.len(),
        forall|i: int, j: int| 0 <= i < j < o.len() ==> o[i].0 != o[j].0,
    ensures
        raw_entries(o, n).len() == n,
        forall|i: int| 0 <= i < n ==> #[trigger] raw_entries(o, n)[i] == (o[i].0, raw_to_json(o[i].1)),
    decreases n,
{
    if n > 0 {
        lemma_raw_entries(o, n - 1);
        let s = raw_entries(o, n - 1);
        let k = o[n - 1].0;
        lemma_key_pos(s, k);
        let p = key_pos(s, k);
        if p >= 0 {
            assert(s[p].0 == o[p].0);
            assert(false);
        }
        assert(raw_entries(o, n) == s.push((k, raw_to_json(o[n - 1].1))));
    }
}

/// Parsing keeps the parser's tree: an array has the values of its
/// elements in order, an object (whose keys are distinct, as the parser
/// makes them) the entries in the parser's order with their values, a
/// string is that string, and `null` and booleans stay as they are.
pub proof fn law_parsed_tree(r: RawModel)
    ensures
        r == RawModel::Null ==> raw_to_json(r) == Json::Null,
        r is Bool ==> raw_to_json(r) == Json::Bool(r->Bool_0),
        r is String ==> raw_to_json(r) == Json::Str(r->String_0),
        r is Array ==> raw_to_json(r) is Arr && raw_to_json(r)->Arr_0.len() == r->Array_0.len() && (forall|i: int|
            0 <= i < r->Array_0.len() ==> #[trigger] raw_to_json(r)->Arr_0[i] == raw_to_json(r->Array_0[i])),
        (r is Object && forall|i: int, j: int|
            0 <= i < j < r->Object_0.len() ==> r->Object_0[i].0 != r->Object_0[j].0) ==> raw_to_json(r) is Obj
            && raw_to_json(r)->Obj_0.len() == r->Object_0.len() && (forall|i: int|
            0 <= i < r->Object_0.len() ==> #[trigger] raw_to_json(r)->Obj_0[i] == (
                r->Object_0[i].0,
                raw_to_json(r->Object_0[i].1),
            )),
{
    match r {
        RawModel::Array(a) => {
            lemma_raw_elems(a, a.len() as int);
        },
        RawModel::Object(o) => {
            if forall|i: int, j: int| 0 <= i < j < o.len() ==> o[i].0 != o[j].0 {
                lemma_raw_entries(o, o.len() as int);
            }
        },
        _ => {},
    }
}

/// `x` comes before `y` because they agree before position `k`, and at
/// `k` either `x` ends while `y` goes on or `x` has the smaller byte.
pub open spec fn bytes_less_at(x: Seq<u8>, y: Seq<u8>, k: int) -> bool {
    &&& 0 <= k <= x.len()
    &&& k <= y.len()
    &&& forall|m: int| 0 <= m < k ==> #[trigger] x[m] == y[m]
    &&& (k == x.len() && k < y.len()) || (k < x.len() && k < y.len() && x[k] < y[k])
}

proof fn lemma_bytes_less(x: Seq<u8>, y: Seq<u8>)
    ensures
        (bytes_order(x, y) == Ordering::Less) == exists|k: int| #[trigger] bytes_less_at(x, y, k),
    decreases x.len(),
{
    if x.len() == 0 {
        if y.len() > 0 {
            assert(bytes_less_at(x, y, 0));
        }
    } else if y.len() == 0 {
    } else if x[0] < y[0] {
        assert(bytes_less_at(x, y, 0));
    } else if x[0] > y[0] {
        if exists|k: int| #[trigger] bytes_less_at(x, y, k) {
            let k = choose|k: int| #[trigger] bytes_less_at(x, y, k);
            if k > 0 {
                assert(x[0] == y[0]);
            }
        }
    } else {
        let x1 = x.drop_first();
        let y1 = y.drop_first();
        lemma_bytes_less(x1, y1);
        if exists|k: int| #[trigger] bytes_less_at(x1, y1, k) {
            let k = choose|k: int| #[trigger] bytes_less_at(x1, y1, k);
            assert forall|m: int| 0 <= m < k + 1 implies #[trigger] x[m] == y[m] by {
                if m > 0 {
                    assert(x[m] == x1[m - 1]);
                    assert(y[m] == y1[m - 1]);
                }
            }
            if k < x1.len() && k < y1.len() {
                assert(x[k + 1] == x1[k] && y[k + 1] == y1[k]);
            }
            assert(bytes_less_at(x, y, k + 1));
        }
        if exists|k: int| #[trigger] bytes_less_at(x, y, k) {
            let k = choose|k: int| #[trigger] bytes_less_at(x, y, k);
            assert(k > 0);
            assert forall|m: int| 0 <= m < k - 1 implies #[trigger] x1[m] == y1[m] by {
                assert(x[m + 1] == y[m + 1]);
            }
            if k < x.len() && k < y.len() {
                assert(x[k] == x1[k - 1] && y[k] == y1[k - 1]);
            }
            assert(bytes_less_at(x1, y1, k - 1));
        }
    }
}

/// Strings are ordered lexicographically by their UTF-8 bytes: `a`
/// comes first when, after a common part, `a` ends or has the smaller
/// byte; strings are equal in the order exactly when they are equal.
pub proof fn law_string_order(a: Seq<char>, b: Seq<char>)
    ensures
        (json_order(Json::Str(a), Json::Str(b)) == Ordering::Less) == exists|k: int|
            #[trigger] bytes_less_at(encode_utf8(a), encode_utf8(b), k),
        (json_order(Json::Str(a), Json::Str(b)) == Ordering::Equal) == (a == b),
{
    lemma_bytes_less(encode_utf8(a), encode_utf8(b));
    crate::order_laws::lemma_str_order_equal(a, b);
}

/// `x` comes before `y` from position `i` on because their elements at
/// `i .. k` are equal in the order, and at `k` either `x` ends while `y`
/// goes on or the element of `x` comes first.
pub open spec fn elems_less_at(x: Seq<Json>, y: Seq<Json>, i: int, k: int) -> bool {
    &&& i <= k <= x.len()
    &&& k <= y.len()
    &&& forall|m: int| i <= m < k ==> #[trigger] json_order(x[m], y[m]) == Ordering::Equal
    &&& (k == x.len() && k < y.len()) || (k < x.len() && k < y.len() && json_order(x[k], y[k])
        == Ordering::Less)
}

#[verifier::spinoff_prover]
#[verifier::rlimit(60)]
proof fn lemma_elems_less(x: Seq<Json>, y: Seq<Json>, i: int)
    requires
        0 <= i <= x.len(),
        i <= y.len(),
    ensures
        (elems_order(x, y, i) == Ordering::Less) == exists|k: int| #[trigger] elems_less_at(x, y, i, k),
    decreases x.len() - i,
{
    if i == x.len() {
        if i < y.len() {
            assert(elems_less_at(x, y, i, i));
        }
    } else if i == y.len() {
    } else {
        let c = json_order(x[i], y[i]);
        if c == Ordering::Less {
            assert(elems_less_at(x, y, i, i));
        } else if c == Ordering::Greater {
            if exists|k: int| #[trigger] elems_less_at(x, y, i, k) {
                let k = choose|k: int| #[trigger] elems_less_at(x, y, i, k);
                if k > i {
                    assert(json_order(x[i], y[i]) == Ordering::Equal);
                }
            }
        } else {
            lemma_elems_less(x, y, i + 1);
            if exists|k: int| #[trigger] elems_less_at(x, y, i + 1, k) {
                let k = choose|k: int| #[trigger] elems_less_at(x, y, i + 1, k);
                assert(elems_less_at(x, y, i, k));
            }
            if exists|k: int| #[trigger] elems_less_at(x, y, i, k) {
                let k = choose|k: int| #[trigger] elems_less_at(x, y, i, k);
                assert(k > i);
                assert(elems_less_at(x, y, i + 1, k));
            }
        }
    }
}

/// Arrays are ordered lexicographically: `x` comes first when, after
/// elements equal in the order, `x` ends or has the element that comes
/// first.
pub proof fn law_array_order(x: Seq<Json>, y: Seq<Json>)
    ensures
        (json_order(Json::Arr(x), Json::Arr(y)) == Ordering::Less) == exists|k: int|
            #[trigger] elems_less_at(x, y, 0, k),
{
    lemma_elems_less(x, y, 0);
}

/// An integer compares, and is equal, to a float as the float nearest
/// to it does.
pub proof fn law_int_float_compare(i: int, f: u64)
    ensures
        json_order(Json::Int(i), Json::Float(f)) == json_order(Json::Float(int_f64_bits(i)), Json::Float(f)),
        json_order(Json::Float(f), Json::Int(i)) == json_order(Json::Float(f), Json::Float(int_f64_bits(i))),
        json_eq(Json::Int(i), Json::Float(f)) == json_eq(Json::Float(int_f64_bits(i)), Json::Float(f)),
        json_eq(Json::Float(f), Json::Int(i)) == json_eq(Json::Float(f), Json::Float(int_f64_bits(i))),
{
}

/// Equality of booleans, integers and strings is equality of what they
/// hold; values of different kinds are never equal.
pub proof fn law_scalar_eq(b: bool, c: bool, x: int, y: int, s: Seq<char>, t: Seq<char>)
    ensures
        json_eq(Json::Null, Json::Null),
        json_eq(Json::Bool(b), Json::Bool(c)) == (b == c),
        json_eq(Json::Int(x), Json::Int(y)) == (x == y),
        json_eq(Json::Str(s), Json::Str(t)) == (s == t),
        !json_eq(Json::Null, Json::Bool(b)),
        !json_eq(Json::Bool(b), Json::Int(x)),
        !json_eq(Json::Int(x), Json::Str(s)),
        !json_eq(Json::Str(s), Json::Arr(Seq::empty())),
        !json_eq(Json::Arr(Seq::empty()), Json::Obj(Seq::empty())),
{
}

/// Rounding is symmetric about zero: a negative float (other than -0
/// and NaN) becomes the negation of what its absolute value becomes,
/// and a non-negative one a non-negative integer.
pub proof fn law_rounding_symmetric(z: u64)
    requires
        0 < z <= 0x7FF0_0000_0000_0000,
    ensures
        rounded_int(z) == f64_bits_to_usize(z) as int,
        rounded_int(z) >= 0,
        rounded_int((z + 0x8000_0000_0000_0000) as u64) == -rounded_int(z),
{
}

proof fn lemma_parse_rejects(s: Seq<char>, k: int)
    requires
        0 <= k < s.len(),
        !is_digit(s[k]),
        s[k] != '+',
    ensures
        parse_usize_spec(s) is None,
{
    let body = unsigned_body(s);
    if s.len() > 0 && s[0] == '+' {
        assert(k > 0);
        assert(body[k - 1] == s[k]);
    } else {
        assert(body[k] == s[k]);
    }
}

/// A number whose text has a fraction or an exponent is no integer: it
/// is kept as its text, with its float.
pub proof fn law_number_with_fraction(t: Seq<char>, f: Option<u64>, k: int)
    requires
        0 <= k < t.len(),
        t[k] == '.' || t[k] == 'e' || t[k] == 'E',
    ensures
        number_model(t, f) == Json::Num(t, f),
{
    if t.len() > 0 && t[0] == '-' {
        assert(k > 0);
        let r = t.drop_first();
        assert(r[k - 1] == t[k]);
        lemma_parse_rejects(r, k - 1);
    } else {
        lemma_parse_rejects(t, k);
    }
}

} // verus!
