//! Properties of the operations on values that hold for all inputs.
use vstd::prelude::*;
use vstd::arithmetic::div_mod::lemma_fundamental_div_mod;
use crate::float::{neg_bits, int_f64_bits};
use crate::integer::{
    abs_int, trunc_div, trunc_rem, int_fits, int_text, nat_digits, digit_char, digits_value,
    is_digit, parse_usize_spec, unsigned_body,
};
use crate::ops::{Step, add_step, sub_step, mul_step, div_step, rem_step, json_neg, entries_extend, num_count};
use crate::val::{
    Json, Entries, key_pos, entry_get, entries_insert, keys_distinct, json_keys, json_has,
    number_model, lemma_key_pos, json_wf, len_int, json_values,
};
use vstd::set_lib::{set_int_range, lemma_int_range, lemma_map_size, lemma_subset_equality};
use crate::order::json_eq;
use crate::contain::{json_contains, contained_in_some, is_infix, lemma_contained_in_some_grows};

verus! {

/// `null` is a neutral element for addition, on both sides.
pub proof fn law_null_neutral(x: Json)
    ensures
        add_step(Json::Null, x) == Step::Value(x),
        add_step(x, Json::Null) == Step::Value(x),
{
}

/// The sum, difference, product, and remainder of two integers is an integer.
pub proof fn law_integer_arithmetic(x: int, y: int)
    ensures
        add_step(Json::Int(x), Json::Int(y)) == Step::Value(Json::Int(x + y)),
        sub_step(Json::Int(x), Json::Int(y)) == Step::Value(Json::Int(x - y)),
        mul_step(Json::Int(x), Json::Int(y)) == Step::Value(Json::Int(x * y)),
        rem_step(Json::Int(x), Json::Int(y)) == Step::Value(Json::Int(trunc_rem(x, y))),
{
}

/// The quotient of two integers is an integer if their remainder is
/// zero, and then it times the divisor gives the dividend; otherwise the
/// quotient is a float.
pub proof fn law_integer_quotient(x: int, y: int)
    ensures
        y != 0 && trunc_rem(x, y) == 0 ==> div_step(Json::Int(x), Json::Int(y)) == Step::Value(
            Json::Int(trunc_div(x, y)),
        ) && trunc_div(x, y) * y == x,
        !(y != 0 && trunc_rem(x, y) == 0) ==> div_step(Json::Int(x), Json::Int(y)) == Step::Float(
            crate::val::MathOp::Div,
            int_f64_bits(x),
            int_f64_bits(y),
        ),
{
    if y != 0 && trunc_rem(x, y) == 0 {
        let a = abs_int(x) as int;
        let b = abs_int(y) as int;
        lemma_fundamental_div_mod(a, b);
        assert(a == b * (a / b));
        let q = a / b;
        assert(trunc_div(x, y) * y == x) by (nonlinear_arith)
            requires
                a == b * q,
                a == (if x < 0 { -x } else { x }),
                b == (if y < 0 { -y } else { y }),
                trunc_div(x, y) == (if (x < 0) != (y < 0) { -q } else { q }),
        ;
    }
}

/// True if the value is an integer or a float.
pub open spec fn is_number(a: Json) -> bool {
    a is Int || a is Float
}

/// Any operation between two numbers that are not both integers yields a float.
pub proof fn law_float_results(a: Json, b: Json)
    requires
        is_number(a),
        is_number(b),
        !(a is Int && b is Int),
    ensures
        add_step(a, b) is Float,
        sub_step(a, b) is Float,
        mul_step(a, b) is Float,
        div_step(a, b) is Float,
        rem_step(a, b) is Float,
{
}

/// Negating a number twice gives it back.
pub proof fn law_neg_neg(a: Json)
    requires
        is_number(a),
    ensures
        json_neg(a) is Ok,
        json_neg(json_neg(a)->Ok_0) == Ok::<Json, crate::val::Fault>(a),
{
}

/// Every key of an array or object is defined on it.
pub proof fn law_keys_are_defined(v: Json, i: int)
    requires
        json_keys(v) is Ok,
        0 <= i < json_keys(v)->Ok_0.len(),
    ensures
        json_has(v, json_keys(v)->Ok_0[i]) == Ok::<bool, crate::val::Fault>(true),
{
    if let Json::Obj(o) = v {
        lemma_key_pos(o, o[i].0);
    }
}

/// Every key that is defined on an array or object is one of its keys.
pub proof fn law_defined_keys_are_keys(v: Json, k: Json)
    requires
        json_keys(v) is Ok,
        json_has(v, k) == Ok::<bool, crate::val::Fault>(true),
    ensures
        json_keys(v)->Ok_0.contains(k),
{
    match (v, k) {
        (Json::Arr(a), Json::Int(i)) => {
            assert(json_keys(v)->Ok_0[i] == k);
        },
        (Json::Obj(o), Json::Str(s)) => {
            lemma_key_pos(o, s);
            assert(json_keys(v)->Ok_0[key_pos(o, s)] == k);
        },
        _ => {},
    }
}

/// For an array or object, a key is defined exactly when it is one of its keys.
pub proof fn law_has_iff_key(v: Json, k: Json)
    requires
        json_keys(v) is Ok,
        json_has(v, k) is Ok,
    ensures
        (json_has(v, k) == Ok::<bool, crate::val::Fault>(true)) == json_keys(v)->Ok_0.contains(k),
{
    if json_keys(v)->Ok_0.contains(k) {
        let i = choose|i: int| 0 <= i < json_keys(v)->Ok_0.len() && json_keys(v)->Ok_0[i] == k;
        law_keys_are_defined(v, i);
    }
    if json_has(v, k) == Ok::<bool, crate::val::Fault>(true) {
        law_defined_keys_are_keys(v, k);
    }
}

/// The values of an array or object correspond to its keys position by
/// position: the `i`-th value is the value of the `i`-th key.
pub proof fn law_values_match_keys(v: Json, i: int)
    requires
        json_wf(v),
        json_keys(v) is Ok,
        0 <= i < json_keys(v)->Ok_0.len(),
    ensures
        json_values(v) is Ok,
        json_values(v)->Ok_0.len() == json_keys(v)->Ok_0.len(),
        match (v, json_keys(v)->Ok_0[i]) {
            (Json::Arr(a), Json::Int(k)) => json_values(v)->Ok_0[i] == a[k],
            (Json::Obj(o), Json::Str(k)) => entry_get(o, k) == Some(json_values(v)->Ok_0[i]),
            _ => false,
        },
{
    if let Json::Obj(o) = v {
        lemma_key_pos_distinct(o, i);
    }
}

/// After inserting `(k, v)`, `k` maps to `v`, other keys keep their
/// values, and no key occurs twice if none did before.
pub proof fn law_insert_get(s: Entries, k: Seq<char>, v: Json, k2: Seq<char>)
    ensures
        entry_get(entries_insert(s, k, v), k) == Some(v),
        k2 != k ==> entry_get(entries_insert(s, k, v), k2) == entry_get(s, k2),
        keys_distinct(s) ==> keys_distinct(entries_insert(s, k, v)),
{
    let t = entries_insert(s, k, v);
    lemma_key_pos(s, k);
    lemma_key_pos(s, k2);
    lemma_key_pos(t, k);
    lemma_key_pos(t, k2);
    let p = key_pos(s, k);
    if p < 0 {
        assert(t[s.len() as int].0 == k);
    } else {
        assert(t[p].0 == k);
    }
    if k2 != k {
        assert forall|i: int| 0 <= i < t.len() implies ((t[i].0 == k2) == (i < s.len() && s[i].0 == k2)) by {
            if p >= 0 && i == p {
            } else if p < 0 && i == s.len() {
            } else {
                assert(t[i] == s[i]);
            }
        }
        let q = key_pos(s, k2);
        let r = key_pos(t, k2);
        if q >= 0 {
            assert(t[q].0 == k2);
            if r < q {
                assert(s[r].0 == k2);
            }
            assert(r == q);
            assert(q != p);
            assert(t[q] == s[q]);
        } else if r >= 0 {
            assert(s[r].0 == k2);
        }
    }
    if keys_distinct(s) {
        assert forall|i: int, j: int| 0 <= i < j < t.len() implies t[i].0 != t[j].0 by {
            if p < 0 {
                if j == s.len() {
                    assert(s[i].0 != k);
                }
            }
        }
    }
}

/// Merging objects: a key of the right-hand object (whose keys are
/// distinct) gets its value from there, any other key keeps its value
/// in the left-hand object.
pub proof fn law_merge_get(x: Entries, y: Entries, k: Seq<char>)
    requires
        keys_distinct(y),
    ensures
        entry_get(entries_extend(x, y), k) == (if key_pos(y, k) >= 0 {
            entry_get(y, k)
        } else {
            entry_get(x, k)
        }),
    decreases y.len(),
{
    if y.len() > 0 {
        let y0 = y.drop_last();
        assert(keys_distinct(y0));
        law_merge_get(x, y0, k);
        law_insert_get(entries_extend(x, y0), y.last().0, y.last().1, k);
        lemma_key_pos(y, k);
        lemma_key_pos(y0, k);
        if k == y.last().0 {
            assert(key_pos(y, k) == y.len() - 1) by {
                let p = key_pos(y, k);
                if p != y.len() - 1 {
                    assert(y[p].0 != y[y.len() - 1].0);
                }
            }
        } else {
            if key_pos(y, k) >= 0 {
                assert(y0[key_pos(y, k)] == y[key_pos(y, k)]);
                assert(key_pos(y0, k) == key_pos(y, k)) by {
                    let p = key_pos(y0, k);
                    let q = key_pos(y, k);
                    if p >= 0 {
                        assert(y[p] == y0[p]);
                    }
                }
            } else {
                assert(key_pos(y0, k) < 0) by {
                    let p = key_pos(y0, k);
                    if p >= 0 {
                        assert(y[p] == y0[p]);
                    }
                }
            }
        }
    }
}

/// The values of the entries all satisfy [`json_wf`].
pub open spec fn values_wf(s: Entries) -> bool {
    forall|i: int| 0 <= i < s.len() ==> json_wf(#[trigger] s[i].1)
}

proof fn lemma_insert_values_wf(s: Entries, k: Seq<char>, v: Json)
    requires
        values_wf(s),
        json_wf(v),
    ensures
        values_wf(entries_insert(s, k, v)),
{
    let t = entries_insert(s, k, v);
    lemma_key_pos(s, k);
    assert forall|i: int| 0 <= i < t.len() implies json_wf(#[trigger] t[i].1) by {
        let p = key_pos(s, k);
        if !((p >= 0 && i == p) || (p < 0 && i == s.len())) {
            assert(t[i] == s[i]);
        }
    }
}

/// Merging objects keeps keys distinct and values well-formed.
proof fn lemma_extend_wf(x: Entries, y: Entries)
    requires
        keys_distinct(x),
        values_wf(x),
        values_wf(y),
    ensures
        keys_distinct(entries_extend(x, y)),
        values_wf(entries_extend(x, y)),
    decreases y.len(),
{
    if y.len() > 0 {
        let y0 = y.drop_last();
        assert(values_wf(y0)) by {
            assert forall|i: int| 0 <= i < y0.len() implies json_wf(#[trigger] y0[i].1) by {
                assert(y0[i] == y[i]);
            }
        }
        lemma_extend_wf(x, y0);
        let e = entries_extend(x, y0);
        law_insert_get(e, y.last().0, y.last().1, y.last().0);
        assert(json_wf(y[y.len() - 1].1));
        lemma_insert_values_wf(e, y.last().0, y.last().1);
    }
}

/// Addition keeps values well-formed: the sum of two values whose objects
/// have distinct keys has objects with distinct keys.
pub proof fn law_add_keeps_wf(a: Json, b: Json)
    requires
        json_wf(a),
        json_wf(b),
        add_step(a, b) is Value,
    ensures
        json_wf(add_step(a, b)->Value_0),
    decreases num_count(a) + num_count(b),
{
    match (a, b) {
        (Json::Null, _) => {},
        (_, Json::Null) => {},
        (Json::Num(_, g), _) => {
            law_add_keeps_wf(crate::val::num_value(g), b);
        },
        (_, Json::Num(_, g)) => {
            law_add_keeps_wf(a, crate::val::num_value(g));
        },
        (Json::Arr(x), Json::Arr(y)) => {
            let z = x + y;
            assert forall|i: int| 0 <= i < z.len() implies json_wf(#[trigger] z[i]) by {
                if i < x.len() {
                    assert(z[i] == x[i]);
                } else {
                    assert(z[i] == y[i - x.len()]);
                }
            }
        },
        (Json::Obj(x), Json::Obj(y)) => {
            lemma_extend_wf(x, y);
        },
        _ => {},
    }
}

proof fn lemma_nat_digits(n: nat)
    ensures
        nat_digits(n).len() > 0,
        forall|i: int| 0 <= i < nat_digits(n).len() ==> is_digit(#[trigger] nat_digits(n)[i]),
        digits_value(nat_digits(n)) == n,
    decreases n,
{
    let c = digit_char(n % 10);
    assert((c as nat) - 48 == n % 10);
    if n < 10 {
        let e = nat_digits(n);
        assert(e.drop_last() =~= Seq::<char>::empty());
        assert(digits_value(Seq::<char>::empty()) == 0);
        assert(e.last() == c);
        assert(n % 10 == n);
        assert(digits_value(e) == digits_value(e.drop_last()) * 10 + ((e.last() as nat) - 48) as nat);
    } else {
        lemma_nat_digits(n / 10);
        let d = nat_digits(n / 10);
        let e = nat_digits(n);
        assert(e.drop_last() =~= d);
        assert(e.last() == c);
        assert(n == (n / 10) * 10 + n % 10);
        assert(digits_value(e) == digits_value(e.drop_last()) * 10 + ((e.last() as nat) - 48) as nat);
        assert forall|i: int| 0 <= i < e.len() implies is_digit(#[trigger] e[i]) by {
            if i < d.len() {
                assert(e[i] == d[i]);
            }
        }
    }
}

/// The decimal text of an integer reads back as the same integer.
pub proof fn law_int_text_reads_back(i: int, f: Option<u64>)
    requires
        int_fits(i),
    ensures
        number_model(int_text(i), f) == Json::Int(i),
{
    let n = abs_int(i);
    lemma_nat_digits(n);
    let d = nat_digits(n);
    assert(unsigned_body(d) == d);
    assert(parse_usize_spec(d) == Some(n as usize));
    if i < 0 {
        let t = int_text(i);
        assert(t.drop_first() =~= d);
    } else {
        assert(d[0] != '-');
    }
}

/// In an object with distinct keys, each key is found at its own entry.
pub proof fn lemma_key_pos_distinct(x: Entries, i: int)
    requires
        keys_distinct(x),
        0 <= i < x.len(),
    ensures
        key_pos(x, x[i].0) == i,
{
    lemma_key_pos(x, x[i].0);
}

/// Every value (whose objects have distinct keys) equals itself.
pub proof fn law_eq_reflexive(a: Json)
    requires
        json_wf(a),
    ensures
        json_eq(a, a),
    decreases a,
{
    match a {
        Json::Arr(x) => {
            assert forall|i: int| 0 <= i < x.len() implies json_eq(#[trigger] x[i], x[i]) by {
                law_eq_reflexive(x[i]);
            }
        },
        Json::Obj(x) => {
            assert forall|i: int| 0 <= i < x.len() implies {
                let p = key_pos(x, (#[trigger] x[i]).0);
                p >= 0 && json_eq(x[i].1, x[p].1)
            } by {
                lemma_key_pos_distinct(x, i);
                law_eq_reflexive(x[i].1);
            }
        },
        _ => {},
    }
}

/// If `x` has distinct keys, `y` is as long as `x` and holds every key of
/// `x`, then `x` holds every key of `y`.
pub proof fn lemma_keys_cover(x: Entries, y: Entries)
    requires
        keys_distinct(x),
        x.len() == y.len(),
        forall|i: int| 0 <= i < x.len() ==> key_pos(y, (#[trigger] x[i]).0) >= 0,
    ensures
        forall|j: int| 0 <= j < y.len() ==> key_pos(x, (#[trigger] y[j]).0) >= 0,
{
    let n = len_int(x);
    let f = |i: int| key_pos(y, x[i].0);
    let dom = set_int_range(0, n);
    lemma_int_range(0, n);
    assert forall|i: int, j: int| dom.contains(i) && dom.contains(j) && #[trigger] f(i) == #[trigger] f(j) implies i == j by {
        lemma_key_pos(y, x[i].0);
        lemma_key_pos(y, x[j].0);
    }
    let img = dom.map(f);
    lemma_map_size(dom, img, f);
    assert forall|k: int| img.contains(k) implies dom.contains(k) by {
        let i = choose|i: int| dom.contains(i) && k == f(i);
        lemma_key_pos(y, x[i].0);
    }
    lemma_subset_equality(img, dom);
    assert forall|j: int| 0 <= j < y.len() implies key_pos(x, (#[trigger] y[j]).0) >= 0 by {
        assert(dom.contains(j));
        assert(img.contains(j));
        let i = choose|i: int| dom.contains(i) && j == f(i);
        lemma_key_pos(y, x[i].0);
        lemma_key_pos(x, y[j].0);
        assert(x[i].0 == y[j].0);
    }
}

/// Equality of values (whose objects have distinct keys) is symmetric.
pub proof fn law_eq_symmetric(a: Json, b: Json)
    requires
        json_wf(a),
        json_wf(b),
        json_eq(a, b),
    ensures
        json_eq(b, a),
    decreases a,
{
    match (a, b) {
        (Json::Arr(x), Json::Arr(y)) => {
            assert forall|i: int| 0 <= i < y.len() implies json_eq(#[trigger] y[i], x[i]) by {
                assert(json_eq(x[i], y[i]));
                law_eq_symmetric(x[i], y[i]);
            }
        },
        (Json::Obj(x), Json::Obj(y)) => {
            lemma_keys_cover(x, y);
            assert forall|j: int| 0 <= j < y.len() implies {
                let q = key_pos(x, (#[trigger] y[j]).0);
                q >= 0 && json_eq(y[j].1, x[q].1)
            } by {
                let q = key_pos(x, y[j].0);
                lemma_key_pos(x, y[j].0);
                assert(x[q].0 == y[j].0);
                lemma_key_pos_distinct(y, j);
                assert(key_pos(y, x[q].0) == j);
                assert(json_eq(x[q].1, y[j].1));
                law_eq_symmetric(x[q].1, y[j].1);
            }
        },
        _ => {},
    }
}

/// Equal values (whose objects have distinct keys) contain each other.
pub proof fn law_eq_contains(a: Json, b: Json)
    requires
        json_wf(a),
        json_wf(b),
        json_eq(a, b),
    ensures
        json_contains(a, b),
    decreases a,
{
    match (a, b) {
        (Json::Str(x), Json::Str(y)) => {
            let e = vstd::utf8::encode_utf8(x);
            assert(e.subrange(0, 0 + len_int(e)) =~= e);
            assert(is_infix(e, e));
        },
        (Json::Arr(x), Json::Arr(y)) => {
            assert forall|j: int| 0 <= j < y.len() implies contained_in_some(x, #[trigger] y[j], len_int(x)) by {
                assert(json_eq(x[j], y[j]));
                law_eq_contains(x[j], y[j]);
                assert(contained_in_some(x, y[j], j + 1));
                lemma_contained_in_some_grows(x, y[j], j + 1, len_int(x));
            }
        },
        (Json::Obj(x), Json::Obj(y)) => {
            lemma_keys_cover(x, y);
            assert forall|j: int| 0 <= j < y.len() implies {
                let p = key_pos(x, (#[trigger] y[j]).0);
                0 <= p < x.len() && json_contains(x[p].1, y[j].1)
            } by {
                let q = key_pos(x, y[j].0);
                lemma_key_pos(x, y[j].0);
                assert(x[q].0 == y[j].0);
                lemma_key_pos_distinct(y, j);
                assert(key_pos(y, x[q].0) == j);
                assert(json_eq(x[q].1, y[j].1));
                law_eq_contains(x[q].1, y[j].1);
            }
        },
        _ => {},
    }
}

/// Every value (whose objects have distinct keys) contains itself.
pub proof fn law_contains_reflexive(a: Json)
    requires
        json_wf(a),
    ensures
        json_contains(a, a),
    decreases a,
{
    match a {
        Json::Str(t) => {
            let b = vstd::utf8::encode_utf8(t);
            assert(b.subrange(0, 0 + len_int(b)) =~= b);
            assert(is_infix(b, b));
        },
        Json::Arr(x) => {
            assert forall|j: int| 0 <= j < x.len() implies contained_in_some(x, #[trigger] x[j], len_int(x)) by {
                law_contains_reflexive(x[j]);
                assert(contained_in_some(x, x[j], j + 1));
                lemma_contained_in_some_grows(x, x[j], j + 1, len_int(x));
            }
        },
        Json::Obj(x) => {
            assert forall|j: int| 0 <= j < x.len() implies {
                let p = key_pos(x, (#[trigger] x[j]).0);
                0 <= p < x.len() && json_contains(x[p].1, x[j].1)
            } by {
                lemma_key_pos_distinct(x, j);
                law_contains_reflexive(x[j].1);
            }
        },
        _ => {
            law_eq_reflexive(a);
        },
    }
}

} // verus!
