//! Transitivity of the order on values whose numbers are all integers,
//! and on values whose numbers are all floats.
//!
//! Comparing an integer with a float goes through the float nearest to
//! the integer, so where integers meet floats the order is not
//! transitive: two distinct integers can both be equal to the same float.
use vstd::prelude::*;
use std::cmp::Ordering;
use vstd::utf8::encode_utf8;
use crate::order::{json_eq, order_of, float_order, resolve, str_order, rank, json_order, elems_order, keys_order, vals_order, key_perm, str_gt};
use crate::order_laws::{lemma_bytes_order_trans, lemma_str_order_equal, lemma_keys_order_equal, law_eq_iff_order_equal};
use crate::sort::lemma_sorted_upto_bounds;
use crate::val::{Json, Entries, entry_keys, json_wf};

verus! {

/// Every number in the value is an integer (there are no floats and no
/// numbers held as text).
pub open spec fn int_numbers(j: Json) -> bool
    decreases j,
{
    match j {
        Json::Float(_) => false,
        Json::Num(..) => false,
        Json::Arr(a) => forall|i: int| 0 <= i < a.len() ==> int_numbers(#[trigger] a[i]),
        Json::Obj(o) => forall|i: int| 0 <= i < o.len() ==> int_numbers(#[trigger] o[i].1),
        _ => true,
    }
}

/// No number in the value is an integer (numbers are floats, or held as text).
pub open spec fn no_ints(j: Json) -> bool
    decreases j,
{
    match j {
        Json::Int(_) => false,
        Json::Arr(a) => forall|i: int| 0 <= i < a.len() ==> no_ints(#[trigger] a[i]),
        Json::Obj(o) => forall|i: int| 0 <= i < o.len() ==> no_ints(#[trigger] o[i].1),
        _ => true,
    }
}

/// The numbers in the three values are all integers, or all floats.
pub open spec fn uniform_numbers(a: Json, b: Json, c: Json) -> bool {
    (int_numbers(a) && int_numbers(b) && int_numbers(c)) || (no_ints(a) && no_ints(b) && no_ints(c))
}

/// Transitivity at `a`, `b`, `c`: equal values can replace each other on
/// either side, and `a < b < c` gives `a < c`.
pub open spec fn trans_at(a: Json, b: Json, c: Json) -> bool {
    &&& json_order(a, b) == Ordering::Equal ==> json_order(a, c) == json_order(b, c)
    &&& json_order(b, c) == Ordering::Equal ==> json_order(a, b) == json_order(a, c)
    &&& (json_order(a, b) == Ordering::Less && json_order(b, c) == Ordering::Less) ==> json_order(a, c)
        == Ordering::Less
}

/// Transitivity of the order on strings.
proof fn lemma_str_trans(a: Seq<char>, b: Seq<char>, c: Seq<char>)
    ensures
        str_order(a, b) == Ordering::Equal ==> str_order(a, c) == str_order(b, c),
        str_order(b, c) == Ordering::Equal ==> str_order(a, b) == str_order(a, c),
        (str_order(a, b) == Ordering::Less && str_order(b, c) == Ordering::Less) ==> str_order(a, c)
            == Ordering::Less,
{
    lemma_str_order_equal(a, b);
    lemma_str_order_equal(b, c);
    if str_order(a, b) == Ordering::Less && str_order(b, c) == Ordering::Less {
        lemma_bytes_order_trans(encode_utf8(a), encode_utf8(b), encode_utf8(c));
    }
}

/// Transitivity of the order on floats.
proof fn lemma_float_trans(f: u64, g: u64, h: u64)
    ensures
        float_order(f, g) == Ordering::Equal ==> float_order(f, h) == float_order(g, h),
        float_order(g, h) == Ordering::Equal ==> float_order(f, g) == float_order(f, h),
        (float_order(f, g) == Ordering::Less && float_order(g, h) == Ordering::Less) ==> float_order(f, h)
            == Ordering::Less,
{
}

/// Values of different kinds are ordered by their kinds.
proof fn lemma_rank_order(a: Json, b: Json)
    requires
        (int_numbers(a) && int_numbers(b)) || (no_ints(a) && no_ints(b)),
        rank(resolve(a)) != rank(resolve(b)),
    ensures
        json_order(a, b) == order_of(rank(resolve(a)), rank(resolve(b))),
{
}

proof fn lemma_elems_trans(x: Seq<Json>, y: Seq<Json>, z: Seq<Json>, i: int)
    requires
        0 <= i <= x.len(),
        i <= y.len(),
        i <= z.len(),
        forall|k: int|
            i <= k && k < x.len() && k < y.len() && k < z.len() ==> #[trigger] trans_at(x[k], y[k], z[k]),
    ensures
        elems_order(x, y, i) == Ordering::Equal ==> elems_order(x, z, i) == elems_order(y, z, i),
        elems_order(y, z, i) == Ordering::Equal ==> elems_order(x, y, i) == elems_order(x, z, i),
        (elems_order(x, y, i) == Ordering::Less && elems_order(y, z, i) == Ordering::Less)
            ==> elems_order(x, z, i) == Ordering::Less,
    decreases x.len() - i,
{
    if i < x.len() && i < y.len() && i < z.len() {
        lemma_elems_trans(x, y, z, i + 1);
        assert(trans_at(x[i], y[i], z[i]));
    }
}

proof fn lemma_keys_trans(
    x: Entries,
    px: Seq<int>,
    y: Entries,
    py: Seq<int>,
    z: Entries,
    pz: Seq<int>,
    i: int,
)
    requires
        0 <= i <= px.len(),
        i <= py.len(),
        i <= pz.len(),
    ensures
        keys_order(x, px, y, py, i) == Ordering::Equal ==> keys_order(x, px, z, pz, i) == keys_order(
            y,
            py,
            z,
            pz,
            i,
        ),
        keys_order(y, py, z, pz, i) == Ordering::Equal ==> keys_order(x, px, y, py, i) == keys_order(
            x,
            px,
            z,
            pz,
            i,
        ),
        (keys_order(x, px, y, py, i) == Ordering::Less && keys_order(y, py, z, pz, i) == Ordering::Less)
            ==> keys_order(x, px, z, pz, i) == Ordering::Less,
    decreases px.len() - i,
{
    if i < px.len() && i < py.len() && i < pz.len() {
        lemma_keys_trans(x, px, y, py, z, pz, i + 1);
        lemma_str_trans(x[px[i]].0, y[py[i]].0, z[pz[i]].0);
    }
}

proof fn lemma_vals_trans(
    x: Entries,
    px: Seq<int>,
    y: Entries,
    py: Seq<int>,
    z: Entries,
    pz: Seq<int>,
    i: int,
)
    requires
        0 <= i <= px.len(),
        px.len() == py.len(),
        py.len() == pz.len(),
        forall|t: int| 0 <= t < px.len() ==> 0 <= #[trigger] px[t] < x.len(),
        forall|t: int| 0 <= t < py.len() ==> 0 <= #[trigger] py[t] < y.len(),
        forall|t: int| 0 <= t < pz.len() ==> 0 <= #[trigger] pz[t] < z.len(),
        forall|t: int|
            i <= t < px.len() ==> #[trigger] trans_at(x[px[t]].1, y[py[t]].1, z[pz[t]].1),
    ensures
        vals_order(x, px, y, py, i) == Ordering::Equal ==> vals_order(x, px, z, pz, i) == vals_order(
            y,
            py,
            z,
            pz,
            i,
        ),
        vals_order(y, py, z, pz, i) == Ordering::Equal ==> vals_order(x, px, y, py, i) == vals_order(
            x,
            px,
            z,
            pz,
            i,
        ),
        (vals_order(x, px, y, py, i) == Ordering::Less && vals_order(y, py, z, pz, i) == Ordering::Less)
            ==> vals_order(x, px, z, pz, i) == Ordering::Less,
    decreases px.len() - i,
{
    if i < px.len() {
        assert(0 <= px[i] < x.len() && 0 <= py[i] < y.len() && 0 <= pz[i] < z.len());
        lemma_vals_trans(x, px, y, py, z, pz, i + 1);
        assert(trans_at(x[px[i]].1, y[py[i]].1, z[pz[i]].1));
    }
}

/// `key_perm` lists positions of the entries, as many as there are entries.
proof fn lemma_key_perm_bounds(x: Entries)
    ensures
        key_perm(x).len() == x.len(),
        forall|t: int| 0 <= t < x.len() ==> 0 <= #[trigger] key_perm(x)[t] < x.len(),
{
    lemma_sorted_upto_bounds(str_gt(entry_keys(x)), x.len());
}

/// Transitivity for three objects whose values at the compared positions
/// are transitive.
proof fn lemma_obj_trans(x: Entries, y: Entries, z: Entries)
    requires
        forall|t: int|
            0 <= t && t < x.len() && t < y.len() && t < z.len() ==> #[trigger] trans_at(
                x[key_perm(x)[t]].1,
                y[key_perm(y)[t]].1,
                z[key_perm(z)[t]].1,
            ),
    ensures
        trans_at(Json::Obj(x), Json::Obj(y), Json::Obj(z)),
{
    let px = key_perm(x);
    let py = key_perm(y);
    let pz = key_perm(z);
    lemma_key_perm_bounds(x);
    lemma_key_perm_bounds(y);
    lemma_key_perm_bounds(z);
    lemma_keys_trans(x, px, y, py, z, pz, 0);
    lemma_keys_order_equal(x, px, y, py, 0);
    lemma_keys_order_equal(y, py, z, pz, 0);
    let kxy = keys_order(x, px, y, py, 0);
    let kyz = keys_order(y, py, z, pz, 0);
    if (kxy == Ordering::Equal || kyz == Ordering::Equal) && x.len() == y.len() && y.len() == z.len() {
        lemma_vals_trans(x, px, y, py, z, pz, 0);
    }
}

/// Transitivity where not all three values are of the same kind.
proof fn lemma_trans_by_rank(a: Json, b: Json, c: Json)
    requires
        uniform_numbers(a, b, c),
        !(rank(resolve(a)) == rank(resolve(b)) && rank(resolve(b)) == rank(resolve(c))),
    ensures
        trans_at(a, b, c),
{
    if rank(resolve(a)) != rank(resolve(b)) {
        lemma_rank_order(a, b);
    }
    if rank(resolve(b)) != rank(resolve(c)) {
        lemma_rank_order(b, c);
    }
    if rank(resolve(a)) != rank(resolve(c)) {
        lemma_rank_order(a, c);
    }
}

/// Transitivity of three values of the same kind that are no arrays and
/// no objects.
proof fn lemma_scalar_trans(a: Json, b: Json, c: Json)
    requires
        uniform_numbers(a, b, c),
        rank(resolve(a)) == rank(resolve(b)),
        rank(resolve(b)) == rank(resolve(c)),
        rank(resolve(a)) < 4,
    ensures
        trans_at(a, b, c),
{
    match (resolve(a), resolve(b), resolve(c)) {
        (Json::Str(s1), Json::Str(s2), Json::Str(s3)) => {
            lemma_str_trans(s1, s2, s3);
        },
        (Json::Float(f), Json::Float(g), Json::Float(h)) => {
            lemma_float_trans(f, g, h);
        },
        _ => {},
    }
}

proof fn lemma_order_trans(a: Json, b: Json, c: Json)
    requires
        uniform_numbers(a, b, c),
    ensures
        trans_at(a, b, c),
    decreases a,
{
    if !(rank(resolve(a)) == rank(resolve(b)) && rank(resolve(b)) == rank(resolve(c))) {
        lemma_trans_by_rank(a, b, c);
    } else if rank(resolve(a)) < 4 {
        lemma_scalar_trans(a, b, c);
    } else {
        match (a, b, c) {
            (Json::Arr(x), Json::Arr(y), Json::Arr(z)) => {
                assert forall|k: int| 0 <= k && k < x.len() && k < y.len() && k < z.len() implies #[trigger] trans_at(
                    x[k],
                    y[k],
                    z[k],
                ) by {
                    if int_numbers(a) && int_numbers(b) && int_numbers(c) {
                        assert(int_numbers(x[k]) && int_numbers(y[k]) && int_numbers(z[k]));
                    } else {
                        assert(no_ints(x[k]) && no_ints(y[k]) && no_ints(z[k]));
                    }
                    lemma_order_trans(x[k], y[k], z[k]);
                }
                lemma_elems_trans(x, y, z, 0);
            },
            (Json::Obj(x), Json::Obj(y), Json::Obj(z)) => {
                lemma_key_perm_bounds(x);
                lemma_key_perm_bounds(y);
                lemma_key_perm_bounds(z);
                assert forall|t: int| 0 <= t && t < x.len() && t < y.len() && t < z.len() implies #[trigger] trans_at(
                    x[key_perm(x)[t]].1,
                    y[key_perm(y)[t]].1,
                    z[key_perm(z)[t]].1,
                ) by {
                    let i = key_perm(x)[t];
                    let j = key_perm(y)[t];
                    let k = key_perm(z)[t];
                    if int_numbers(a) && int_numbers(b) && int_numbers(c) {
                        assert(int_numbers(x[i].1) && int_numbers(y[j].1) && int_numbers(z[k].1));
                    } else {
                        assert(no_ints(x[i].1) && no_ints(y[j].1) && no_ints(z[k].1));
                    }
                    lemma_order_trans(x[i].1, y[j].1, z[k].1);
                }
                lemma_obj_trans(x, y, z);
            },
            _ => {},
        }
    }
}

/// On values whose numbers are all integers, or all floats, the order is
/// transitive: `a <= b <= c` gives `a <= c`, `a < b < c` gives `a < c`,
/// and values that are equal in the order can replace each other.
pub proof fn law_order_transitive(a: Json, b: Json, c: Json)
    requires
        uniform_numbers(a, b, c),
    ensures
        (json_order(a, b) != Ordering::Greater && json_order(b, c) != Ordering::Greater) ==> json_order(
            a,
            c,
        ) != Ordering::Greater,
        (json_order(a, b) == Ordering::Less && json_order(b, c) == Ordering::Less) ==> json_order(a, c)
            == Ordering::Less,
        json_order(a, b) == Ordering::Equal ==> json_order(a, c) == json_order(b, c),
        json_order(b, c) == Ordering::Equal ==> json_order(a, b) == json_order(a, c),
{
    lemma_order_trans(a, b, c);
}

/// On values (whose objects have distinct keys) whose numbers are all
/// integers, or all floats, equality is transitive.
pub proof fn law_eq_transitive(a: Json, b: Json, c: Json)
    requires
        uniform_numbers(a, b, c),
        json_wf(a),
        json_wf(b),
        json_wf(c),
        json_eq(a, b),
        json_eq(b, c),
    ensures
        json_eq(a, c),
{
    law_eq_iff_order_equal(a, b);
    law_eq_iff_order_equal(b, c);
    law_eq_iff_order_equal(a, c);
    lemma_order_trans(a, b, c);
}

} // verus!
