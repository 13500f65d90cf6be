//! The order on values is reflexive and antisymmetric and agrees with
//! equality, and sorting gives a sorted permutation.
use vstd::prelude::*;
use std::cmp::Ordering;
use vstd::utf8::{encode_utf8, encode_utf8_decode_utf8};
use vstd::set_lib::{set_int_range, lemma_int_range, lemma_map_size, lemma_subset_equality};
use crate::order::{
    order_of, float_order, bytes_order, str_order, scalar_order, resolve, rank, json_order,
    elems_order, keys_order, vals_order, key_perm, json_gt, json_greater, sort_perm, str_gt,
    json_eq,
};
use crate::sort::{sorted_json, sorted_by_keys, permute, lemma_sorted_upto_stable, lemma_sorted_upto_sorted, lemma_sorted_upto_bounds, lemma_sorted_upto_distinct};
use crate::val::{Json, Entries, len_int, entry_keys, keys_distinct, key_pos, json_wf, lemma_key_pos};
use crate::laws::{lemma_keys_cover, lemma_key_pos_distinct};

verus! {

/// The reverse of an order.
pub open spec fn flip(o: Ordering) -> Ordering {
    match o {
        Ordering::Less => Ordering::Greater,
        Ordering::Equal => Ordering::Equal,
        Ordering::Greater => Ordering::Less,
    }
}

pub proof fn lemma_bytes_order_refl(a: Seq<u8>)
    ensures
        bytes_order(a, a) == Ordering::Equal,
    decreases a.len(),
{
    if a.len() > 0 {
        lemma_bytes_order_refl(a.drop_first());
    }
}

pub proof fn lemma_bytes_order_antisym(a: Seq<u8>, b: Seq<u8>)
    ensures
        bytes_order(a, b) == flip(bytes_order(b, a)),
    decreases a.len(),
{
    if a.len() > 0 && b.len() > 0 && a[0] == b[0] {
        lemma_bytes_order_antisym(a.drop_first(), b.drop_first());
    }
}

proof fn lemma_keys_order_refl(x: Entries, p: Seq<int>, i: int)
    ensures
        keys_order(x, p, x, p, i) == Ordering::Equal,
    decreases p.len() - i,
{
    if 0 <= i < p.len() {
        lemma_bytes_order_refl(vstd::utf8::encode_utf8(x[p[i]].0));
        lemma_keys_order_refl(x, p, i + 1);
    }
}

proof fn lemma_keys_order_antisym(x: Entries, px: Seq<int>, y: Entries, py: Seq<int>, i: int)
    ensures
        keys_order(x, px, y, py, i) == flip(keys_order(y, py, x, px, i)),
    decreases px.len() - i,
{
    if 0 <= i < px.len() && i < py.len() {
        lemma_bytes_order_antisym(
            vstd::utf8::encode_utf8(x[px[i]].0),
            vstd::utf8::encode_utf8(y[py[i]].0),
        );
        lemma_keys_order_antisym(x, px, y, py, i + 1);
    }
}

/// Every value is equal to itself in the order.
pub proof fn law_order_reflexive(a: Json)
    ensures
        json_order(a, a) == Ordering::Equal,
    decreases a, 0int,
{
    match a {
        Json::Arr(x) => {
            lemma_elems_order_refl(x, 0);
        },
        Json::Obj(x) => {
            let p = key_perm(x);
            lemma_keys_order_refl(x, p, 0);
            lemma_vals_order_refl(x, p, 0);
        },
        Json::Str(s) => {
            lemma_bytes_order_refl(vstd::utf8::encode_utf8(s));
        },
        _ => {},
    }
}

proof fn lemma_elems_order_refl(x: Seq<Json>, i: int)
    ensures
        elems_order(x, x, i) == Ordering::Equal,
    decreases x, x.len() - i,
{
    if 0 <= i < x.len() {
        law_order_reflexive(x[i]);
        lemma_elems_order_refl(x, i + 1);
    }
}

proof fn lemma_vals_order_refl(x: Entries, p: Seq<int>, i: int)
    ensures
        vals_order(x, p, x, p, i) == Ordering::Equal,
    decreases x, p.len() - i,
{
    if 0 <= i < p.len() {
        let j = p[i];
        if 0 <= j < x.len() {
            law_order_reflexive(x[j].1);
            lemma_vals_order_refl(x, p, i + 1);
        }
    }
}

proof fn lemma_scalar_order_antisym(a: Json, b: Json)
    requires
        !(a is Num),
        !(b is Num),
    ensures
        scalar_order(a, b) == flip(scalar_order(b, a)),
{
    match (a, b) {
        (Json::Str(x), Json::Str(y)) => {
            lemma_bytes_order_antisym(vstd::utf8::encode_utf8(x), vstd::utf8::encode_utf8(y));
        },
        _ => {},
    }
}

/// Swapping the operands reverses the order.
pub proof fn law_order_antisymmetric(a: Json, b: Json)
    ensures
        json_order(a, b) == flip(json_order(b, a)),
    decreases a, 0int,
{
    match (a, b) {
        (Json::Arr(x), Json::Arr(y)) => {
            lemma_elems_order_antisym(x, y, 0);
        },
        (Json::Obj(x), Json::Obj(y)) => {
            let px = key_perm(x);
            let py = key_perm(y);
            lemma_keys_order_antisym(x, px, y, py, 0);
            lemma_vals_order_antisym(x, px, y, py, 0);
        },
        (Json::Arr(_), _) => {},
        (Json::Obj(_), _) => {},
        (_, Json::Arr(_)) => {},
        (_, Json::Obj(_)) => {},
        _ => {
            lemma_scalar_order_antisym(resolve(a), resolve(b));
        },
    }
}

proof fn lemma_elems_order_antisym(x: Seq<Json>, y: Seq<Json>, i: int)
    ensures
        elems_order(x, y, i) == flip(elems_order(y, x, i)),
    decreases x, x.len() - i,
{
    if 0 <= i < x.len() && i < y.len() {
        law_order_antisymmetric(x[i], y[i]);
        lemma_elems_order_antisym(x, y, i + 1);
    }
}

proof fn lemma_vals_order_antisym(x: Entries, px: Seq<int>, y: Entries, py: Seq<int>, i: int)
    ensures
        vals_order(x, px, y, py, i) == flip(vals_order(y, py, x, px, i)),
    decreases x, px.len() - i,
{
    if 0 <= i < px.len() && i < py.len() {
        let j = px[i];
        let k = py[i];
        if 0 <= j < x.len() && 0 <= k < y.len() {
            law_order_antisymmetric(x[j].1, y[k].1);
            lemma_vals_order_antisym(x, px, y, py, i + 1);
        }
    }
}

/// Sorting an array gives its elements (each position of the input
/// exactly once) in an order where no element comes after its successor.
pub proof fn law_sort_sorted_permutation(s: Seq<Json>)
    ensures
        sorted_json(s).len() == s.len(),
        forall|i: int|
            0 <= i < len_int(s) - 1 ==> json_order(sorted_json(s)[i], #[trigger] sorted_json(s)[i + 1])
                != Ordering::Greater,
        forall|i: int| 0 <= i < s.len() ==> 0 <= #[trigger] sort_perm(s)[i] < s.len(),
        forall|i: int, j: int|
            0 <= i < j < s.len() ==> #[trigger] sort_perm(s)[i] != #[trigger] sort_perm(s)[j],
        sorted_json(s) == permute(s, sort_perm(s)),
{
    let gt = json_gt(s);
    assert forall|i: int, k: int| #[trigger] gt(i, k) implies !gt(k, i) by {
        law_order_antisymmetric(s[i], s[k]);
    }
    lemma_sorted_upto_sorted(gt, s.len());
    lemma_sorted_upto_bounds(gt, s.len());
    lemma_sorted_upto_distinct(gt, s.len());
}


/// Sorting is stable: of two elements that are equal in the order (by
/// keys: whose keys are), the one that came first in the input comes
/// first in the result.
pub proof fn law_sort_stable(ks: Seq<Json>)
    ensures
        forall|i: int, j: int|
            0 <= i < j < ks.len() && json_order(ks[sort_perm(ks)[i]], ks[sort_perm(ks)[j]]) == Ordering::Equal
                ==> #[trigger] sort_perm(ks)[i] < #[trigger] sort_perm(ks)[j],
{
    let gt = json_gt(ks);
    let p = sort_perm(ks);
    lemma_sorted_upto_stable(gt, ks.len());
    assert forall|i: int, j: int|
        0 <= i < j < ks.len() && json_order(ks[p[i]], ks[p[j]]) == Ordering::Equal implies #[trigger] p[i]
        < #[trigger] p[j] by {
        law_order_antisymmetric(ks[p[i]], ks[p[j]]);
        assert(!gt(p[i], p[j]) && !gt(p[j], p[i]));
    }
}

/// Sorting by keys puts the element `sort_perm(ks)[i]` at position `i`,
/// takes each element exactly once, and the keys taken in that order
/// are sorted.
pub proof fn law_sort_by_keys_sorted(s: Seq<Json>, ks: Seq<Json>)
    requires
        s.len() == ks.len(),
    ensures
        sorted_by_keys(s, ks).len() == s.len(),
        forall|i: int| 0 <= i < s.len() ==> #[trigger] sorted_by_keys(s, ks)[i] == s[sort_perm(ks)[i]],
        forall|i: int| 0 <= i < s.len() ==> #[trigger] sorted_json(ks)[i] == ks[sort_perm(ks)[i]],
        forall|i: int|
            0 <= i < len_int(s) - 1 ==> json_order(sorted_json(ks)[i], #[trigger] sorted_json(ks)[i + 1])
                != Ordering::Greater,
        forall|i: int| 0 <= i < s.len() ==> 0 <= #[trigger] sort_perm(ks)[i] < s.len(),
        forall|i: int, j: int|
            0 <= i < j < s.len() ==> #[trigger] sort_perm(ks)[i] != #[trigger] sort_perm(ks)[j],
{
    law_sort_sorted_permutation(ks);
}

proof fn lemma_bytes_order_equal(a: Seq<u8>, b: Seq<u8>)
    ensures
        (bytes_order(a, b) == Ordering::Equal) == (a == b),
    decreases a.len(),
{
    if a.len() > 0 && b.len() > 0 && a[0] == b[0] {
        lemma_bytes_order_equal(a.drop_first(), b.drop_first());
        if a.drop_first() == b.drop_first() {
            assert forall|i: int| 0 <= i < a.len() implies a[i] == b[i] by {
                if i > 0 {
                    assert(a[i] == a.drop_first()[i - 1]);
                    assert(b[i] == b.drop_first()[i - 1]);
                }
            }
            assert(a =~= b);
        }
    } else if a.len() == 0 && b.len() == 0 {
        assert(a =~= b);
    }
}

pub proof fn lemma_bytes_order_trans(a: Seq<u8>, b: Seq<u8>, c: Seq<u8>)
    requires
        bytes_order(a, b) == Ordering::Less,
        bytes_order(b, c) == Ordering::Less,
    ensures
        bytes_order(a, c) == Ordering::Less,
    decreases a.len(),
{
    if a.len() > 0 && b.len() > 0 && c.len() > 0 && a[0] == b[0] && b[0] == c[0] {
        lemma_bytes_order_trans(a.drop_first(), b.drop_first(), c.drop_first());
    }
}

/// Two strings are equal in the order exactly when they are equal.
pub proof fn lemma_str_order_equal(a: Seq<char>, b: Seq<char>)
    ensures
        (str_order(a, b) == Ordering::Equal) == (a == b),
{
    lemma_bytes_order_equal(encode_utf8(a), encode_utf8(b));
    encode_utf8_decode_utf8(a);
    encode_utf8_decode_utf8(b);
}

/// The string at `k` comes before the one at `k + 1`.
pub open spec fn ascends_at(s: Seq<Seq<char>>, k: int) -> bool {
    str_order(s[k], s[k + 1]) == Ordering::Less
}

proof fn lemma_str_chain_from(s: Seq<Seq<char>>, t: int, u: int)
    requires
        forall|k: int| 0 <= k < s.len() - 1 ==> #[trigger] ascends_at(s, k),
        0 <= t < u < s.len(),
    ensures
        str_order(s[t], s[u]) == Ordering::Less,
    decreases u - t,
{
    if u > t + 1 {
        lemma_str_chain_from(s, t, u - 1);
        assert(ascends_at(s, u - 1));
        lemma_bytes_order_trans(encode_utf8(s[t]), encode_utf8(s[u - 1]), encode_utf8(s[u]));
    } else {
        assert(ascends_at(s, t));
    }
}

/// The keys of the entries of `x`, in the order in which objects are compared.
pub open spec fn sorted_keys(x: Entries) -> Seq<Seq<char>> {
    Seq::new(x.len(), |t: int| x[key_perm(x)[t]].0)
}

/// In an object with distinct keys, `key_perm` lists each entry exactly
/// once, in strictly increasing order of the keys.
proof fn lemma_key_perm(x: Entries)
    requires
        keys_distinct(x),
    ensures
        key_perm(x).len() == x.len(),
        forall|t: int| 0 <= t < x.len() ==> 0 <= #[trigger] key_perm(x)[t] < x.len(),
        forall|j: int| 0 <= j < x.len() ==> #[trigger] key_perm(x).contains(j),
        forall|t: int, u: int|
            0 <= t < u < x.len() ==> str_order(#[trigger] sorted_keys(x)[t], #[trigger] sorted_keys(x)[u])
                == Ordering::Less,
{
    let n = x.len();
    let keys = entry_keys(x);
    let gt = str_gt(keys);
    let p = key_perm(x);
    assert forall|i: int, k: int| #[trigger] gt(i, k) implies !gt(k, i) by {
        lemma_bytes_order_antisym(encode_utf8(keys[i]), encode_utf8(keys[k]));
    }
    lemma_sorted_upto_sorted(gt, n);
    lemma_sorted_upto_bounds(gt, n);
    lemma_sorted_upto_distinct(gt, n);
    let sk = sorted_keys(x);
    assert forall|t: int| 0 <= t < sk.len() - 1 implies #[trigger] ascends_at(sk, t) by {
        assert(!gt(p[t], p[t + 1]));
        assert(p[t] != p[t + 1]);
        lemma_str_order_equal(sk[t], sk[t + 1]);
        lemma_bytes_order_antisym(encode_utf8(sk[t]), encode_utf8(sk[t + 1]));
    }
    assert forall|t: int, u: int| 0 <= t < u < x.len() implies str_order(#[trigger] sk[t], #[trigger] sk[u])
        == Ordering::Less by {
        lemma_str_chain_from(sk, t, u);
    }
    let f = |t: int| p[t];
    let dom = set_int_range(0, len_int(x));
    lemma_int_range(0, len_int(x));
    assert forall|i: int, j: int| dom.contains(i) && dom.contains(j) && #[trigger] f(i) == #[trigger] f(j) implies i == j by {
        if i < j {
            assert(p[i] != p[j]);
        } else if j < i {
            assert(p[j] != p[i]);
        }
    }
    let img = dom.map(f);
    lemma_map_size(dom, img, f);
    assert forall|k: int| img.contains(k) implies dom.contains(k) by {
        let i = choose|i: int| dom.contains(i) && k == f(i);
        assert(0 <= p[i] < n);
    }
    lemma_subset_equality(img, dom);
    assert forall|j: int| 0 <= j < x.len() implies #[trigger] p.contains(j) by {
        assert(dom.contains(j));
        assert(img.contains(j));
        let i = choose|i: int| dom.contains(i) && j == f(i);
        assert(p[i] == j);
    }
}

/// Two strictly increasing sequences of strings that hold the same
/// strings agree at `t` if they agree before `t`.
proof fn lemma_sorted_unique_at(ka: Seq<Seq<char>>, kb: Seq<Seq<char>>, t: int)
    requires
        ka.len() == kb.len(),
        0 <= t < ka.len(),
        forall|i: int, j: int| 0 <= i < j < ka.len() ==> str_order(#[trigger] ka[i], #[trigger] ka[j]) == Ordering::Less,
        forall|i: int, j: int| 0 <= i < j < kb.len() ==> str_order(#[trigger] kb[i], #[trigger] kb[j]) == Ordering::Less,
        forall|i: int| 0 <= i < ka.len() ==> kb.contains(#[trigger] ka[i]),
        forall|i: int| 0 <= i < kb.len() ==> ka.contains(#[trigger] kb[i]),
        forall|s: int| 0 <= s < t ==> ka[s] == kb[s],
    ensures
        ka[t] == kb[t],
{
    if ka[t] != kb[t] {
        assert(kb.contains(ka[t]));
        let u = choose|u: int| 0 <= u < kb.len() && kb[u] == ka[t];
        assert(ka.contains(kb[t]));
        let v = choose|v: int| 0 <= v < ka.len() && ka[v] == kb[t];
        lemma_bytes_order_refl(encode_utf8(ka[t]));
        lemma_bytes_order_refl(encode_utf8(kb[t]));
        if u < t {
            assert(ka[u] == kb[u]);
            assert(str_order(ka[u], ka[t]) == Ordering::Less);
        } else if v < t {
            assert(ka[v] == kb[v]);
            assert(str_order(kb[v], kb[t]) == Ordering::Less);
        } else {
            assert(u > t && v > t);
            assert(str_order(kb[t], kb[u]) == Ordering::Less);
            assert(str_order(ka[t], ka[v]) == Ordering::Less);
            lemma_bytes_order_antisym(encode_utf8(ka[t]), encode_utf8(kb[t]));
        }
    }
}

/// Two strictly increasing sequences of strings that hold the same strings agree.
proof fn lemma_sorted_unique(ka: Seq<Seq<char>>, kb: Seq<Seq<char>>, m: int)
    requires
        ka.len() == kb.len(),
        0 <= m <= ka.len(),
        forall|i: int, j: int| 0 <= i < j < ka.len() ==> str_order(#[trigger] ka[i], #[trigger] ka[j]) == Ordering::Less,
        forall|i: int, j: int| 0 <= i < j < kb.len() ==> str_order(#[trigger] kb[i], #[trigger] kb[j]) == Ordering::Less,
        forall|i: int| 0 <= i < ka.len() ==> kb.contains(#[trigger] ka[i]),
        forall|i: int| 0 <= i < kb.len() ==> ka.contains(#[trigger] kb[i]),
    ensures
        forall|s: int| 0 <= s < m ==> ka[s] == kb[s],
    decreases m,
{
    if m > 0 {
        lemma_sorted_unique(ka, kb, m - 1);
        lemma_sorted_unique_at(ka, kb, m - 1);
    }
}

proof fn lemma_elems_order_equal(x: Seq<Json>, y: Seq<Json>, i: int)
    requires
        0 <= i <= x.len(),
        i <= y.len(),
    ensures
        (elems_order(x, y, i) == Ordering::Equal) == (x.len() == y.len() && forall|k: int|
            i <= k < x.len() ==> json_order(#[trigger] x[k], y[k]) == Ordering::Equal),
    decreases x.len() - i,
{
    if i < x.len() && i < y.len() {
        lemma_elems_order_equal(x, y, i + 1);
    }
}

pub proof fn lemma_keys_order_equal(x: Entries, px: Seq<int>, y: Entries, py: Seq<int>, i: int)
    requires
        0 <= i <= px.len(),
        i <= py.len(),
    ensures
        (keys_order(x, px, y, py, i) == Ordering::Equal) == (px.len() == py.len() && forall|t: int|
            i <= t < px.len() ==> #[trigger] str_order(x[px[t]].0, y[py[t]].0) == Ordering::Equal),
    decreases px.len() - i,
{
    if i < px.len() && i < py.len() {
        lemma_keys_order_equal(x, px, y, py, i + 1);
    }
}

proof fn lemma_vals_order_equal(x: Entries, px: Seq<int>, y: Entries, py: Seq<int>, i: int)
    requires
        0 <= i <= px.len(),
        px.len() == py.len(),
        forall|t: int| 0 <= t < px.len() ==> 0 <= #[trigger] px[t] < x.len(),
        forall|t: int| 0 <= t < py.len() ==> 0 <= #[trigger] py[t] < y.len(),
    ensures
        (vals_order(x, px, y, py, i) == Ordering::Equal) == (forall|t: int|
            i <= t < px.len() ==> #[trigger] json_order(x[px[t]].1, y[py[t]].1) == Ordering::Equal),
    decreases px.len() - i,
{
    if i < px.len() {
        let j = px[i];
        let k = py[i];
        assert(0 <= j < x.len() && 0 <= k < y.len());
        lemma_vals_order_equal(x, px, y, py, i + 1);
        let c = json_order(x[j].1, y[k].1);
        assert(vals_order(x, px, y, py, i) == if c != Ordering::Equal {
            c
        } else {
            vals_order(x, px, y, py, i + 1)
        });
    }
}

/// Equality and the order agree on the values at position `t` of the
/// compared orders of `x` and `y`.
pub open spec fn agree_at(x: Entries, y: Entries, t: int) -> bool {
    let a = x[key_perm(x)[t]].1;
    let b = y[key_perm(y)[t]].1;
    json_eq(a, b) == (json_order(a, b) == Ordering::Equal)
}

/// Objects with distinct keys whose values agree (see [`agree_at`]) are
/// equal exactly when they are equal in the order.
proof fn lemma_obj_eq_iff_order_equal(x: Entries, y: Entries)
    requires
        keys_distinct(x),
        keys_distinct(y),
        x.len() == y.len() ==> forall|t: int| 0 <= t < x.len() ==> #[trigger] agree_at(x, y, t),
    ensures
        json_eq(Json::Obj(x), Json::Obj(y)) == (json_order(Json::Obj(x), Json::Obj(y)) == Ordering::Equal),
{
    let px = key_perm(x);
    let py = key_perm(y);
    let kx = sorted_keys(x);
    let ky = sorted_keys(y);
    lemma_key_perm(x);
    lemma_key_perm(y);
    lemma_keys_order_equal(x, px, y, py, 0);
    let a = Json::Obj(x);
    let b = Json::Obj(y);
    if json_eq(a, b) {
        lemma_keys_cover(x, y);
        assert forall|t: int| 0 <= t < kx.len() implies ky.contains(#[trigger] kx[t]) by {
            let i = px[t];
            let q = key_pos(y, x[i].0);
            assert(q >= 0);
            lemma_key_pos(y, x[i].0);
            assert(py.contains(q));
            let s = choose|s: int| 0 <= s < py.len() && py[s] == q;
            assert(ky[s] == kx[t]);
        }
        assert forall|t: int| 0 <= t < ky.len() implies kx.contains(#[trigger] ky[t]) by {
            let j = py[t];
            let q = key_pos(x, y[j].0);
            assert(q >= 0);
            lemma_key_pos(x, y[j].0);
            assert(px.contains(q));
            let s = choose|s: int| 0 <= s < px.len() && px[s] == q;
            assert(kx[s] == ky[t]);
        }
        lemma_sorted_unique(kx, ky, len_int(kx));
        assert forall|t: int| 0 <= t < px.len() implies #[trigger] str_order(x[px[t]].0, y[py[t]].0)
            == Ordering::Equal by {
            assert(kx[t] == ky[t]);
            lemma_str_order_equal(kx[t], ky[t]);
        }
        lemma_vals_order_equal(x, px, y, py, 0);
        assert forall|t: int| 0 <= t < px.len() implies #[trigger] json_order(x[px[t]].1, y[py[t]].1)
            == Ordering::Equal by {
            let i = px[t];
            assert(kx[t] == ky[t]);
            lemma_key_pos_distinct(y, py[t]);
            assert(key_pos(y, x[i].0) == py[t]);
            assert(agree_at(x, y, t));
        }
    }
    if json_order(a, b) == Ordering::Equal {
        assert(keys_order(x, px, y, py, 0) == Ordering::Equal);
        lemma_vals_order_equal(x, px, y, py, 0);
        assert forall|i: int| 0 <= i < x.len() implies {
            let p = key_pos(y, (#[trigger] x[i]).0);
            p >= 0 && json_eq(x[i].1, y[p].1)
        } by {
            assert(px.contains(i));
            let t = choose|t: int| 0 <= t < px.len() && px[t] == i;
            assert(str_order(x[px[t]].0, y[py[t]].0) == Ordering::Equal);
            lemma_str_order_equal(x[i].0, y[py[t]].0);
            lemma_key_pos_distinct(y, py[t]);
            assert(json_order(x[px[t]].1, y[py[t]].1) == Ordering::Equal);
            assert(agree_at(x, y, t));
        }
    }
}

/// Equality agrees with the order: two values (whose objects have
/// distinct keys) are equal exactly when the order finds them equal.
pub proof fn law_eq_iff_order_equal(a: Json, b: Json)
    requires
        json_wf(a),
        json_wf(b),
    ensures
        json_eq(a, b) == (json_order(a, b) == Ordering::Equal),
    decreases a,
{
    match (a, b) {
        (Json::Arr(x), Json::Arr(y)) => {
            lemma_elems_order_equal(x, y, 0);
            if x.len() == y.len() {
                assert forall|k: int| 0 <= k < x.len() implies json_eq(#[trigger] x[k], y[k]) == (
                json_order(x[k], y[k]) == Ordering::Equal) by {
                    law_eq_iff_order_equal(x[k], y[k]);
                }
            }
        },
        (Json::Obj(x), Json::Obj(y)) => {
            if x.len() == y.len() {
                lemma_key_perm(x);
                lemma_key_perm(y);
                assert forall|t: int| 0 <= t < x.len() implies #[trigger] agree_at(x, y, t) by {
                    let i = key_perm(x)[t];
                    let j = key_perm(y)[t];
                    law_eq_iff_order_equal(x[i].1, y[j].1);
                }
            }
            lemma_obj_eq_iff_order_equal(x, y);
        },
        (Json::Arr(_), _) => {},
        (Json::Obj(_), _) => {},
        (_, Json::Arr(_)) => {},
        (_, Json::Obj(_)) => {},
        _ => {
            match (resolve(a), resolve(b)) {
                (Json::Str(s), Json::Str(t)) => {
                    lemma_str_order_equal(s, t);
                },
                _ => {},
            }
        },
    }
}

/// The keys of an object, as strings, in the order in which objects are compared.
pub open spec fn compared_keys(x: Entries) -> Seq<Json> {
    Seq::new(x.len(), |t: int| Json::Str(x[key_perm(x)[t]].0))
}

/// The values of an object, in the order in which objects are compared.
pub open spec fn compared_values(x: Entries) -> Seq<Json> {
    Seq::new(x.len(), |t: int| x[key_perm(x)[t]].1)
}

proof fn lemma_keys_order_as_elems(x: Entries, y: Entries, i: int)
    requires
        key_perm(x).len() == x.len(),
        key_perm(y).len() == y.len(),
        0 <= i <= x.len(),
        i <= y.len(),
    ensures
        keys_order(x, key_perm(x), y, key_perm(y), i) == elems_order(compared_keys(x), compared_keys(y), i),
    decreases x.len() - i,
{
    assert(compared_keys(x).len() == x.len() && compared_keys(y).len() == y.len());
    if i < x.len() && i < y.len() {
        lemma_keys_order_as_elems(x, y, i + 1);
        let a = x[key_perm(x)[i]].0;
        let b = y[key_perm(y)[i]].0;
        assert(compared_keys(x)[i] == Json::Str(a));
        assert(compared_keys(y)[i] == Json::Str(b));
        assert(json_order(Json::Str(a), Json::Str(b)) == str_order(a, b));
    }
}

proof fn lemma_vals_order_as_elems(x: Entries, y: Entries, i: int)
    requires
        key_perm(x).len() == x.len(),
        key_perm(y).len() == y.len(),
        x.len() == y.len(),
        forall|t: int| 0 <= t < x.len() ==> 0 <= #[trigger] key_perm(x)[t] < x.len(),
        forall|t: int| 0 <= t < y.len() ==> 0 <= #[trigger] key_perm(y)[t] < y.len(),
        0 <= i <= x.len(),
    ensures
        vals_order(x, key_perm(x), y, key_perm(y), i) == elems_order(compared_values(x), compared_values(y), i),
    decreases x.len() - i,
{
    assert(compared_values(x).len() == x.len() && compared_values(y).len() == y.len());
    if i < x.len() {
        assert(0 <= key_perm(x)[i] < x.len() && 0 <= key_perm(y)[i] < y.len());
        lemma_vals_order_as_elems(x, y, i + 1);
        assert(compared_values(x)[i] == x[key_perm(x)[i]].1);
        assert(compared_values(y)[i] == y[key_perm(y)[i]].1);
    }
}

/// Objects are ordered first by their keys, sorted and compared as an
/// array of strings, and then by the values of those keys, compared as an
/// array; the sorted keys of an object with distinct keys ascend strictly.
pub proof fn law_object_order(x: Entries, y: Entries)
    ensures
        json_order(Json::Obj(x), Json::Obj(y)) == ({
            let kc = json_order(Json::Arr(compared_keys(x)), Json::Arr(compared_keys(y)));
            if kc != Ordering::Equal {
                kc
            } else {
                json_order(Json::Arr(compared_values(x)), Json::Arr(compared_values(y)))
            }
        }),
        keys_distinct(x) ==> forall|t: int, u: int|
            0 <= t < u < x.len() ==> json_order(#[trigger] compared_keys(x)[t], #[trigger] compared_keys(x)[u])
                == Ordering::Less,
{
    let gx = str_gt(entry_keys(x));
    let gy = str_gt(entry_keys(y));
    lemma_sorted_upto_bounds(gx, x.len());
    lemma_sorted_upto_bounds(gy, y.len());
    lemma_keys_order_as_elems(x, y, 0);
    let kc = keys_order(x, key_perm(x), y, key_perm(y), 0);
    if kc == Ordering::Equal {
        lemma_keys_order_equal(x, key_perm(x), y, key_perm(y), 0);
        lemma_vals_order_as_elems(x, y, 0);
    }
    if keys_distinct(x) {
        lemma_key_perm(x);
        assert forall|t: int, u: int| 0 <= t < u < x.len() implies json_order(
            #[trigger] compared_keys(x)[t],
            #[trigger] compared_keys(x)[u],
        ) == Ordering::Less by {
            assert(sorted_keys(x)[t] == x[key_perm(x)[t]].0);
            assert(sorted_keys(x)[u] == x[key_perm(x)[u]].0);
            assert(str_order(sorted_keys(x)[t], sorted_keys(x)[u]) == Ordering::Less);
        }
    }
}

} // verus!
