//! Stable insertion sort of indices, the basis of sorting arrays and of
//! comparing objects by their keys.
use vstd::prelude::*;
use crate::val::{Json, Val, Obj, Error, Fault, ValR, idx_seq, len_int, entry_keys, vals_view, valr_view, lemma_arr_model};
use crate::order::{str_gt, str_after, key_perm, json_gt, sort_perm, val_after};

verus! {

/// Position at which index `k` goes into `s`, which is sorted by the
/// relation `gt` ("the key of `i` is greater than the key of `k`"): after
/// every index whose key is not greater, so that the sort is stable.
pub open spec fn insert_pos(s: Seq<int>, gt: spec_fn(int, int) -> bool, k: int) -> int
    decreases s.len(),
{
    if s.len() == 0 {
        0
    } else if gt(s.last(), k) {
        insert_pos(s.drop_last(), gt, k)
    } else {
        len_int(s)
    }
}

/// The indices `0..n` in the order of a stable insertion sort by `gt`.
pub open spec fn sorted_upto(gt: spec_fn(int, int) -> bool, n: nat) -> Seq<int>
    decreases n,
{
    if n == 0 {
        Seq::empty()
    } else {
        let s = sorted_upto(gt, (n - 1) as nat);
        s.insert(insert_pos(s, gt, n - 1), n - 1)
    }
}

/// The ranges of the insertion position.
pub proof fn lemma_insert_pos_range(s: Seq<int>, gt: spec_fn(int, int) -> bool, k: int)
    ensures
        0 <= insert_pos(s, gt, k) <= s.len(),
    decreases s.len(),
{
    if s.len() > 0 && gt(s.last(), k) {
        lemma_insert_pos_range(s.drop_last(), gt, k);
    }
}

/// A stable insertion sort of `0..n` holds `n` indices, each below `n`.
pub proof fn lemma_sorted_upto_bounds(gt: spec_fn(int, int) -> bool, n: nat)
    ensures
        sorted_upto(gt, n).len() == n,
        forall|i: int| 0 <= i < n ==> 0 <= #[trigger] sorted_upto(gt, n)[i] < n,
    decreases n,
{
    if n > 0 {
        let s = sorted_upto(gt, (n - 1) as nat);
        lemma_sorted_upto_bounds(gt, (n - 1) as nat);
        lemma_insert_pos_range(s, gt, n - 1);
        let p = insert_pos(s, gt, n - 1);
        assert forall|i: int| 0 <= i < n implies 0 <= #[trigger] sorted_upto(gt, n)[i] < n by {
            if i < p {
                assert(sorted_upto(gt, n)[i] == s[i]);
            } else if i > p {
                assert(sorted_upto(gt, n)[i] == s[i - 1]);
            }
        }
    }
}

/// The insertion position comes after every index whose key is not
/// greater than that of `k`, and before every index whose key is.
pub proof fn lemma_insert_pos_props(s: Seq<int>, gt: spec_fn(int, int) -> bool, k: int)
    ensures
        0 <= insert_pos(s, gt, k) <= s.len(),
        insert_pos(s, gt, k) > 0 ==> !gt(s[insert_pos(s, gt, k) - 1], k),
        forall|j: int| insert_pos(s, gt, k) <= j < s.len() ==> gt(#[trigger] s[j], k),
    decreases s.len(),
{
    if s.len() > 0 && gt(s.last(), k) {
        let t = s.drop_last();
        lemma_insert_pos_props(t, gt, k);
        let p = insert_pos(t, gt, k);
        assert forall|j: int| p <= j < s.len() implies gt(#[trigger] s[j], k) by {
            if j < t.len() {
                assert(s[j] == t[j]);
            }
        }
        if p > 0 {
            assert(s[p - 1] == t[p - 1]);
        }
    }
}

/// If `gt` is asymmetric, the stable insertion sort orders every pair of
/// neighbours: the first is not greater than the second.
pub proof fn lemma_sorted_upto_sorted(gt: spec_fn(int, int) -> bool, n: nat)
    requires
        forall|i: int, k: int| #[trigger] gt(i, k) ==> !gt(k, i),
    ensures
        forall|i: int|
            #![trigger sorted_upto(gt, n)[i]]
            0 <= i < n - 1 ==> !gt(sorted_upto(gt, n)[i], sorted_upto(gt, n)[i + 1]),
    decreases n,
{
    if n > 0 {
        let m = (n - 1) as nat;
        let t = sorted_upto(gt, m);
        lemma_sorted_upto_sorted(gt, m);
        lemma_sorted_upto_bounds(gt, m);
        lemma_insert_pos_props(t, gt, n - 1);
        let p = insert_pos(t, gt, n - 1);
        let s = sorted_upto(gt, n);
        assert(s == t.insert(p, n - 1));
        assert forall|i: int| 0 <= i < n - 1 implies !gt(#[trigger] s[i], s[i + 1]) by {
            if i + 1 < p {
                assert(s[i] == t[i] && s[i + 1] == t[i + 1]);
                assert(t[i] == sorted_upto(gt, m)[i]);
            } else if i + 1 == p {
                assert(s[i] == t[p - 1] && s[i + 1] == n - 1);
            } else if i == p {
                assert(s[i] == n - 1 && s[i + 1] == t[p]);
                assert(gt(t[p], n - 1));
            } else {
                assert(s[i] == t[i - 1] && s[i + 1] == t[i]);
                assert(t[i - 1] == sorted_upto(gt, m)[i - 1]);
            }
        }
    }
}

/// The stable insertion sort holds no index twice.
pub proof fn lemma_sorted_upto_distinct(gt: spec_fn(int, int) -> bool, n: nat)
    ensures
        forall|i: int, j: int|
            0 <= i < j < n ==> #[trigger] sorted_upto(gt, n)[i] != #[trigger] sorted_upto(gt, n)[j],
    decreases n,
{
    if n > 0 {
        let m = (n - 1) as nat;
        let t = sorted_upto(gt, m);
        lemma_sorted_upto_distinct(gt, m);
        lemma_sorted_upto_bounds(gt, m);
        lemma_insert_pos_range(t, gt, n - 1);
        let p = insert_pos(t, gt, n - 1);
        let s = sorted_upto(gt, n);
        assert forall|i: int, j: int| 0 <= i < j < n implies s[i] != s[j] by {
            let a = if i < p { i } else { i - 1 };
            let b = if j < p { j } else { j - 1 };
            if i == p {
                assert(s[j] == t[b]);
            } else if j == p {
                assert(s[i] == t[a]);
            } else {
                assert(s[i] == t[a] && s[j] == t[b]);
                assert(t[a] == sorted_upto(gt, m)[a]);
                assert(t[b] == sorted_upto(gt, m)[b]);
            }
        }
    }
}

/// The stable insertion sort keeps indices whose keys are not greater
/// than each other in their original order.
pub proof fn lemma_sorted_upto_stable(gt: spec_fn(int, int) -> bool, n: nat)
    ensures
        forall|i: int, j: int|
            0 <= i < j < n && !gt(sorted_upto(gt, n)[i], sorted_upto(gt, n)[j]) && !gt(
                sorted_upto(gt, n)[j],
                sorted_upto(gt, n)[i],
            ) ==> #[trigger] sorted_upto(gt, n)[i] < #[trigger] sorted_upto(gt, n)[j],
    decreases n,
{
    if n > 0 {
        let m = (n - 1) as nat;
        let t = sorted_upto(gt, m);
        lemma_sorted_upto_stable(gt, m);
        lemma_sorted_upto_bounds(gt, m);
        lemma_insert_pos_props(t, gt, n - 1);
        let p = insert_pos(t, gt, n - 1);
        let s = sorted_upto(gt, n);
        assert forall|i: int, j: int|
            0 <= i < j < n && !gt(s[i], s[j]) && !gt(s[j], s[i]) implies s[i] < s[j] by {
            let a = if i < p { i } else { i - 1 };
            let b = if j < p { j } else { j - 1 };
            if i == p {
                assert(s[i] == n - 1 && s[j] == t[b]);
                assert(gt(t[b], n - 1));
            } else if j == p {
                assert(s[i] == t[a] && s[j] == n - 1);
                assert(t[a] == sorted_upto(gt, m)[a]);
            } else {
                assert(s[i] == t[a] && s[j] == t[b]);
                assert(t[a] == sorted_upto(gt, m)[a]);
                assert(t[b] == sorted_upto(gt, m)[b]);
            }
        }
    }
}

/// One step of the scan for the insertion position, from the end.
proof fn lemma_insert_pos_step(s: Seq<int>, gt: spec_fn(int, int) -> bool, k: int, j: int)
    requires
        0 < j <= s.len(),
    ensures
        gt(s[j - 1], k) ==> insert_pos(s.take(j), gt, k) == insert_pos(s.take(j - 1), gt, k),
        !gt(s[j - 1], k) ==> insert_pos(s.take(j), gt, k) == j,
{
    assert(s.take(j).drop_last() =~= s.take(j - 1));
    assert(s.take(j).last() == s[j - 1]);
}

/// The indices of the entries of an object, ordered by key (stably).
pub fn key_indices(o: &Obj) -> (r: Vec<usize>)
    ensures
        idx_seq(r@) == key_perm(o.entries_view()),
        r@.len() == o.entries_view().len(),
        forall|i: int| 0 <= i < r@.len() ==> #[trigger] r@[i] < o.entries_view().len(),
{
    let ghost gt = str_gt(entry_keys(o.entries_view()));
    let n = o.entries.len();
    let mut v: Vec<usize> = Vec::new();
    let mut k: usize = 0;
    assert(idx_seq(v@) =~= sorted_upto(gt, 0));
    while k < n
        invariant
            k <= n,
            n == o.entries@.len(),
            gt == str_gt(entry_keys(o.entries_view())),
            idx_seq(v@) == sorted_upto(gt, k as nat),
        decreases n - k,
    {
        proof {
            lemma_sorted_upto_bounds(gt, k as nat);
        }
        let ghost s = idx_seq(v@);
        let mut j: usize = v.len();
        assert(s.take(j as int) =~= s);
        while j > 0 && str_after(&o.entries[v[j - 1]].0, &o.entries[k].0)
            invariant
                j <= v@.len(),
                v@.len() == k,
                k < n,
                n == o.entries@.len(),
                s == idx_seq(v@),
                s == sorted_upto(gt, k as nat),
                forall|i: int| 0 <= i < k ==> 0 <= #[trigger] s[i] < k,
                gt == str_gt(entry_keys(o.entries_view())),
                insert_pos(s, gt, k as int) == insert_pos(s.take(j as int), gt, k as int),
            decreases j,
        {
            proof {
                lemma_insert_pos_step(s, gt, k as int, j as int);
            }
            j = j - 1;
        }
        proof {
            if j > 0 {
                assert(s[j - 1] == v@[j - 1] as int);
                lemma_insert_pos_step(s, gt, k as int, j as int);
            } else {
                assert(s.take(0) =~= Seq::<int>::empty());
            }
        }
        v.insert(j, k);
        assert(idx_seq(v@) =~= s.insert(j as int, k as int));
        k = k + 1;
    }
    proof {
        lemma_sorted_upto_bounds(gt, n as nat);
        assert forall|i: int| 0 <= i < v@.len() implies #[trigger] v@[i] < o.entries@.len() by {
            assert(idx_seq(v@)[i] == v@[i] as int);
        }
    }
    v
}


/// The elements of `s` at the positions `p`.
pub open spec fn permute(s: Seq<Json>, p: Seq<int>) -> Seq<Json> {
    Seq::new(p.len(), |i: int| s[p[i]])
}

/// `s` stably sorted by the total order.
pub open spec fn sorted_json(s: Seq<Json>) -> Seq<Json> {
    permute(s, sort_perm(s))
}

/// `s` stably sorted by `keys` (the key of `s[i]` is `keys[i]`).
pub open spec fn sorted_by_keys(s: Seq<Json>, keys: Seq<Json>) -> Seq<Json> {
    permute(s, sort_perm(keys))
}

/// What sorting gives: an array sorted stably by the total order, or an error.
pub open spec fn json_sort(j: Json) -> Result<Json, Fault> {
    match j {
        Json::Arr(a) => Ok(Json::Arr(sorted_json(a))),
        _ => Err(Fault::Sort(j)),
    }
}

/// `k` is the key that `f` gives for a value with model `x`.
pub open spec fn key_result<F: Fn(Val) -> Result<Vec<Val>, Error>>(f: F, x: Json, k: Json) -> bool {
    exists|arg: Val, kv: Vec<Val>|
        arg@ == x && call_ensures(f, (arg,), Ok::<Vec<Val>, Error>(kv)) && k == Json::Arr(
            vals_view(kv@),
        )
}

/// `f` gives a key for a value with model `x`.
pub open spec fn key_exists<F: Fn(Val) -> Result<Vec<Val>, Error>>(f: F, x: Json) -> bool {
    exists|k: Json| key_result(f, x, k)
}

/// `f` fails with `e` on a value with model `x`.
pub open spec fn key_failure<F: Fn(Val) -> Result<Vec<Val>, Error>>(f: F, x: Json, e: Fault) -> bool {
    exists|arg: Val, err: Error|
        arg@ == x && call_ensures(f, (arg,), Err::<Vec<Val>, Error>(err)) && err@ == e
}

/// The indices of `keys` in stably sorted order.
pub fn val_indices(keys: &Vec<Val>) -> (r: Vec<usize>)
    ensures
        idx_seq(r@) == sort_perm(vals_view(keys@)),
        r@.len() == keys@.len(),
        forall|i: int| 0 <= i < r@.len() ==> #[trigger] r@[i] < keys@.len(),
{
    let ghost gt = json_gt(vals_view(keys@));
    let n = keys.len();
    let mut v: Vec<usize> = Vec::new();
    let mut k: usize = 0;
    assert(idx_seq(v@) =~= sorted_upto(gt, 0));
    while k < n
        invariant
            k <= n,
            n == keys@.len(),
            gt == json_gt(vals_view(keys@)),
            idx_seq(v@) == sorted_upto(gt, k as nat),
        decreases n - k,
    {
        proof {
            lemma_sorted_upto_bounds(gt, k as nat);
        }
        let ghost s = idx_seq(v@);
        let mut j: usize = v.len();
        assert(s.take(j as int) =~= s);
        while j > 0 && val_after(&keys[v[j - 1]], &keys[k])
            invariant
                j <= v@.len(),
                v@.len() == k,
                k < n,
                n == keys@.len(),
                s == idx_seq(v@),
                s == sorted_upto(gt, k as nat),
                forall|i: int| 0 <= i < k ==> 0 <= #[trigger] s[i] < k,
                gt == json_gt(vals_view(keys@)),
                insert_pos(s, gt, k as int) == insert_pos(s.take(j as int), gt, k as int),
            decreases j,
        {
            proof {
                lemma_insert_pos_step(s, gt, k as int, j as int);
            }
            j = j - 1;
        }
        proof {
            if j > 0 {
                assert(s[j - 1] == v@[j - 1] as int);
                lemma_insert_pos_step(s, gt, k as int, j as int);
            } else {
                assert(s.take(0) =~= Seq::<int>::empty());
            }
        }
        v.insert(j, k);
        assert(idx_seq(v@) =~= s.insert(j as int, k as int));
        k = k + 1;
    }
    proof {
        lemma_sorted_upto_bounds(gt, n as nat);
        assert forall|i: int| 0 <= i < v@.len() implies #[trigger] v@[i] < keys@.len() by {
            assert(idx_seq(v@)[i] == v@[i] as int);
        }
    }
    v
}

/// Copies of the elements of `a` at the positions `p`.
fn pick(a: &Vec<Val>, p: &Vec<usize>) -> (r: Vec<Val>)
    requires
        forall|i: int| 0 <= i < p@.len() ==> #[trigger] p@[i] < a@.len(),
    ensures
        vals_view(r@) == permute(vals_view(a@), idx_seq(p@)),
{
    let mut out: Vec<Val> = Vec::new();
    let mut i: usize = 0;
    while i < p.len()
        invariant
            i <= p@.len(),
            out@.len() == i,
            forall|k: int| 0 <= k < p@.len() ==> #[trigger] p@[k] < a@.len(),
            forall|k: int| 0 <= k < i ==> (#[trigger] out@[k])@ == a@[p@[k] as int]@,
        decreases p@.len() - i,
    {
        out.push(a[p[i]].copy());
        i = i + 1;
    }
    assert(vals_view(out@) =~= permute(vals_view(a@), idx_seq(p@)));
    out
}

impl Val {
    /// Sort an array by the total order (stably).
    ///
    /// Fail on any other value.
    pub fn sort(self) -> (r: ValR)
        ensures
            valr_view(r) == json_sort(self@),
    {
        match &self {
            Val::Arr(a) => {
                proof {
                    lemma_arr_model(self);
                }
                let p = val_indices(a);
                let out = pick(a, &p);
                let r = Val::Arr(out);
                proof {
                    lemma_arr_model(r);
                }
                Ok(r)
            },
            _ => Err(Error::Sort(self)),
        }
    }

    /// Sort an array stably by the given keys: `keys[i]` is the key of
    /// the `i`-th element (the results of the key function, as an array).
    ///
    /// Fail on any other value.
    pub fn sort_by_keys(self, keys: Vec<Val>) -> (r: ValR)
        requires
            self@ is Arr ==> keys@.len() == self@->Arr_0.len(),
        ensures
            match self@ {
                Json::Arr(a) => r matches Ok(v) && v@ == Json::Arr(sorted_by_keys(a, vals_view(keys@))),
                _ => r matches Err(e) && e@ == Fault::Sort(self@),
            },
    {
        match &self {
            Val::Arr(a) => {
                proof {
                    lemma_arr_model(self);
                }
                let p = val_indices(&keys);
                let out = pick(a, &p);
                let r = Val::Arr(out);
                proof {
                    lemma_arr_model(r);
                }
                Ok(r)
            },
            _ => Err(Error::Sort(self)),
        }
    }

    /// Sort an array stably by the keys that `f` gives for its elements;
    /// the keys of the elements are computed in order, and the first
    /// failure of `f` is the result. An array of fewer than two elements
    /// is returned as it is, without calling `f`.
    ///
    /// Fail on any other value.
    #[verifier::loop_isolation(false)]
    pub fn sort_by<F: Fn(Val) -> Result<Vec<Val>, Error>>(self, f: F) -> (r: ValR)
        requires
            forall|x: Val| call_requires(f, (x,)),
        ensures
            !(self@ is Arr) ==> (r matches Err(e) && e@ == Fault::Sort(self@)),
            self@ is Arr && self@->Arr_0.len() < 2 ==> (r matches Ok(v) && v@ == self@),
            self@ is Arr && self@->Arr_0.len() >= 2 ==> match r {
                Ok(v) => exists|ks: Seq<Json>|
                    ks.len() == self@->Arr_0.len() && (forall|i: int|
                        0 <= i < ks.len() ==> key_result(f, self@->Arr_0[i], #[trigger] ks[i]))
                        && v@ == Json::Arr(sorted_by_keys(self@->Arr_0, ks)),
                Err(e) => exists|i: int|
                    0 <= i < self@->Arr_0.len() && #[trigger] key_failure(f, self@->Arr_0[i], e@)
                        && (forall|m: int| 0 <= m < i ==> #[trigger] key_exists(f, self@->Arr_0[m])),
            },
    {
        let ghost sv = self@;
        match self {
            Val::Arr(a) => {
                proof {
                    lemma_arr_model(Val::Arr(a));
                }
                if a.len() < 2 {
                    return Ok(Val::Arr(a));
                }
                let ghost av = vals_view(a@);
                assert(sv == Json::Arr(av));
                let mut keys: Vec<Val> = Vec::new();
                let mut i: usize = 0;
                while i < a.len()
                    invariant
                        i <= a@.len(),
                        av == vals_view(a@),
                        keys@.len() == i,
                        forall|x: Val| call_requires(f, (x,)),
                        forall|m: int| 0 <= m < i ==> key_result(f, av[m], #[trigger] vals_view(keys@)[m]),
                    decreases a@.len() - i,
                {
                    let arg = a[i].copy();
                    let ghost g = arg;
                    match f(arg) {
                        Ok(kv) => {
                            let k = Val::Arr(kv);
                            proof {
                                lemma_arr_model(k);
                                assert(key_result(f, av[i as int], k@));
                            }
                            let ghost before = vals_view(keys@);
                            keys.push(k);
                            assert(vals_view(keys@)[i as int] == k@);
                            assert forall|m: int| 0 <= m < i + 1 implies key_result(f, av[m], #[trigger] vals_view(keys@)[m]) by {
                                if m < i {
                                    assert(vals_view(keys@)[m] == before[m]);
                                }
                            }
                        },
                        Err(e) => {
                            proof {
                                assert(key_failure(f, av[i as int], e@));
                                assert forall|m: int| 0 <= m < i implies #[trigger] key_exists(f, av[m]) by {
                                    assert(key_result(f, av[m], vals_view(keys@)[m]));
                                }
                                assert(sv->Arr_0 == av);
                                assert(0 <= i < sv->Arr_0.len() && key_failure(f, sv->Arr_0[i as int], e@)
                                    && (forall|m: int| 0 <= m < i ==> #[trigger] key_exists(f, sv->Arr_0[m])));
                            }
                            return Err(e);
                        },
                    }
                    i = i + 1;
                }
                let r = Val::Arr(a).sort_by_keys(keys);
                proof {
                    let ks = vals_view(keys@);
                    assert(forall|m: int| 0 <= m < ks.len() ==> key_result(f, av[m], #[trigger] ks[m]));
                }
                r
            },
            _ => Err(Error::Sort(self)),
        }
    }
}

} // verus!
