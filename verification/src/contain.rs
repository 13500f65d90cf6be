//! Containment of values in values.
use vstd::prelude::*;
use vstd::utf8::encode_utf8;
use crate::val::{Json, Val, key_pos, vals_view, lemma_arr_model, lemma_obj_model, len_int};
use crate::order::json_eq;

verus! {

/// True if `p` occurs in `t` as a contiguous part.
pub open spec fn is_infix(p: Seq<u8>, t: Seq<u8>) -> bool {
    exists|i: int| 0 <= i <= t.len() - p.len() && #[trigger] t.subrange(i, i + p.len()) == p
}

/// `a` contains `b` iff either
/// * the string `b` is a substring of `a`,
/// * every element in the array `b` is contained in some element of the array `a`,
/// * for every key-value pair `k, v` in `b`,
///   there is a key-value pair `k, v'` in `a` such that `v'` contains `v`, or
/// * `a` equals `b`.
pub open spec fn json_contains(a: Json, b: Json) -> bool
    decreases a, 0int,
{
    match a {
        Json::Str(l) => match b {
            Json::Str(r) => is_infix(encode_utf8(r), encode_utf8(l)),
            _ => json_eq(a, b),
        },
        Json::Arr(l) => match b {
            Json::Arr(r) => forall|j: int| 0 <= j < r.len() ==> contained_in_some(l, #[trigger] r[j], len_int(l)),
            _ => json_eq(a, b),
        },
        Json::Obj(l) => match b {
            Json::Obj(r) => forall|j: int|
                0 <= j < r.len() ==> {
                    let p = key_pos(l, (#[trigger] r[j]).0);
                    0 <= p < l.len() && json_contains(l[p].1, r[j].1)
                },
            _ => json_eq(a, b),
        },
        _ => json_eq(a, b),
    }
}

/// True if one of the first `n` elements of `l` contains `x`.
pub open spec fn contained_in_some(l: Seq<Json>, x: Json, n: int) -> bool
    decreases l, n,
{
    if n <= 0 || n > l.len() {
        false
    } else {
        json_contains(l[n - 1], x) || contained_in_some(l, x, n - 1)
    }
}

/// Once an element of a prefix contains `x`, so does one of a longer prefix.
pub proof fn lemma_contained_in_some_grows(l: Seq<Json>, x: Json, n: int, m: int)
    requires
        0 <= n <= m <= l.len(),
        contained_in_some(l, x, n),
    ensures
        contained_in_some(l, x, m),
    decreases m - n,
{
    if n < m {
        lemma_contained_in_some_grows(l, x, n, m - 1);
    }
}

/// True if the bytes `p` occur in the bytes `t`.
fn bytes_contain(t: &[u8], p: &[u8]) -> (r: bool)
    ensures
        r == is_infix(p@, t@),
{
    if p.len() > t.len() {
        return false;
    }
    let mut i: usize = 0;
    let tl = t.len();
    let pl = p.len();
    let last = tl - pl;
    while i <= last
        invariant
            last == t@.len() - p@.len(),
            pl == p@.len(),
            tl == t@.len(),
            pl <= tl,
            i <= last + 1,
            forall|k: int| 0 <= k < i ==> #[trigger] t@.subrange(k, k + p@.len()) != p@,
        decreases last + 1 - i,
    {
        let mut j: usize = 0;
        while j < pl && t[i + j] == p[j]
            invariant
                j <= p@.len(),
                pl == p@.len(),
                tl == t@.len(),
                pl <= tl,
                i + pl <= tl,
                i <= last,
                last == t@.len() - p@.len(),
                forall|m: int| 0 <= m < j ==> t@[i + m] == p@[m],
            decreases p@.len() - j,
        {
            j = j + 1;
        }
        if j == pl {
            assert(t@.subrange(i as int, i + p@.len()) =~= p@);
            return true;
        }
        assert(t@.subrange(i as int, i + p@.len())[j as int] != p@[j as int]);
        i = i + 1;
    }
    proof {
        if is_infix(p@, t@) {
            let k = choose|k: int| 0 <= k <= t@.len() - p@.len() && #[trigger] t@.subrange(k, k + p@.len()) == p@;
            assert(t@.subrange(k, k + p@.len()) != p@);
        }
    }
    false
}

impl Val {
    /// Whether `self` contains `other`, see [`json_contains`].
    #[verifier::loop_isolation(false)]
    pub fn contains(&self, other: &Val) -> (r: bool)
        ensures
            r == json_contains(self@, other@),
        decreases self,
    {
        match (self, other) {
            (Val::Str(l), Val::Str(r)) => {
                let lb = l.as_str().as_bytes();
                let rb = r.as_str().as_bytes();
                assert(lb@ == encode_utf8(l@));
                assert(rb@ == encode_utf8(r@));
                bytes_contain(lb, rb)
            },
            (Val::Arr(l), Val::Arr(r)) => {
                proof {
                    lemma_arr_model(*self);
                    lemma_arr_model(*other);
                }
                let ghost ls = vals_view(l@);
                let ghost rs = vals_view(r@);
                let mut j: usize = 0;
                while j < r.len()
                    invariant
                        j <= r@.len(),
                        forall|m: int| 0 <= m < j ==> contained_in_some(ls, #[trigger] rs[m], len_int(ls)),
                    decreases r@.len() - j,
                {
                    let mut i: usize = 0;
                    let mut found = false;
                    while i < l.len() && !found
                        invariant
                            i <= l@.len(),
                            j < r@.len(),
                            found == contained_in_some(ls, rs[j as int], i as int),
                        decreases l@.len() - i, (if found { 0int } else { 1int }),
                    {
                        found = l[i].contains(&r[j]);
                        i = i + 1;
                    }
                    if !found {
                        proof {
                            assert(len_int(ls) == i as int);
                            if json_contains(self@, other@) {
                                assert(other@->Arr_0[j as int] == rs[j as int]);
                            }
                        }
                        return false;
                    }
                    proof {
                        lemma_contained_in_some_grows(ls, rs[j as int], i as int, len_int(ls));
                    }
                    j = j + 1;
                }
                true
            },
            (Val::Obj(l), Val::Obj(r)) => {
                proof {
                    lemma_obj_model(*self);
                    lemma_obj_model(*other);
                }
                let ghost le = l.entries_view();
                let ghost re = r.entries_view();
                let mut j: usize = 0;
                while j < r.entries.len()
                    invariant
                        j <= r.entries@.len(),
                        forall|m: int|
                            0 <= m < j ==> {
                                let p = key_pos(le, (#[trigger] re[m]).0);
                                0 <= p < le.len() && json_contains(le[p].1, re[m].1)
                            },
                    decreases r.entries@.len() - j,
                {
                    assert(re[j as int].0 == r.entries@[j as int].0@);
                    assert(re[j as int].1 == r.entries@[j as int].1@);
                    match l.position(&r.entries[j].0) {
                        Some(p) => {
                            assert(le[p as int].1 == l.entries@[p as int].1@);
                            if !l.entries[p].1.contains(&r.entries[j].1) {
                                proof {
                                    if json_contains(self@, other@) {
                                        let jj = j as int;
                                        assert(re[jj] == other@->Obj_0[jj]);
                                    }
                                }
                                return false;
                            }
                        },
                        None => {
                            proof {
                                if json_contains(self@, other@) {
                                    let jj = j as int;
                                    assert(re[jj] == other@->Obj_0[jj]);
                                }
                            }
                            return false;
                        },
                    }
                    j = j + 1;
                }
                assert(json_contains(self@, other@));
                true
            },
            _ => {
                let e = self.equals(other);
                assert(e == json_contains(self@, other@));
                e
            },
        }
    }
}

} // verus!
