//! Equality and the total order on values, containment, and sorting.
use vstd::prelude::*;
use vstd::utf8::encode_utf8;
use std::cmp::Ordering;
use crate::float::{total_key, is_zero_bits, int_f64_bits, total_key_of, is_zero};
use crate::integer::Int;
use crate::val::{Json, Val, Obj, Entries, Error, Fault, ValR, key_pos, num_value, len_int, ix};
use crate::sort::sorted_upto;

verus! {

/// Order of two integers.
pub open spec fn order_of(a: int, b: int) -> Ordering {
    if a < b {
        Ordering::Less
    } else if a == b {
        Ordering::Equal
    } else {
        Ordering::Greater
    }
}

/// The total order on binary64 bit patterns used for values: +0 and -0
/// are equal, otherwise the IEEE total order.
pub open spec fn float_order(l: u64, r: u64) -> Ordering {
    if is_zero_bits(l) && is_zero_bits(r) {
        Ordering::Equal
    } else {
        order_of(total_key(l), total_key(r))
    }
}

/// Lexicographic order on byte sequences.
pub open spec fn bytes_order(a: Seq<u8>, b: Seq<u8>) -> Ordering
    decreases a.len(),
{
    if a.len() == 0 {
        if b.len() == 0 {
            Ordering::Equal
        } else {
            Ordering::Less
        }
    } else if b.len() == 0 {
        Ordering::Greater
    } else if a[0] < b[0] {
        Ordering::Less
    } else if a[0] > b[0] {
        Ordering::Greater
    } else {
        bytes_order(a.drop_first(), b.drop_first())
    }
}

/// Order of strings: lexicographic on their UTF-8 bytes.
pub open spec fn str_order(a: Seq<char>, b: Seq<char>) -> Ordering {
    bytes_order(encode_utf8(a), encode_utf8(b))
}

/// Order of booleans: false before true.
pub open spec fn bool_order(a: bool, b: bool) -> Ordering {
    if a == b {
        Ordering::Equal
    } else if !a {
        Ordering::Less
    } else {
        Ordering::Greater
    }
}

/// What a value stands for in comparisons: a number that does not fit
/// into an integer counts as its float (or null).
pub open spec fn resolve(j: Json) -> Json {
    match j {
        Json::Num(_, f) => num_value(f),
        _ => j,
    }
}

/// Rank of the kind of a value: null < booleans < numbers < strings < arrays < objects.
pub open spec fn rank(j: Json) -> int {
    match j {
        Json::Null => 0,
        Json::Bool(_) => 1,
        Json::Int(_) | Json::Float(_) | Json::Num(..) => 2,
        Json::Str(_) => 3,
        Json::Arr(_) => 4,
        Json::Obj(_) => 5,
    }
}

/// Order of two values that are not compared element by element.
pub open spec fn scalar_order(a: Json, b: Json) -> Ordering {
    match (a, b) {
        (Json::Null, Json::Null) => Ordering::Equal,
        (Json::Bool(x), Json::Bool(y)) => bool_order(x, y),
        (Json::Int(x), Json::Int(y)) => order_of(x, y),
        (Json::Int(i), Json::Float(f)) => float_order(int_f64_bits(i), f),
        (Json::Float(f), Json::Int(i)) => float_order(f, int_f64_bits(i)),
        (Json::Float(x), Json::Float(y)) => float_order(x, y),
        (Json::Str(x), Json::Str(y)) => str_order(x, y),
        _ => order_of(rank(a), rank(b)),
    }
}

/// Equality of two values that are not compared element by element.
pub open spec fn scalar_eq(a: Json, b: Json) -> bool {
    match (a, b) {
        (Json::Null, Json::Null) => true,
        (Json::Bool(x), Json::Bool(y)) => x == y,
        (Json::Int(x), Json::Int(y)) => x == y,
        (Json::Int(i), Json::Float(f)) => float_order(int_f64_bits(i), f) == Ordering::Equal,
        (Json::Float(f), Json::Int(i)) => float_order(int_f64_bits(i), f) == Ordering::Equal,
        (Json::Float(x), Json::Float(y)) => float_order(x, y) == Ordering::Equal,
        (Json::Str(x), Json::Str(y)) => x == y,
        _ => false,
    }
}

/// Equality of values: numbers by value (integers against floats via
/// the float nearest to the integer), arrays element by element, objects
/// as maps (same number of entries, and each key of `a` is in `b` with an
/// equal value), regardless of order.
pub open spec fn json_eq(a: Json, b: Json) -> bool
    decreases a,
{
    match a {
        Json::Arr(x) => match b {
            Json::Arr(y) => x.len() == y.len() && forall|i: int|
                0 <= i < x.len() ==> json_eq(#[trigger] x[i], y[i]),
            _ => false,
        },
        Json::Obj(x) => match b {
            Json::Obj(y) => x.len() == y.len() && forall|i: int|
                0 <= i < x.len() ==> {
                    let p = key_pos(y, (#[trigger] x[i]).0);
                    p >= 0 && json_eq(x[i].1, y[p].1)
                },
            _ => false,
        },
        _ => scalar_eq(resolve(a), resolve(b)),
    }
}

/// "Key `i` is greater than key `k`" for values ordered by [`json_order`].
pub open spec fn json_gt(keys: Seq<Json>) -> spec_fn(int, int) -> bool {
    |i: int, k: int| json_greater(keys[i], keys[k])
}

/// True if `a` comes after `b` in the total order.
pub open spec fn json_greater(a: Json, b: Json) -> bool {
    json_order(a, b) == Ordering::Greater
}

/// True if `a` comes after `b` in the order of strings.
pub open spec fn str_greater(a: Seq<char>, b: Seq<char>) -> bool {
    str_order(a, b) == Ordering::Greater
}

/// "Key `i` is greater than key `k`" for strings ordered by [`str_order`].
pub open spec fn str_gt(keys: Seq<Seq<char>>) -> spec_fn(int, int) -> bool {
    |i: int, k: int| str_greater(keys[i], keys[k])
}

/// The indices of `keys` in stably sorted order.
pub open spec fn sort_perm(keys: Seq<Json>) -> Seq<int> {
    sorted_upto(json_gt(keys), keys.len())
}

/// The indices of the entries of an object, ordered by key.
pub open spec fn key_perm(x: Entries) -> Seq<int> {
    sorted_upto(str_gt(crate::val::entry_keys(x)), x.len())
}

/// Lexicographic order of the keys of `x` and `y`, taken in the orders `px` and `py`.
pub open spec fn keys_order(x: Entries, px: Seq<int>, y: Entries, py: Seq<int>, i: int) -> Ordering
    decreases px.len() - i,
{
    if i >= px.len() || i >= py.len() || i < 0 {
        order_of(len_int(px), len_int(py))
    } else {
        let c = str_order(x[px[i]].0, y[py[i]].0);
        if c != Ordering::Equal {
            c
        } else {
            keys_order(x, px, y, py, i + 1)
        }
    }
}

/// The total order on values. Null < booleans < numbers < strings <
/// arrays < objects; numbers by value, strings by their bytes, arrays
/// lexicographically, objects by their keys in sorted order and then by
/// the values of those keys.
pub open spec fn json_order(a: Json, b: Json) -> Ordering
    decreases a, 0int,
{
    match a {
        Json::Arr(x) => match b {
            Json::Arr(y) => elems_order(x, y, 0),
            _ => order_of(rank(a), rank(resolve(b))),
        },
        Json::Obj(x) => match b {
            Json::Obj(y) => {
                let px = key_perm(x);
                let py = key_perm(y);
                let c = keys_order(x, px, y, py, 0);
                if c != Ordering::Equal {
                    c
                } else {
                    vals_order(x, px, y, py, 0)
                }
            },
            _ => order_of(rank(a), rank(resolve(b))),
        },
        _ => scalar_order(resolve(a), resolve(b)),
    }
}

/// Lexicographic order of `x` and `y` from position `i` on.
pub open spec fn elems_order(x: Seq<Json>, y: Seq<Json>, i: int) -> Ordering
    decreases x, x.len() - i,
{
    if i >= x.len() || i < 0 {
        if i >= y.len() || i < 0 {
            Ordering::Equal
        } else {
            Ordering::Less
        }
    } else if i >= y.len() {
        Ordering::Greater
    } else {
        let c = json_order(x[i], y[i]);
        if c != Ordering::Equal {
            c
        } else {
            elems_order(x, y, i + 1)
        }
    }
}

/// Lexicographic order of the values of `x` and `y`, taken in the orders
/// `px` and `py`, from position `i` on.
pub open spec fn vals_order(x: Entries, px: Seq<int>, y: Entries, py: Seq<int>, i: int) -> Ordering
    decreases x, px.len() - i,
{
    if i >= px.len() || i >= py.len() || i < 0 {
        order_of(len_int(px), len_int(py))
    } else {
        let j = px[i];
        let k = py[i];
        if 0 <= j < x.len() && 0 <= k < y.len() {
            let c = json_order(x[j].1, y[k].1);
            if c != Ordering::Equal {
                c
            } else {
                vals_order(x, px, y, py, i + 1)
            }
        } else {
            Ordering::Equal
        }
    }
}


/// Order of two floats given by their bits.
pub fn float_compare(l: u64, r: u64) -> (o: Ordering)
    ensures
        o == float_order(l, r),
{
    if is_zero(l) && is_zero(r) {
        return Ordering::Equal;
    }
    let a = total_key_of(l);
    let b = total_key_of(r);
    if a < b {
        Ordering::Less
    } else if a == b {
        Ordering::Equal
    } else {
        Ordering::Greater
    }
}

/// Order of two strings: lexicographic on their UTF-8 bytes.
pub fn str_compare(a: &String, b: &String) -> (o: Ordering)
    ensures
        o == str_order(a@, b@),
{
    let x = a.as_str().as_bytes();
    let y = b.as_str().as_bytes();
    let mut i: usize = 0;
    assert(x@.skip(0) =~= x@);
    assert(y@.skip(0) =~= y@);
    while i < x.len() && i < y.len()
        invariant
            i <= x@.len(),
            i <= y@.len(),
            x@ == encode_utf8(a@),
            y@ == encode_utf8(b@),
            bytes_order(x@, y@) == bytes_order(x@.skip(ix(i)), y@.skip(ix(i))),
        decreases x@.len() - i,
    {
        if x[i] < y[i] {
            return Ordering::Less;
        }
        if x[i] > y[i] {
            return Ordering::Greater;
        }
        assert(x@.skip(ix(i)).drop_first() =~= x@.skip(i + 1));
        assert(y@.skip(ix(i)).drop_first() =~= y@.skip(i + 1));
        i = i + 1;
    }
    if i < x.len() {
        Ordering::Greater
    } else if i < y.len() {
        Ordering::Less
    } else {
        Ordering::Equal
    }
}

/// Order of two booleans.
fn bool_compare(a: bool, b: bool) -> (o: Ordering)
    ensures
        o == bool_order(a, b),
{
    if a == b {
        Ordering::Equal
    } else if !a {
        Ordering::Less
    } else {
        Ordering::Greater
    }
}

/// Order of two integers.
pub fn int_compare(a: &Int, b: &Int) -> (o: Ordering)
    ensures
        o == order_of(a@, b@),
{
    if a.less(b) {
        Ordering::Less
    } else if a.equal(b) {
        Ordering::Equal
    } else {
        Ordering::Greater
    }
}

/// True if string `a` comes after string `b`.
pub fn str_after(a: &String, b: &String) -> (r: bool)
    ensures
        r == str_greater(a@, b@),
{
    match str_compare(a, b) {
        Ordering::Greater => true,
        _ => false,
    }
}


impl Val {
    /// Rank of the kind of the value.
    fn rank_of(&self) -> (r: u8)
        ensures
            r == rank(self@),
    {
        match self {
            Val::Null => 0,
            Val::Bool(_) => 1,
            Val::Int(_) | Val::Float(_) | Val::Num(_) => 2,
            Val::Str(_) => 3,
            Val::Arr(_) => 4,
            Val::Obj(_) => 5,
        }
    }

    /// Order of two values where `self` is neither a number held as text,
    /// an array nor an object, and `other` is no number held as text.
    fn scalar_pair_compare(&self, other: &Val) -> (o: Ordering)
        requires
            !(self@ is Arr || self@ is Obj || self@ is Num),
            !(other@ is Num),
        ensures
            o == scalar_order(self@, other@),
    {
        match (self, other) {
            (Val::Null, Val::Null) => Ordering::Equal,
            (Val::Bool(x), Val::Bool(y)) => bool_compare(*x, *y),
            (Val::Int(x), Val::Int(y)) => int_compare(x, y),
            (Val::Int(i), Val::Float(f)) => float_compare(i.to_f64_bits(), *f),
            (Val::Float(f), Val::Int(i)) => float_compare(*f, i.to_f64_bits()),
            (Val::Float(x), Val::Float(y)) => float_compare(*x, *y),
            (Val::Str(x), Val::Str(y)) => str_compare(x, y),
            _ => {
                let a = self.rank_of();
                let b = other.rank_of();
                if a < b {
                    Ordering::Less
                } else if a == b {
                    Ordering::Equal
                } else {
                    Ordering::Greater
                }
            },
        }
    }

    /// Order of `self`, which is neither a number held as text, an array
    /// nor an object, and `other` taken as it stands in comparisons.
    fn scalar_compare(&self, other: &Val) -> (o: Ordering)
        requires
            !(self@ is Arr || self@ is Obj || self@ is Num),
        ensures
            o == scalar_order(self@, resolve(other@)),
    {
        match other {
            Val::Num(n) => {
                let t = n.to_val();
                self.scalar_pair_compare(&t)
            },
            _ => self.scalar_pair_compare(other),
        }
    }

    /// The total order on values, see [`json_order`].
    #[verifier::loop_isolation(false)]
    pub fn compare(&self, other: &Val) -> (o: Ordering)
        ensures
            o == json_order(self@, other@),
        decreases self,
    {
        match self {
            Val::Num(n) => {
                let t = n.to_val();
                t.scalar_compare(other)
            },
            Val::Arr(x) => match other {
                Val::Arr(y) => {
                    proof {
                        crate::val::lemma_arr_model(*self);
                        crate::val::lemma_arr_model(*other);
                    }
                    let ghost xs = crate::val::vals_view(x@);
                    let ghost ys = crate::val::vals_view(y@);
                    let mut i: usize = 0;
                    while i < x.len() && i < y.len()
                        invariant
                            i <= x@.len(),
                            i <= y@.len(),
                            elems_order(xs, ys, 0) == elems_order(xs, ys, ix(i)),
                        decreases x@.len() - i,
                    {
                        let c = x[i].compare(&y[i]);
                        match c {
                            Ordering::Equal => {},
                            _ => {
                                return c;
                            },
                        }
                        i = i + 1;
                    }
                    if i < x.len() {
                        Ordering::Greater
                    } else if i < y.len() {
                        Ordering::Less
                    } else {
                        Ordering::Equal
                    }
                },
                _ => {
                    let t = match other {
                        Val::Num(n) => n.to_val(),
                        _ => Val::Null,
                    };
                    let b = match other {
                        Val::Num(_) => t.rank_of(),
                        _ => other.rank_of(),
                    };
                    if 4 < b {
                        Ordering::Less
                    } else {
                        Ordering::Greater
                    }
                },
            },
            Val::Obj(x) => match other {
                Val::Obj(y) => {
                    proof {
                        crate::val::lemma_obj_model(*self);
                        crate::val::lemma_obj_model(*other);
                    }
                    let ghost xe = x.entries_view();
                    let ghost ye = y.entries_view();
                    let px = crate::sort::key_indices(x);
                    let py = crate::sort::key_indices(y);
                    let ghost ipx = crate::val::idx_seq(px@);
                    let ghost ipy = crate::val::idx_seq(py@);
                    let mut i: usize = 0;
                    while i < px.len() && i < py.len()
                        invariant
                            i <= px@.len(),
                            i <= py@.len(),
                            keys_order(xe, ipx, ye, ipy, 0) == keys_order(xe, ipx, ye, ipy, ix(i)),
                        decreases px@.len() - i,
                    {
                        let c = str_compare(&x.entries[px[i]].0, &y.entries[py[i]].0);
                        match c {
                            Ordering::Equal => {},
                            _ => {
                                return c;
                            },
                        }
                        i = i + 1;
                    }
                    if px.len() < py.len() {
                        return Ordering::Less;
                    } else if px.len() > py.len() {
                        return Ordering::Greater;
                    }
                    let mut i: usize = 0;
                    while i < px.len()
                        invariant
                            i <= px@.len(),
                            px@.len() == py@.len(),
                            vals_order(xe, ipx, ye, ipy, 0) == vals_order(xe, ipx, ye, ipy, ix(i)),
                        decreases px@.len() - i,
                    {
                        let c = x.entries[px[i]].1.compare(&y.entries[py[i]].1);
                        match c {
                            Ordering::Equal => {},
                            _ => {
                                return c;
                            },
                        }
                        i = i + 1;
                    }
                    Ordering::Equal
                },
                _ => Ordering::Greater,
            },
            _ => self.scalar_compare(other),
        }
    }
}

impl Val {
    /// Equality of two values that are no numbers held as text.
    fn scalar_equals(&self, other: &Val) -> (r: bool)
        requires
            !(self@ is Num),
            !(other@ is Num),
        ensures
            r == scalar_eq(self@, other@),
    {
        match (self, other) {
            (Val::Null, Val::Null) => true,
            (Val::Bool(x), Val::Bool(y)) => *x == *y,
            (Val::Int(x), Val::Int(y)) => x.equal(y),
            (Val::Int(i), Val::Float(f)) | (Val::Float(f), Val::Int(i)) => match float_compare(
                i.to_f64_bits(),
                *f,
            ) {
                Ordering::Equal => true,
                _ => false,
            },
            (Val::Float(x), Val::Float(y)) => match float_compare(*x, *y) {
                Ordering::Equal => true,
                _ => false,
            },
            (Val::Str(x), Val::Str(y)) => *x == *y,
            _ => false,
        }
    }

    /// Equality of values, see [`json_eq`].
    #[verifier::loop_isolation(false)]
    pub fn equals(&self, other: &Val) -> (r: bool)
        ensures
            r == json_eq(self@, other@),
        decreases self,
    {
        match self {
            Val::Arr(x) => match other {
                Val::Arr(y) => {
                    proof {
                        crate::val::lemma_arr_model(*self);
                        crate::val::lemma_arr_model(*other);
                    }
                    let ghost xs = crate::val::vals_view(x@);
                    let ghost ys = crate::val::vals_view(y@);
                    if x.len() != y.len() {
                        return false;
                    }
                    let mut i: usize = 0;
                    while i < x.len()
                        invariant
                            i <= x@.len(),
                            x@.len() == y@.len(),
                            forall|k: int| 0 <= k < i ==> json_eq(#[trigger] xs[k], ys[k]),
                        decreases x@.len() - i,
                    {
                        if !x[i].equals(&y[i]) {
                            assert(!json_eq(xs[ix(i)], ys[ix(i)]));
                            return false;
                        }
                        i = i + 1;
                    }
                    true
                },
                _ => false,
            },
            Val::Obj(x) => match other {
                Val::Obj(y) => {
                    proof {
                        crate::val::lemma_obj_model(*self);
                        crate::val::lemma_obj_model(*other);
                    }
                    let ghost xe = x.entries_view();
                    let ghost ye = y.entries_view();
                    if x.entries.len() != y.entries.len() {
                        return false;
                    }
                    let mut i: usize = 0;
                    while i < x.entries.len()
                        invariant
                            i <= x.entries@.len(),
                            forall|k: int|
                                0 <= k < i ==> {
                                    let p = key_pos(ye, (#[trigger] xe[k]).0);
                                    p >= 0 && json_eq(xe[k].1, ye[p].1)
                                },
                        decreases x.entries@.len() - i,
                    {
                        match y.get(&x.entries[i].0) {
                            Some(w) => {
                                if !x.entries[i].1.equals(w) {
                                    assert(xe[ix(i)].1 == x.entries@[ix(i)].1@);
                                    return false;
                                }
                            },
                            None => {
                                assert(xe[ix(i)].0 == x.entries@[ix(i)].0@);
                                return false;
                            },
                        }
                        i = i + 1;
                    }
                    true
                },
                _ => false,
            },
            _ => {
                let a = match self {
                    Val::Num(n) => n.to_val(),
                    _ => self.copy(),
                };
                let b = match other {
                    Val::Num(n) => n.to_val(),
                    _ => other.copy(),
                };
                a.scalar_equals(&b)
            },
        }
    }
}

impl PartialEq for Val {
    fn eq(&self, other: &Val) -> (r: bool) {
        self.equals(other)
    }
}

impl vstd::std_specs::cmp::PartialEqSpecImpl for Val {
    open spec fn obeys_eq_spec() -> bool {
        true
    }

    open spec fn eq_spec(&self, other: &Val) -> bool {
        json_eq(self@, other@)
    }
}

impl Eq for Val {

}
/// True if value `a` comes after value `b` in the total order.
pub fn val_after(a: &Val, b: &Val) -> (r: bool)
    ensures
        r == json_greater(a@, b@),
{
    match a.compare(b) {
        Ordering::Greater => true,
        _ => false,
    }
}

impl PartialOrd for Val {
    fn partial_cmp(&self, other: &Val) -> (r: Option<Ordering>) {
        Some(self.compare(other))
    }
}

impl vstd::std_specs::cmp::PartialOrdSpecImpl for Val {
    open spec fn obeys_partial_cmp_spec() -> bool {
        true
    }

    open spec fn partial_cmp_spec(&self, other: &Val) -> Option<Ordering> {
        Some(json_order(self@, other@))
    }
}

/// True if two floats (given by their bits) are equal in the order.
pub fn float_equal(l: u64, r: u64) -> (b: bool)
    ensures
        b == (float_order(l, r) == Ordering::Equal),
{
    match float_compare(l, r) {
        Ordering::Equal => true,
        _ => false,
    }
}

} // verus!
