//! Arithmetic on values.
//!
//! The sum, difference, product, and remainder of two integers is an
//! integer; the quotient of two integers is an integer if the remainder
//! of the integers is zero. Any other operation between two numbers
//! yields a float: the operation on the binary64 numbers is performed by
//! a function given by the caller, which gets the operation and the bits
//! of both operands and returns the bits of the result.
use vstd::prelude::*;
use crate::float::{int_f64_bits, neg_bits, negate_bits, lt_zero_bits, f64_bits_to_usize, is_below_zero, f64_to_usize};
use crate::integer::{Int, int_fits, trunc_div, trunc_rem};
use crate::val::{
    Json, Val, Obj, MathOp, Error, Fault, ValR, Entries, entries_insert, num_value, vals_view,
    lemma_arr_model, lemma_obj_model,
};

verus! {

/// What an operation on two values comes to: a value, an error, or an
/// operation on two binary64 numbers (given by their bits).
pub enum Step {
    Value(Json),
    Fail(Fault),
    Float(MathOp, u64, u64),
}

/// 1 if the value is a number held as text, else 0.
pub open spec fn num_count(j: Json) -> int {
    if j is Num {
        1
    } else {
        0
    }
}

/// The entries of `x`, then the entries of `y` inserted one after the
/// other (an existing key keeps its place and gets the new value).
pub open spec fn entries_extend(x: Entries, y: Entries) -> Entries
    decreases y.len(),
{
    if y.len() == 0 {
        x
    } else {
        entries_insert(entries_extend(x, y.drop_last()), y.last().0, y.last().1)
    }
}

/// Addition: `null` is neutral, numbers add, strings and arrays are
/// concatenated, objects are merged (the right-hand values win).
pub open spec fn add_step(a: Json, b: Json) -> Step
    decreases num_count(a) + num_count(b),
{
    match (a, b) {
        (Json::Null, _) => Step::Value(b),
        (_, Json::Null) => Step::Value(a),
        (Json::Int(x), Json::Int(y)) => Step::Value(Json::Int(x + y)),
        (Json::Int(i), Json::Float(f)) => Step::Float(MathOp::Add, f, int_f64_bits(i)),
        (Json::Float(f), Json::Int(i)) => Step::Float(MathOp::Add, f, int_f64_bits(i)),
        (Json::Float(x), Json::Float(y)) => Step::Float(MathOp::Add, x, y),
        (Json::Num(_, g), _) => add_step(num_value(g), b),
        (_, Json::Num(_, g)) => add_step(a, num_value(g)),
        (Json::Str(x), Json::Str(y)) => Step::Value(Json::Str(x + y)),
        (Json::Arr(x), Json::Arr(y)) => Step::Value(Json::Arr(x + y)),
        (Json::Obj(x), Json::Obj(y)) => Step::Value(Json::Obj(entries_extend(x, y))),
        _ => Step::Fail(Fault::MathOp(a, MathOp::Add, b)),
    }
}

/// Subtraction of numbers.
pub open spec fn sub_step(a: Json, b: Json) -> Step
    decreases num_count(a) + num_count(b),
{
    match (a, b) {
        (Json::Int(x), Json::Int(y)) => Step::Value(Json::Int(x - y)),
        (Json::Float(f), Json::Int(i)) => Step::Float(MathOp::Sub, f, int_f64_bits(i)),
        (Json::Int(i), Json::Float(f)) => Step::Float(MathOp::Sub, int_f64_bits(i), f),
        (Json::Float(x), Json::Float(y)) => Step::Float(MathOp::Sub, x, y),
        (Json::Num(_, g), _) => sub_step(num_value(g), b),
        (_, Json::Num(_, g)) => sub_step(a, num_value(g)),
        _ => Step::Fail(Fault::MathOp(a, MathOp::Sub, b)),
    }
}

/// Multiplication of numbers.
pub open spec fn mul_step(a: Json, b: Json) -> Step
    decreases num_count(a) + num_count(b),
{
    match (a, b) {
        (Json::Int(x), Json::Int(y)) => Step::Value(Json::Int(x * y)),
        (Json::Float(f), Json::Int(i)) => Step::Float(MathOp::Mul, f, int_f64_bits(i)),
        (Json::Int(i), Json::Float(f)) => Step::Float(MathOp::Mul, f, int_f64_bits(i)),
        (Json::Float(x), Json::Float(y)) => Step::Float(MathOp::Mul, x, y),
        (Json::Num(_, g), _) => mul_step(num_value(g), b),
        (_, Json::Num(_, g)) => mul_step(a, num_value(g)),
        _ => Step::Fail(Fault::MathOp(a, MathOp::Mul, b)),
    }
}

/// Division of numbers: integer if the remainder of two integers is zero.
pub open spec fn div_step(a: Json, b: Json) -> Step
    decreases num_count(a) + num_count(b),
{
    match (a, b) {
        (Json::Int(x), Json::Int(y)) => if y != 0 && trunc_rem(x, y) == 0 {
            Step::Value(Json::Int(trunc_div(x, y)))
        } else {
            Step::Float(MathOp::Div, int_f64_bits(x), int_f64_bits(y))
        },
        (Json::Float(f), Json::Int(i)) => Step::Float(MathOp::Div, f, int_f64_bits(i)),
        (Json::Int(i), Json::Float(f)) => Step::Float(MathOp::Div, int_f64_bits(i), f),
        (Json::Float(x), Json::Float(y)) => Step::Float(MathOp::Div, x, y),
        (Json::Num(_, g), _) => div_step(num_value(g), b),
        (_, Json::Num(_, g)) => div_step(a, num_value(g)),
        _ => Step::Fail(Fault::MathOp(a, MathOp::Div, b)),
    }
}

/// Remainder of numbers: of two integers an integer (rounded toward
/// zero), else a float.
pub open spec fn rem_step(a: Json, b: Json) -> Step
    decreases num_count(a) + num_count(b),
{
    match (a, b) {
        (Json::Int(x), Json::Int(y)) => Step::Value(Json::Int(trunc_rem(x, y))),
        (Json::Float(f), Json::Int(i)) => Step::Float(MathOp::Rem, f, int_f64_bits(i)),
        (Json::Int(i), Json::Float(f)) => Step::Float(MathOp::Rem, int_f64_bits(i), f),
        (Json::Float(x), Json::Float(y)) => Step::Float(MathOp::Rem, x, y),
        (Json::Num(_, g), _) => rem_step(num_value(g), b),
        (_, Json::Num(_, g)) => rem_step(a, num_value(g)),
        _ => Step::Fail(Fault::MathOp(a, MathOp::Rem, b)),
    }
}

/// Negation of numbers.
pub open spec fn json_neg(a: Json) -> Result<Json, Fault> {
    match a {
        Json::Int(x) => Ok(Json::Int(-x)),
        Json::Float(x) => Ok(Json::Float(neg_bits(x))),
        Json::Num(_, g) => match g {
            Some(b) => Ok(Json::Float(neg_bits(b))),
            None => Err(Fault::Neg(Json::Null)),
        },
        _ => Err(Fault::Neg(a)),
    }
}

/// The float that rounding is applied to, if any.
pub open spec fn round_input(a: Json) -> Option<u64> {
    match a {
        Json::Float(x) => Some(x),
        Json::Num(_, Some(x)) => Some(x),
        _ => None,
    }
}

/// The integer that a rounded float (given by bits) becomes.
pub open spec fn rounded_int(z: u64) -> int {
    if lt_zero_bits(z) {
        -(f64_bits_to_usize(neg_bits(z)) as int)
    } else {
        f64_bits_to_usize(z) as int
    }
}

/// `r` is what the step comes to, where `float` performs the float operation.
pub open spec fn step_result<F: FnOnce(MathOp, u64, u64) -> u64>(s: Step, float: F, r: ValR) -> bool {
    match s {
        Step::Value(v) => r matches Ok(w) && w@ == v,
        Step::Fail(e) => r matches Err(x) && x@ == e,
        Step::Float(op, x, y) => exists|z: u64|
            call_ensures(float, (op, x, y), z) && (r matches Ok(w) && w@ == Json::Float(z)),
    }
}

/// The float function may be called on any operands.
pub open spec fn float_total<F: FnOnce(MathOp, u64, u64) -> u64>(float: F) -> bool {
    forall|op: MathOp, x: u64, y: u64| call_requires(float, (op, x, y))
}

/// Perform a float operation.
fn float_op<F: FnOnce(MathOp, u64, u64) -> u64>(float: F, op: MathOp, x: u64, y: u64) -> (r: ValR)
    requires
        float_total(float),
    ensures
        step_result(Step::Float(op, x, y), float, r),
{
    let z = float(op, x, y);
    Ok(Val::Float(z))
}

impl Obj {
    /// Insert the entries of `other` one after the other.
    pub fn extend(&mut self, other: &Obj)
        ensures
            final(self).entries_view() == entries_extend(old(self).entries_view(), other.entries_view()),
            final(self).wf(),
    {
        proof {
            use_type_invariant(&*self);
        }
        let ghost ov = other.entries_view();
        let mut i: usize = 0;
        assert(ov.take(0) =~= Seq::<(Seq<char>, Json)>::empty());
        while i < other.entries.len()
            invariant
                i <= other.entries@.len(),
                ov == other.entries_view(),
                self.entries_view() == entries_extend(old(self).entries_view(), ov.take(i as int)),
                self.wf(),
            decreases other.entries@.len() - i,
        {
            let k = other.entries[i].0.clone();
            let v = other.entries[i].1.copy();
            self.insert(k, v);
            assert(ov.take(i + 1).drop_last() =~= ov.take(i as int));
            i = i + 1;
        }
        assert(ov.take(i as int) =~= ov);
    }
}

impl Val {
    /// Addition, see [`add_step`]; `null` is neutral.
    pub fn add<F: FnOnce(MathOp, u64, u64) -> u64>(self, rhs: Val, float: F) -> (r: ValR)
        requires
            float_total(float),
            (self@ is Int && rhs@ is Int) ==> int_fits(self@->Int_0 + rhs@->Int_0),
        ensures
            step_result(add_step(self@, rhs@), float, r),
        decreases num_count(self@) + num_count(rhs@),
    {
        match (self, rhs) {
            (Val::Null, x) => Ok(x),
            (x, Val::Null) => Ok(x),
            (Val::Int(x), Val::Int(y)) => Ok(Val::Int(x.plus(&y))),
            (Val::Int(i), Val::Float(f)) => float_op(float, MathOp::Add, f, i.to_f64_bits()),
            (Val::Float(f), Val::Int(i)) => float_op(float, MathOp::Add, f, i.to_f64_bits()),
            (Val::Float(x), Val::Float(y)) => float_op(float, MathOp::Add, x, y),
            (Val::Num(n), r) => n.to_val().add(r, float),
            (l, Val::Num(n)) => l.add(n.to_val(), float),
            (Val::Str(x), Val::Str(y)) => {
                let mut s = x;
                s.append(y.as_str());
                Ok(Val::Str(s))
            },
            (Val::Arr(x), Val::Arr(y)) => {
                let ghost xv = vals_view(x@);
                let ghost yv = vals_view(y@);
                let mut out = x;
                let mut i: usize = 0;
                while i < y.len()
                    invariant
                        i <= y@.len(),
                        yv == vals_view(y@),
                        vals_view(out@) == xv + yv.take(i as int),
                    decreases y@.len() - i,
                {
                    let ghost before = vals_view(out@);
                    out.push(y[i].copy());
                    assert(vals_view(out@) =~= before.push(yv[i as int]));
                    assert(yv.take(i + 1) =~= yv.take(i as int).push(yv[i as int]));
                    i = i + 1;
                }
                assert(yv.take(i as int) =~= yv);
                let r = Val::Arr(out);
                proof {
                    lemma_arr_model(r);
                    lemma_arr_model(Val::Arr(x));
                    lemma_arr_model(Val::Arr(y));
                }
                Ok(r)
            },
            (Val::Obj(x), Val::Obj(y)) => {
                let mut o = x;
                o.extend(&y);
                let r = Val::Obj(o);
                proof {
                    lemma_obj_model(r);
                    lemma_obj_model(Val::Obj(x));
                    lemma_obj_model(Val::Obj(y));
                }
                Ok(r)
            },
            (l, r) => Err(Error::MathOp(l, MathOp::Add, r)),
        }
    }

    /// Subtraction, see [`sub_step`].
    pub fn sub<F: FnOnce(MathOp, u64, u64) -> u64>(self, rhs: Val, float: F) -> (r: ValR)
        requires
            float_total(float),
            (self@ is Int && rhs@ is Int) ==> int_fits(self@->Int_0 - rhs@->Int_0),
        ensures
            step_result(sub_step(self@, rhs@), float, r),
        decreases num_count(self@) + num_count(rhs@),
    {
        match (self, rhs) {
            (Val::Int(x), Val::Int(y)) => Ok(Val::Int(x.minus(&y))),
            (Val::Float(f), Val::Int(i)) => float_op(float, MathOp::Sub, f, i.to_f64_bits()),
            (Val::Int(i), Val::Float(f)) => float_op(float, MathOp::Sub, i.to_f64_bits(), f),
            (Val::Float(x), Val::Float(y)) => float_op(float, MathOp::Sub, x, y),
            (Val::Num(n), r) => n.to_val().sub(r, float),
            (l, Val::Num(n)) => l.sub(n.to_val(), float),
            (l, r) => Err(Error::MathOp(l, MathOp::Sub, r)),
        }
    }

    /// Multiplication, see [`mul_step`].
    pub fn mul<F: FnOnce(MathOp, u64, u64) -> u64>(self, rhs: Val, float: F) -> (r: ValR)
        requires
            float_total(float),
            (self@ is Int && rhs@ is Int) ==> int_fits(self@->Int_0 * rhs@->Int_0),
        ensures
            step_result(mul_step(self@, rhs@), float, r),
        decreases num_count(self@) + num_count(rhs@),
    {
        match (self, rhs) {
            (Val::Int(x), Val::Int(y)) => Ok(Val::Int(x.times(&y))),
            (Val::Float(f), Val::Int(i)) => float_op(float, MathOp::Mul, f, i.to_f64_bits()),
            (Val::Int(i), Val::Float(f)) => float_op(float, MathOp::Mul, f, i.to_f64_bits()),
            (Val::Float(x), Val::Float(y)) => float_op(float, MathOp::Mul, x, y),
            (Val::Num(n), r) => n.to_val().mul(r, float),
            (l, Val::Num(n)) => l.mul(n.to_val(), float),
            (l, r) => Err(Error::MathOp(l, MathOp::Mul, r)),
        }
    }

    /// Division, see [`div_step`].
    pub fn div<F: FnOnce(MathOp, u64, u64) -> u64>(self, rhs: Val, float: F) -> (r: ValR)
        requires
            float_total(float),
        ensures
            step_result(div_step(self@, rhs@), float, r),
        decreases num_count(self@) + num_count(rhs@),
    {
        match (self, rhs) {
            (Val::Int(x), Val::Int(y)) => {
                if !y.equal(&Int::from_usize(0)) {
                    let m = x.modulo(&y);
                    if m.equal(&Int::from_usize(0)) {
                        return Ok(Val::Int(x.quot(&y)));
                    }
                }
                float_op(float, MathOp::Div, x.to_f64_bits(), y.to_f64_bits())
            },
            (Val::Float(f), Val::Int(i)) => float_op(float, MathOp::Div, f, i.to_f64_bits()),
            (Val::Int(i), Val::Float(f)) => float_op(float, MathOp::Div, i.to_f64_bits(), f),
            (Val::Float(x), Val::Float(y)) => float_op(float, MathOp::Div, x, y),
            (Val::Num(n), r) => n.to_val().div(r, float),
            (l, Val::Num(n)) => l.div(n.to_val(), float),
            (l, r) => Err(Error::MathOp(l, MathOp::Div, r)),
        }
    }

    /// Remainder, see [`rem_step`]; the divisor of two integers must not
    /// be zero.
    pub fn rem<F: FnOnce(MathOp, u64, u64) -> u64>(self, rhs: Val, float: F) -> (r: ValR)
        requires
            float_total(float),
            (self@ is Int && rhs@ is Int) ==> rhs@->Int_0 != 0,
        ensures
            step_result(rem_step(self@, rhs@), float, r),
        decreases num_count(self@) + num_count(rhs@),
    {
        match (self, rhs) {
            (Val::Int(x), Val::Int(y)) => Ok(Val::Int(x.modulo(&y))),
            (Val::Float(f), Val::Int(i)) => float_op(float, MathOp::Rem, f, i.to_f64_bits()),
            (Val::Int(i), Val::Float(f)) => float_op(float, MathOp::Rem, i.to_f64_bits(), f),
            (Val::Float(x), Val::Float(y)) => float_op(float, MathOp::Rem, x, y),
            (Val::Num(n), r) => n.to_val().rem(r, float),
            (l, Val::Num(n)) => l.rem(n.to_val(), float),
            (l, r) => Err(Error::MathOp(l, MathOp::Rem, r)),
        }
    }

    /// Negation of numbers.
    pub fn neg(self) -> (r: ValR)
        ensures
            match json_neg(self@) {
                Ok(v) => r matches Ok(w) && w@ == v,
                Err(e) => r matches Err(x) && x@ == e,
            },
    {
        match self {
            Val::Int(x) => Ok(Val::Int(x.negate())),
            Val::Float(x) => Ok(Val::Float(negate_bits(x))),
            Val::Num(n) => match n.float {
                Some(b) => Ok(Val::Float(negate_bits(b))),
                None => Err(Error::Neg(Val::Null)),
            },
            x => Err(Error::Neg(x)),
        }
    }

    /// Apply a rounding function `f` to floating-point numbers (given and
    /// returned as bits), then convert them to integers: a result below
    /// zero becomes the negation of `-r as usize`, any other `r as usize`.
    ///
    /// Return integers unchanged, and fail on any other input.
    pub fn round<F: FnOnce(u64) -> u64>(&self, f: F) -> (r: ValR)
        requires
            forall|x: u64| call_requires(f, (x,)),
        ensures
            match round_input(self@) {
                Some(fx) => exists|z: u64|
                    #[trigger] call_ensures(f, (fx,), z) && (r matches Ok(w) && w@ == Json::Int(
                        rounded_int(z),
                    )),
                None => match self@ {
                    Json::Int(i) => r matches Ok(w) && w@ == Json::Int(i),
                    Json::Num(_, None) => r matches Err(e) && e@ == Fault::Round(Json::Null),
                    _ => r matches Err(e) && e@ == Fault::Round(self@),
                },
            },
    {
        let x = match self {
            Val::Int(i) => {
                return Ok(Val::Int(*i));
            },
            Val::Float(x) => *x,
            Val::Num(n) => match n.float {
                Some(b) => b,
                None => {
                    return Err(Error::Round(Val::Null));
                },
            },
            _ => {
                return Err(Error::Round(self.copy()));
            },
        };
        assert(round_input(self@) == Some(x));
        let z = f(x);
        let n = if is_below_zero(z) {
            Int::from_usize(f64_to_usize(negate_bits(z))).negate()
        } else {
            Int::from_usize(f64_to_usize(z))
        };
        assert(n@ == rounded_int(z));
        let res: ValR = Ok(Val::Int(n));
        assert(round_input(self@)->Some_0 == x);
        assert(call_ensures(f, (round_input(self@)->Some_0,), z));
        res
    }
}

} // verus!
