//! Machine-sized integers: a sign and a `usize` magnitude, so that every
//! integer in `[-usize::MAX, usize::MAX]` can be held.
use vstd::prelude::*;
use vstd::string::*;
use crate::float::{nat_f64_bits, nat_to_f64_bits, int_f64_bits, sign_mask};

verus! {

/// An integer in `[-usize::MAX, usize::MAX]`, held as a sign and a magnitude.
#[derive(Clone, Copy, Debug)]
pub struct Int {
    neg: bool,
    mag: usize,
}

impl View for Int {
    type V = int;

    closed spec fn view(&self) -> int {
        if self.neg {
            -(self.mag as int)
        } else {
            self.mag as int
        }
    }
}

/// The integers that an [`Int`] can hold.
pub open spec fn int_fits(i: int) -> bool {
    -(usize::MAX as int) <= i <= usize::MAX as int
}

/// Absolute value.
pub open spec fn abs_int(i: int) -> nat {
    if i < 0 {
        (-i) as nat
    } else {
        i as nat
    }
}

/// Quotient rounded toward zero.
pub open spec fn trunc_div(x: int, y: int) -> int {
    let q = (abs_int(x) / abs_int(y)) as int;
    if (x < 0) != (y < 0) {
        -q
    } else {
        q
    }
}

/// Remainder of the division rounded toward zero; it has the sign of `x`.
pub open spec fn trunc_rem(x: int, y: int) -> int {
    let r = (abs_int(x) % abs_int(y)) as int;
    if x < 0 {
        -r
    } else {
        r
    }
}

/// The ASCII digit for `d < 10`.
pub open spec fn digit_char(d: nat) -> char {
    (d + 48) as char
}

/// Decimal digits of `n`, most significant first, without leading zeros.
pub open spec fn nat_digits(n: nat) -> Seq<char>
    decreases n,
{
    if n < 10 {
        seq![digit_char(n)]
    } else {
        nat_digits(n / 10).push(digit_char(n % 10))
    }
}

/// Decimal text of an integer: a minus sign for negative numbers, then the digits.
pub open spec fn int_text(i: int) -> Seq<char> {
    if i < 0 {
        seq!['-'] + nat_digits(abs_int(i))
    } else {
        nat_digits(abs_int(i))
    }
}

/// True if `c` is an ASCII digit.
pub open spec fn is_digit(c: char) -> bool {
    '0' <= c <= '9'
}

/// Value of a sequence of ASCII digits.
pub open spec fn digits_value(s: Seq<char>) -> nat
    decreases s.len(),
{
    if s.len() == 0 {
        0
    } else {
        digits_value(s.drop_last()) * 10 + ((s.last() as nat) - 48) as nat
    }
}

/// The text after an optional leading `+`.
pub open spec fn unsigned_body(s: Seq<char>) -> Seq<char> {
    if s.len() > 0 && s[0] == '+' {
        s.drop_first()
    } else {
        s
    }
}

/// What `s.parse::<usize>()` gives: an optional `+`, then at least one
/// ASCII digit, and a value that fits into `usize`.
pub open spec fn parse_usize_spec(s: Seq<char>) -> Option<usize> {
    let body = unsigned_body(s);
    if body.len() > 0 && (forall|i: int| 0 <= i < body.len() ==> is_digit(#[trigger] body[i]))
        && digits_value(body) <= usize::MAX {
        Some(digits_value(body) as usize)
    } else {
        None
    }
}

proof fn lemma_digits_value_monotone(s: Seq<char>, k: int)
    requires
        0 <= k <= s.len(),
        forall|i: int| 0 <= i < s.len() ==> is_digit(#[trigger] s[i]),
    ensures
        digits_value(s.take(k)) <= digits_value(s),
    decreases s.len() - k,
{
    if k < s.len() {
        lemma_digits_value_monotone(s, k + 1);
        assert(s.take(k + 1).drop_last() =~= s.take(k));
        assert(digits_value(s.take(k)) <= digits_value(s.take(k + 1))) by (nonlinear_arith)
            requires
                digits_value(s.take(k + 1)) == digits_value(s.take(k)) * 10 + ((s.take(
                    k + 1,
                ).last() as nat) - 48) as nat,
        ;
    } else {
        assert(s.take(k) =~= s);
    }
}

/// The decimal digit `d` as a one-character string.
fn digit_str(d: usize) -> (s: &'static str)
    requires
        d < 10,
    ensures
        s@ == seq![digit_char(d as nat)],
{
    match d {
        0 => {
            proof {
                reveal_strlit("0");
            }
            "0"
        },
        1 => {
            proof {
                reveal_strlit("1");
            }
            "1"
        },
        2 => {
            proof {
                reveal_strlit("2");
            }
            "2"
        },
        3 => {
            proof {
                reveal_strlit("3");
            }
            "3"
        },
        4 => {
            proof {
                reveal_strlit("4");
            }
            "4"
        },
        5 => {
            proof {
                reveal_strlit("5");
            }
            "5"
        },
        6 => {
            proof {
                reveal_strlit("6");
            }
            "6"
        },
        7 => {
            proof {
                reveal_strlit("7");
            }
            "7"
        },
        8 => {
            proof {
                reveal_strlit("8");
            }
            "8"
        },
        _ => {
            proof {
                reveal_strlit("9");
            }
            "9"
        },
    }
}

/// Decimal text of a natural number.
pub fn usize_text(n: usize) -> (s: String)
    ensures
        s@ == nat_digits(n as nat),
    decreases n,
{
    if n < 10 {
        String::from_str(digit_str(n))
    } else {
        let mut s = usize_text(n / 10);
        s.append(digit_str(n % 10));
        s
    }
}

/// Parse a decimal natural number as `str::parse::<usize>` does.
pub fn parse_usize(text: &str) -> (r: Option<usize>)
    ensures
        r == parse_usize_spec(text@),
{
    let n = text.unicode_len();
    let mut start: usize = 0;
    if n > 0 && text.get_char(0) == '+' {
        start = 1;
    }
    let ghost body = unsigned_body(text@);
    assert(body =~= text@.skip(start as int));
    if start >= n {
        return None;
    }
    let mut i: usize = start;
    let mut v: usize = 0;
    while i < n
        invariant
            start <= i <= n,
            n == text@.len(),
            body =~= text@.skip(start as int),
            body == unsigned_body(text@),
            forall|j: int| 0 <= j < i - start ==> is_digit(#[trigger] body[j]),
            v == digits_value(body.take(i - start)),
        decreases n - i,
    {
        let c = text.get_char(i);
        assert(c == body[i - start]);
        if !('0' <= c && c <= '9') {
            assert(!is_digit(body[i - start]));
            return None;
        }
        let d = (c as u32 - 48) as usize;
        assert(body.take(i + 1 - start).drop_last() =~= body.take(i - start));
        let ghost k = (i + 1 - start) as int;
        proof {
            assert(body.take(k).last() == c);
            assert(digits_value(body.take(k)) == v * 10 + d);
            if forall|j: int| 0 <= j < body.len() ==> is_digit(#[trigger] body[j]) {
                lemma_digits_value_monotone(body, k);
            }
        }
        match v.checked_mul(10) {
            Some(v10) => match v10.checked_add(d) {
                Some(v2) => {
                    v = v2;
                },
                None => {
                    return None;
                },
            },
            None => {
                return None;
            },
        }
        i = i + 1;
    }
    assert(body.take(n - start) =~= body);
    Some(v)
}


impl Int {
    /// Every `Int` lies in `[-usize::MAX, usize::MAX]`.
    pub proof fn lemma_fits(&self)
        ensures
            int_fits(self@),
    {
    }

    /// The non-negative integer `u`.
    pub fn from_usize(u: usize) -> (r: Int)
        ensures
            r@ == u as int,
    {
        Int { neg: false, mag: u }
    }

    /// True if the integer is not negative (zero counts as positive).
    pub fn is_positive(&self) -> (r: bool)
        ensures
            r == (self@ >= 0),
    {
        !self.neg || self.mag == 0
    }

    /// The absolute value.
    pub fn abs(&self) -> (r: usize)
        ensures
            r as int == abs_int(self@),
    {
        self.mag
    }

    /// The negation.
    pub fn negate(&self) -> (r: Int)
        ensures
            r@ == -self@,
    {
        Int { neg: !self.neg && self.mag != 0, mag: self.mag }
    }

    /// A copy of the integer.
    pub fn copy(&self) -> (r: Int)
        ensures
            r@ == self@,
    {
        Int { neg: self.neg, mag: self.mag }
    }

    /// The sum; it must fit.
    pub fn plus(&self, other: &Int) -> (r: Int)
        requires
            int_fits(self@ + other@),
        ensures
            r@ == self@ + other@,
    {
        if self.neg == other.neg {
            Int { neg: self.neg, mag: self.mag + other.mag }
        } else if self.mag >= other.mag {
            Int { neg: self.neg, mag: self.mag - other.mag }
        } else {
            Int { neg: other.neg, mag: other.mag - self.mag }
        }
    }

    /// The difference; it must fit.
    pub fn minus(&self, other: &Int) -> (r: Int)
        requires
            int_fits(self@ - other@),
        ensures
            r@ == self@ - other@,
    {
        self.plus(&other.negate())
    }

    /// The product; it must fit.
    pub fn times(&self, other: &Int) -> (r: Int)
        requires
            int_fits(self@ * other@),
        ensures
            r@ == self@ * other@,
    {
        proof {
            assert(abs_int(self@ * other@) == self.mag as int * other.mag as int) by (nonlinear_arith)
                requires
                    self@ == (if self.neg { -(self.mag as int) } else { self.mag as int }),
                    other@ == (if other.neg { -(other.mag as int) } else { other.mag as int }),
            ;
        }
        let m = self.mag * other.mag;
        let r = Int { neg: self.neg != other.neg, mag: m };
        proof {
            assert(r@ == self@ * other@) by (nonlinear_arith)
                requires
                    self@ == (if self.neg { -(self.mag as int) } else { self.mag as int }),
                    other@ == (if other.neg { -(other.mag as int) } else { other.mag as int }),
                    r@ == (if self.neg != other.neg { -(m as int) } else { m as int }),
                    m == self.mag as int * other.mag as int,
            ;
        }
        r
    }

    /// The quotient rounded toward zero; the divisor must not be zero.
    pub fn quot(&self, other: &Int) -> (r: Int)
        requires
            other@ != 0,
        ensures
            r@ == trunc_div(self@, other@),
    {
        let m = self.mag / other.mag;
        Int { neg: self.neg != other.neg && m != 0, mag: m }
    }

    /// The remainder of the division rounded toward zero; the divisor must not be zero.
    pub fn modulo(&self, other: &Int) -> (r: Int)
        requires
            other@ != 0,
        ensures
            r@ == trunc_rem(self@, other@),
    {
        let m = self.mag % other.mag;
        assert(abs_int(self@) == self.mag as nat);
        assert(abs_int(other@) == other.mag as nat);
        assert(self@ < 0 <==> (self.neg && self.mag != 0));
        let r = Int { neg: self.neg && m != 0, mag: m };
        assert(m as int == (abs_int(self@) % abs_int(other@)) as int);
        assert(r@ == (if self.neg && m != 0 { -(m as int) } else { m as int }));
        assert(trunc_rem(self@, other@) == (if self@ < 0 { -(m as int) } else { m as int }));
        assert(self.mag == 0 ==> m == 0) by (nonlinear_arith)
            requires
                m == self.mag % other.mag,
                other.mag > 0,
        ;
        r
    }

    /// True if the integers are equal.
    pub fn equal(&self, other: &Int) -> (r: bool)
        ensures
            r == (self@ == other@),
    {
        (self.mag == 0 && other.mag == 0) || (self.neg == other.neg && self.mag == other.mag)
    }

    /// True if `self` is smaller than `other`.
    pub fn less(&self, other: &Int) -> (r: bool)
        ensures
            r == (self@ < other@),
    {
        let a = self.is_positive();
        let b = other.is_positive();
        if a && b {
            self.mag < other.mag
        } else if !a && !b {
            self.mag > other.mag
        } else {
            b
        }
    }

    /// The binary64 number nearest to the integer, as bits (`as f64`).
    pub fn to_f64_bits(&self) -> (r: u64)
        ensures
            r == int_f64_bits(self@),
    {
        let b = nat_to_f64_bits(self.mag as u64);
        if self.neg && self.mag != 0 {
            b + 0x8000_0000_0000_0000
        } else {
            b
        }
    }

    /// Decimal text of the integer.
    pub fn to_text(&self) -> (r: String)
        ensures
            r@ == int_text(self@),
    {
        let digits = usize_text(self.mag);
        if self.neg && self.mag != 0 {
            proof {
                reveal_strlit("-");
            }
            let mut s = String::from_str("-");
            s.append(digits.as_str());
            s
        } else {
            digits
        }
    }
}

/// An integer as a JSON number: non-negative ones as `usize`,
/// negative ones as `isize`.
#[derive(Clone, Copy, Debug, PartialEq, Eq, Structural)]
pub enum JsonInt {
    /// A non-negative integer.
    Unsigned(usize),
    /// A negative integer.
    Negative(isize),
}

impl Int {
    /// The integer as a JSON number: `None` for a negative integer whose
    /// magnitude exceeds `isize::MAX`.
    pub fn json_number(&self) -> (r: Option<JsonInt>)
        ensures
            self@ >= 0 ==> r == Some(JsonInt::Unsigned(self@ as usize)),
            self@ < 0 && -self@ <= isize::MAX ==> r == Some(JsonInt::Negative(self@ as isize)),
            self@ < 0 && -self@ > isize::MAX ==> r is None,
    {
        if self.is_positive() {
            Some(JsonInt::Unsigned(self.mag))
        } else if self.mag <= isize::MAX as usize {
            let m = self.mag as isize;
            Some(JsonInt::Negative(-m))
        } else {
            None
        }
    }
}

} // verus!
