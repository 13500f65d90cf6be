use jaq_core::float::nat_to_f64_bits;
use jaq_core::integer::Int;
use jaq_core::val::{Error, MathOp, Number, Obj, Val};
use std::cmp::Ordering;

fn ival(i: isize) -> Val {
    let m = Int::from_usize(i.unsigned_abs());
    Val::Int(if i < 0 { m.negate() } else { m })
}

fn float(f: f64) -> Val {
    Val::Float(f.to_bits())
}

fn s(t: &str) -> Val {
    Val::Str(t.to_string())
}

fn obj(entries: &[(&str, Val)]) -> Val {
    let mut o = Obj::new();
    for (k, v) in entries {
        o.insert(k.to_string(), v.clone());
    }
    Val::Obj(o)
}

fn fop(op: MathOp, x: u64, y: u64) -> u64 {
    let (x, y) = (f64::from_bits(x), f64::from_bits(y));
    let z = match op {
        MathOp::Add => x + y,
        MathOp::Sub => x - y,
        MathOp::Mul => x * y,
        MathOp::Div => x / y,
        MathOp::Rem => x % y,
    };
    z.to_bits()
}

fn as_f64(v: &Val) -> f64 {
    match v {
        Val::Float(b) => f64::from_bits(*b),
        _ => panic!("not a float"),
    }
}

fn as_isize(v: &Val) -> isize {
    match v {
        Val::Int(i) => {
            let m = i.abs() as isize;
            if i.is_positive() {
                m
            } else {
                -m
            }
        }
        _ => panic!("not an integer"),
    }
}

#[test]
fn int_to_float_bits_matches_cast() {
    let samples: [u64; 12] = [
        0,
        1,
        2,
        3,
        1 << 52,
        (1 << 53) - 1,
        1 << 53,
        (1 << 53) + 1,
        (1 << 53) + 3,
        u64::MAX,
        12345678901234567,
        0x8000_0000_0000_0401,
    ];
    for m in samples {
        assert_eq!(nat_to_f64_bits(m), (m as f64).to_bits(), "{}", m);
    }
    for k in 0..64 {
        let m = 1u64 << k;
        for d in [0u64, 1, 2, 3] {
            let x = m.wrapping_add(d);
            assert_eq!(nat_to_f64_bits(x), (x as f64).to_bits(), "{}", x);
        }
    }
}

#[test]
fn truthiness() {
    assert!(!Val::Null.as_bool());
    assert!(!Val::Bool(false).as_bool());
    assert!(Val::Bool(true).as_bool());
    assert!(ival(0).as_bool());
    assert!(s("").as_bool());
}

#[test]
fn type_names() {
    assert_eq!(Val::Null.typ(), "null");
    assert_eq!(Val::Bool(true).typ(), "boolean");
    assert_eq!(ival(3).typ(), "number");
    assert_eq!(float(1.5).typ(), "number");
    assert_eq!(s("a").typ(), "string");
    assert_eq!(Val::Arr(vec![]).typ(), "array");
    assert_eq!(obj(&[]).typ(), "object");
}

#[test]
fn lengths() {
    assert_eq!(as_isize(&Val::Null.len().unwrap()), 0);
    assert!(matches!(Val::Bool(true).len(), Err(Error::Length(_))));
    assert_eq!(as_isize(&ival(-5).len().unwrap()), 5);
    assert_eq!(as_f64(&float(-2.5).len().unwrap()), 2.5);
    assert_eq!(as_isize(&s("äbc").len().unwrap()), 3);
    assert_eq!(as_isize(&Val::Arr(vec![ival(1), ival(2)]).len().unwrap()), 2);
    assert_eq!(as_isize(&obj(&[("a", ival(1))]).len().unwrap()), 1);
}

#[test]
fn integer_arithmetic_stays_integer() {
    assert_eq!(as_isize(&ival(2).add(ival(3), fop).unwrap()), 5);
    assert_eq!(as_isize(&ival(2).sub(ival(3), fop).unwrap()), -1);
    assert_eq!(as_isize(&ival(-4).mul(ival(3), fop).unwrap()), -12);
    assert_eq!(as_isize(&ival(-7).rem(ival(3), fop).unwrap()), -1);
    assert_eq!(as_isize(&ival(12).div(ival(4), fop).unwrap()), 3);
    assert_eq!(as_f64(&ival(1).div(ival(2), fop).unwrap()), 0.5);
    assert_eq!(as_f64(&ival(1).add(float(0.5), fop).unwrap()), 1.5);
}

#[test]
fn null_is_neutral_for_addition() {
    assert_eq!(as_isize(&Val::Null.add(ival(3), fop).unwrap()), 3);
    assert_eq!(as_isize(&ival(3).add(Val::Null, fop).unwrap()), 3);
    assert!(matches!(Val::Null.sub(ival(3), fop), Err(Error::MathOp(_, MathOp::Sub, _))));
}

#[test]
fn objects_merge_right_biased() {
    let l = obj(&[("a", ival(1)), ("b", ival(2))]);
    let r = obj(&[("b", ival(3)), ("c", ival(4))]);
    let m = l.add(r, fop).unwrap();
    assert!(m == obj(&[("a", ival(1)), ("b", ival(3)), ("c", ival(4))]));
}

#[test]
fn ordering() {
    assert_eq!(Val::Null.compare(&Val::Bool(false)), Ordering::Less);
    assert_eq!(ival(1).compare(&float(1.0)), Ordering::Equal);
    assert_eq!(ival(1).compare(&float(1.5)), Ordering::Less);
    assert_eq!(s("b").compare(&s("a")), Ordering::Greater);
    assert_eq!(Val::Arr(vec![ival(1)]).compare(&Val::Arr(vec![ival(1), ival(0)])), Ordering::Less);
    let a = obj(&[("b", ival(1)), ("a", ival(2))]);
    let b = obj(&[("a", ival(2)), ("b", ival(1))]);
    assert_eq!(a.compare(&b), Ordering::Equal);
    assert!(a == b);
}

#[test]
fn sorting() {
    let v = Val::Arr(vec![ival(3), s("x"), Val::Null, float(-1.0), ival(1)]);
    let sorted = v.sort().unwrap();
    assert!(sorted == Val::Arr(vec![Val::Null, float(-1.0), ival(1), ival(3), s("x")]));
    assert!(matches!(ival(1).sort(), Err(Error::Sort(_))));
}

#[test]
fn containment() {
    assert!(s("foobar").contains(&s("oba")));
    assert!(!s("foobar").contains(&s("baz")));
    let a = Val::Arr(vec![s("foobar"), ival(1)]);
    assert!(a.contains(&Val::Arr(vec![s("bar"), ival(1)])));
    assert!(!a.contains(&Val::Arr(vec![ival(2)])));
    let o = obj(&[("a", s("xyz")), ("b", ival(1))]);
    assert!(o.contains(&obj(&[("a", s("y"))])));
    assert!(!o.contains(&obj(&[("c", ival(1))])));
}

#[test]
fn numbers_from_text() {
    assert_eq!(as_isize(&Val::from_number("42".to_string(), Some(42f64.to_bits()))), 42);
    assert_eq!(as_isize(&Val::from_number("-7".to_string(), Some((-7f64).to_bits()))), -7);
    let big = Val::from_number("1e1000".to_string(), Some(f64::INFINITY.to_bits()));
    assert!(matches!(big, Val::Num(Number { .. })));
    assert_eq!(big.typ(), "number");
}
