use jaq_core::float::f64_to_usize;
use jaq_core::integer::{parse_usize, usize_text, Int, JsonInt};
use jaq_core::order::float_compare;
use jaq_core::render::Piece;
use jaq_core::val::{Error, MathOp, Number, Obj, Val};
use std::cmp::Ordering;

fn int_val(i: isize) -> Val {
    let m = Int::from_usize(i.unsigned_abs());
    Val::Int(if i < 0 { m.negate() } else { m })
}

fn fl(f: f64) -> Val {
    Val::Float(f.to_bits())
}

fn st(t: &str) -> Val {
    Val::Str(t.to_string())
}

fn arr(items: Vec<Val>) -> Val {
    Val::Arr(items)
}

fn object(entries: &[(&str, Val)]) -> Val {
    let mut o = Obj::new();
    for (k, v) in entries {
        o.insert(k.to_string(), v.clone());
    }
    Val::Obj(o)
}

fn float_arith(op: MathOp, x: u64, y: u64) -> u64 {
    let (x, y) = (f64::from_bits(x), f64::from_bits(y));
    let z = match op {
        MathOp::Add => x + y,
        MathOp::Sub => x - y,
        MathOp::Mul => x * y,
        MathOp::Div => x / y,
        MathOp::Rem => x % y,
    };
    z.to_bits()
}

fn int_of(v: &Val) -> isize {
    match v {
        Val::Int(i) => {
            let m = i.abs() as isize;
            if i.is_positive() {
                m
            } else {
                -m
            }
        }
        _ => panic!("not an integer: {:?}", v),
    }
}

fn float_of(v: &Val) -> f64 {
    match v {
        Val::Float(b) => f64::from_bits(*b),
        _ => panic!("not a float: {:?}", v),
    }
}

fn text_of(v: &Val) -> String {
    let mut s = String::new();
    for p in v.render() {
        match p {
            Piece::Text(t) => s.push_str(&t),
            Piece::Float(b) => s.push_str(&f64::from_bits(b).to_string()),
        }
    }
    s
}

// ---- laws on concrete values ----

#[test]
fn equality_is_symmetric_on_examples() {
    let pairs = [
        (int_val(1), fl(1.0)),
        (object(&[("a", int_val(1)), ("b", st("x"))]), object(&[("b", st("x")), ("a", fl(1.0))])),
        (arr(vec![int_val(2), Val::Null]), arr(vec![fl(2.0), Val::Null])),
        (st("a"), st("b")),
        (object(&[("a", int_val(1))]), object(&[("b", int_val(1))])),
    ];
    for (a, b) in pairs.iter() {
        assert_eq!(a == b, b == a, "{:?} {:?}", a, b);
    }
    assert!(pairs[0].0 == pairs[0].1);
    assert!(pairs[1].0 == pairs[1].1);
    assert!(pairs[3].0 != pairs[3].1);
    assert!(pairs[4].0 != pairs[4].1);
}

#[test]
fn equality_agrees_with_order_on_examples() {
    let vals = [
        Val::Null,
        Val::Bool(false),
        Val::Bool(true),
        int_val(-3),
        int_val(1),
        fl(1.0),
        fl(-0.0),
        fl(0.0),
        int_val(0),
        st("a"),
        st("ä"),
        arr(vec![int_val(1)]),
        arr(vec![fl(1.0)]),
        object(&[("a", int_val(1)), ("b", int_val(2))]),
        object(&[("b", int_val(2)), ("a", fl(1.0))]),
        object(&[("a", int_val(1)), ("c", int_val(2))]),
    ];
    for a in vals.iter() {
        for b in vals.iter() {
            assert_eq!(a == b, a.compare(b) == Ordering::Equal, "{:?} {:?}", a, b);
        }
    }
}

#[test]
fn swapping_operands_reverses_the_order() {
    let vals = [
        Val::Null,
        Val::Bool(true),
        int_val(5),
        fl(4.5),
        st("b"),
        st("ab"),
        arr(vec![int_val(1), int_val(2)]),
        arr(vec![int_val(1)]),
        object(&[("a", int_val(1))]),
        object(&[("a", int_val(2))]),
    ];
    for a in vals.iter() {
        assert_eq!(a.compare(a), Ordering::Equal);
        for b in vals.iter() {
            assert_eq!(a.compare(b), b.compare(a).reverse(), "{:?} {:?}", a, b);
            assert_eq!(a.partial_cmp(b), Some(a.compare(b)));
        }
    }
}

#[test]
fn sorted_output_is_ordered_permutation() {
    let input = vec![
        object(&[("z", Val::Null)]),
        st("b"),
        int_val(10),
        fl(2.5),
        arr(vec![]),
        Val::Bool(true),
        Val::Null,
        st("a"),
        int_val(-1),
    ];
    let sorted = match arr(input.clone()).sort().unwrap() {
        Val::Arr(a) => a,
        _ => panic!("sort gave no array"),
    };
    assert_eq!(sorted.len(), input.len());
    for w in sorted.windows(2) {
        assert_ne!(w[0].compare(&w[1]), Ordering::Greater);
    }
    for x in input.iter() {
        assert!(sorted.iter().any(|y| y == x));
    }
    assert!(sorted[0] == Val::Null);
    assert!(sorted[1] == Val::Bool(true));
    assert_eq!(int_of(&sorted[2]), -1);
}

#[test]
fn every_key_is_defined() {
    let values = [
        arr(vec![st("a"), st("b"), st("c")]),
        object(&[("x", int_val(1)), ("y", int_val(2))]),
    ];
    for v in values.iter() {
        let keys = v.keys().unwrap();
        assert_eq!(keys.len(), int_of(&v.len().unwrap()) as usize);
        for k in keys.iter() {
            assert_eq!(v.has(k).unwrap(), true);
        }
    }
}

#[test]
fn insert_then_get() {
    let mut o = Obj::new();
    o.insert("a".to_string(), int_val(1));
    o.insert("b".to_string(), int_val(2));
    o.insert("a".to_string(), int_val(3));
    assert_eq!(o.len(), 2);
    assert_eq!(o.position(&"a".to_string()), Some(0));
    assert_eq!(o.position(&"b".to_string()), Some(1));
    assert_eq!(o.position(&"c".to_string()), None);
    assert_eq!(int_of(o.get(&"a".to_string()).unwrap()), 3);
    assert_eq!(int_of(o.get(&"b".to_string()).unwrap()), 2);
    assert!(o.get(&"c".to_string()).is_none());
    assert!(o.contains_key(&"b".to_string()));
    assert!(!o.contains_key(&"c".to_string()));
}

#[test]
fn integer_text_reads_back() {
    for i in [0isize, 7, -7, 10, -100, 123456789, isize::MIN + 1, isize::MAX] {
        let t = text_of(&int_val(i));
        assert_eq!(t, i.to_string());
        let back = Val::from_number(t.clone(), t.parse::<f64>().ok().map(f64::to_bits));
        assert_eq!(int_of(&back), i);
    }
    assert_eq!(usize_text(usize::MAX), usize::MAX.to_string());
    assert_eq!(Int::from_usize(42).negate().to_text(), "-42");
}

#[test]
fn negating_twice_gives_the_number_back() {
    for v in [int_val(3), int_val(-4), int_val(0), fl(2.5), fl(-0.0), fl(f64::INFINITY)] {
        let w = v.clone().neg().unwrap().neg().unwrap();
        match (&v, &w) {
            (Val::Float(a), Val::Float(b)) => assert_eq!(a, b),
            _ => assert_eq!(int_of(&v), int_of(&w)),
        }
    }
    assert_eq!(float_of(&fl(2.5).neg().unwrap()), -2.5);
}

#[test]
fn quotient_of_integers() {
    assert_eq!(int_of(&int_val(-12).div(int_val(4), float_arith).unwrap()), -3);
    assert_eq!(int_of(&int_val(0).div(int_val(5), float_arith).unwrap()), 0);
    assert_eq!(float_of(&int_val(7).div(int_val(2), float_arith).unwrap()), 3.5);
    assert_eq!(float_of(&int_val(-7).div(int_val(2), float_arith).unwrap()), -3.5);
    assert!(float_of(&int_val(1).div(int_val(0), float_arith).unwrap()).is_infinite());
    assert!(float_of(&int_val(0).div(int_val(0), float_arith).unwrap()).is_nan());
}

#[test]
fn mixed_number_operations_give_floats() {
    assert_eq!(float_of(&int_val(2).mul(fl(1.5), float_arith).unwrap()), 3.0);
    assert_eq!(float_of(&fl(1.5).sub(int_val(2), float_arith).unwrap()), -0.5);
    assert_eq!(float_of(&int_val(2).sub(fl(1.5), float_arith).unwrap()), 0.5);
    assert_eq!(float_of(&fl(1.0).add(fl(0.25), float_arith).unwrap()), 1.25);
    assert_eq!(float_of(&fl(1.0).div(int_val(4), float_arith).unwrap()), 0.25);
    let num = Val::Num(Number { text: "1e3".to_string(), float: Some(1e3f64.to_bits()) });
    assert_eq!(float_of(&num.add(int_val(1), float_arith).unwrap()), 1001.0);
}

#[test]
fn remainder_with_floats_is_float() {
    assert_eq!(float_of(&fl(5.5).rem(int_val(2), float_arith).unwrap()), 1.5);
    assert_eq!(float_of(&int_val(7).rem(fl(2.5), float_arith).unwrap()), 2.0);
    assert_eq!(float_of(&fl(-5.5).rem(fl(2.0), float_arith).unwrap()), -1.5);
    let num = Val::Num(Number { text: "1e1".to_string(), float: Some(10f64.to_bits()) });
    assert_eq!(float_of(&num.rem(int_val(4), float_arith).unwrap()), 2.0);
    assert!(float_of(&fl(1.0).rem(int_val(0), float_arith).unwrap()).is_nan());
}

#[test]
fn concatenation_of_strings_and_arrays() {
    assert!(st("ab").add(st("cd"), float_arith).unwrap() == st("abcd"));
    let a = arr(vec![int_val(1)]).add(arr(vec![int_val(2), int_val(3)]), float_arith).unwrap();
    assert!(a == arr(vec![int_val(1), int_val(2), int_val(3)]));
    let o = object(&[("a", int_val(1))]).add(object(&[("a", int_val(2)), ("b", int_val(3))]), float_arith);
    let o = o.unwrap();
    assert_eq!(text_of(&o), "{\"a\":2,\"b\":3}");
}

// ---- one input per error ----

#[test]
fn error_nat() {
    assert_eq!(int_val(5).as_usize().unwrap(), 5);
    assert_eq!(int_val(0).as_usize().unwrap(), 0);
    assert!(matches!(int_val(-1).as_usize(), Err(Error::Nat(Val::Int(_)))));
    assert!(matches!(fl(1.0).as_usize(), Err(Error::Nat(Val::Float(_)))));
}

#[test]
fn error_int() {
    let i = int_val(-9).as_int().unwrap();
    assert_eq!(i.abs(), 9);
    assert!(!i.is_positive());
    assert!(matches!(st("9").as_int(), Err(Error::Int(Val::Str(_)))));
}

#[test]
fn error_obj_key() {
    assert_eq!(st("k").as_obj_key().unwrap(), "k");
    assert!(matches!(int_val(1).as_obj_key(), Err(Error::ObjKey(Val::Int(_)))));
}

#[test]
fn error_round() {
    assert_eq!(int_of(&fl(2.7).round(|b| f64::from_bits(b).floor().to_bits()).unwrap()), 2);
    assert_eq!(int_of(&fl(-2.5).round(|b| f64::from_bits(b).round().to_bits()).unwrap()), -3);
    assert_eq!(int_of(&fl(-0.2).round(|b| f64::from_bits(b).ceil().to_bits()).unwrap()), 0);
    assert_eq!(int_of(&fl(f64::NAN).round(|b| b).unwrap()), 0);
    assert_eq!(int_of(&int_val(-4).round(|b| b).unwrap()), -4);
    assert!(matches!(st("1.5").round(|b| b), Err(Error::Round(Val::Str(_)))));
    let nan_text = Val::Num(Number { text: "x".to_string(), float: None });
    assert!(matches!(nan_text.round(|b| b), Err(Error::Round(Val::Null))));
}

#[test]
fn error_range() {
    let mut it = int_val(-2).range(&int_val(1)).unwrap();
    let mut got = Vec::new();
    while let Some(v) = it.next_val() {
        got.push(int_of(&v));
    }
    assert_eq!(got, vec![-2, -1, 0]);
    let mut empty = int_val(3).range(&int_val(3)).unwrap();
    assert!(empty.next_val().is_none());
    assert!(matches!(int_val(1).range(&fl(2.0)), Err(Error::Range)));
}

#[test]
fn error_has() {
    assert_eq!(Val::Null.has(&int_val(0)).unwrap(), false);
    let a = arr(vec![int_val(1), int_val(2)]);
    assert_eq!(a.has(&int_val(1)).unwrap(), true);
    assert_eq!(a.has(&int_val(2)).unwrap(), false);
    assert!(matches!(a.has(&int_val(-1)), Err(Error::Has(_, _))));
    assert!(matches!(a.has(&st("a")), Err(Error::Has(_, _))));
    assert!(matches!(Val::Bool(true).has(&int_val(0)), Err(Error::Has(_, _))));
    let o = object(&[("a", Val::Null)]);
    assert_eq!(o.has(&st("a")).unwrap(), true);
    assert_eq!(o.has(&st("b")).unwrap(), false);
}

#[test]
fn error_keys() {
    let k = object(&[("b", int_val(1)), ("a", int_val(2))]).keys().unwrap();
    assert!(k[0] == st("b") && k[1] == st("a"));
    let k = arr(vec![Val::Null, Val::Null]).keys().unwrap();
    assert_eq!(int_of(&k[1]), 1);
    assert!(matches!(int_val(1).keys(), Err(Error::Keys(_))));
}

#[test]
fn error_iter() {
    let vs = object(&[("b", int_val(1)), ("a", int_val(2))]).iter().unwrap();
    assert_eq!(int_of(&vs[0]), 1);
    assert_eq!(int_of(&vs[1]), 2);
    assert_eq!(arr(vec![st("x")]).iter().unwrap().len(), 1);
    assert!(matches!(st("ab").iter(), Err(Error::Iter(_))));
}

#[test]
fn error_from_json() {
    let v = st("[1, {\"a\": null}]").from_json().unwrap();
    assert!(v == arr(vec![int_val(1), object(&[("a", Val::Null)])]));
    match st("[1,").from_json() {
        Err(Error::FromJson(Val::Str(s), Some(m))) => {
            assert_eq!(s, "[1,");
            assert!(!m.is_empty());
        }
        other => panic!("{:?}", other),
    }
    assert!(matches!(int_val(1).from_json(), Err(Error::FromJson(Val::Int(_), None))));
}

#[test]
fn json_text_to_values() {
    let v = st("{\"b\": -3, \"a\": [true, 1.5, \"x\"], \"c\": 18446744073709551615}").from_json().unwrap();
    let o = match &v {
        Val::Obj(o) => o,
        _ => panic!("no object"),
    };
    assert_eq!(int_of(o.get(&"b".to_string()).unwrap()), -3);
    assert!(*o.get(&"a".to_string()).unwrap() == arr(vec![Val::Bool(true), fl(1.5), st("x")]));
    assert!(matches!(o.get(&"c".to_string()).unwrap(), Val::Int(i) if i.abs() == usize::MAX));
    let f = st("2.5e3").from_json().unwrap();
    assert!(matches!(&f, Val::Num(n) if n.text == "2500.0"));
    assert!(f == fl(2500.0));
    assert!(st("\"s\"").from_json().unwrap() == st("s"));
    assert!(matches!(st("nul").from_json(), Err(Error::FromJson(_, Some(_)))));
}

#[test]
fn error_sort() {
    assert!(matches!(object(&[]).sort(), Err(Error::Sort(Val::Obj(_)))));
    assert!(matches!(st("x").sort_by(|v| Ok(vec![v])), Err(Error::Sort(Val::Str(_)))));
}

#[test]
fn error_math_op() {
    assert!(matches!(st("a").add(int_val(1), float_arith), Err(Error::MathOp(_, MathOp::Add, _))));
    assert!(matches!(st("a").sub(st("a"), float_arith), Err(Error::MathOp(_, MathOp::Sub, _))));
    assert!(matches!(arr(vec![]).mul(int_val(2), float_arith), Err(Error::MathOp(_, MathOp::Mul, _))));
    assert!(matches!(st("a").div(st("b"), float_arith), Err(Error::MathOp(_, MathOp::Div, _))));
    assert!(matches!(st("a").rem(int_val(2), float_arith), Err(Error::MathOp(_, MathOp::Rem, _))));
    assert!(matches!(Val::Null.rem(fl(2.0), float_arith), Err(Error::MathOp(_, MathOp::Rem, _))));
    assert_eq!(int_of(&int_val(7).rem(int_val(-2), float_arith).unwrap()), 1);
}

#[test]
fn error_neg() {
    assert!(matches!(st("a").neg(), Err(Error::Neg(Val::Str(_)))));
    let bad = Val::Num(Number { text: "x".to_string(), float: None });
    assert!(matches!(bad.neg(), Err(Error::Neg(Val::Null))));
    assert!(matches!(Val::Bool(true).len(), Err(Error::Length(Val::Bool(true)))));
}

// ---- edge cases ----

#[test]
fn number_texts() {
    assert_eq!(parse_usize("+5"), Some(5));
    assert_eq!(parse_usize("007"), Some(7));
    assert_eq!(parse_usize(""), None);
    assert_eq!(parse_usize("+"), None);
    assert_eq!(parse_usize("1_0"), None);
    assert_eq!(parse_usize("18446744073709551615"), "18446744073709551615".parse::<usize>().ok());
    assert_eq!(parse_usize("18446744073709551616"), None);
    assert_eq!(int_of(&Val::from_number("-0".to_string(), Some((-0.0f64).to_bits()))), 0);
    assert_eq!(int_of(&Val::from_number("+5".to_string(), Some(5f64.to_bits()))), 5);
    let half = Val::from_number("0.5".to_string(), Some(0.5f64.to_bits()));
    assert!(matches!(half, Val::Num(_)));
    assert!(half == fl(0.5));
    assert_eq!(float_of(&half.len().unwrap()), 0.5);
    let dash = Val::from_number("-".to_string(), None);
    assert!(matches!(dash, Val::Num(_)));
    assert!(dash == Val::Null);
}

#[test]
fn rendering() {
    assert_eq!(text_of(&Val::Null), "null");
    assert_eq!(text_of(&Val::Bool(false)), "false");
    assert_eq!(text_of(&int_val(-12)), "-12");
    assert_eq!(text_of(&fl(1.5)), "1.5");
    assert_eq!(text_of(&st("a b")), "\"a b\"");
    assert_eq!(text_of(&arr(vec![])), "[]");
    assert_eq!(text_of(&object(&[])), "{}");
    let v = arr(vec![int_val(1), st("x"), object(&[("k", Val::Null), ("l", arr(vec![Val::Bool(true)]))])]);
    assert_eq!(text_of(&v), "[1,\"x\",{\"k\":null,\"l\":[true]}]");
    let num = Val::Num(Number { text: "1e1000".to_string(), float: Some(f64::INFINITY.to_bits()) });
    assert_eq!(text_of(&num), "1e1000");
    assert_eq!(text_of(&arr(vec![fl(1.5), int_val(2), fl(-0.25)])), "[1.5,2,-0.25]");
    assert_eq!(text_of(&object(&[("f", fl(0.5)), ("g", arr(vec![]))])), "{\"f\":0.5,\"g\":[]}");
}

#[test]
fn integers_as_json_numbers() {
    assert_eq!(Int::from_usize(5).json_number(), Some(JsonInt::Unsigned(5)));
    assert_eq!(Int::from_usize(5).negate().json_number(), Some(JsonInt::Negative(-5)));
    assert_eq!(Int::from_usize(0).negate().json_number(), Some(JsonInt::Unsigned(0)));
    let m = isize::MAX as usize;
    assert_eq!(Int::from_usize(m).negate().json_number(), Some(JsonInt::Negative(-isize::MAX)));
    assert_eq!(Int::from_usize(m + 1).negate().json_number(), None);
}

#[test]
fn float_to_usize_matches_cast() {
    let samples = [
        0.0,
        -0.0,
        0.5,
        0.99,
        1.0,
        2.7,
        -1.0,
        -0.5,
        4503599627370495.5,
        9007199254740993.0,
        1e19,
        1.8446744073709552e19,
        1e20,
        f64::MAX,
        f64::INFINITY,
        f64::NEG_INFINITY,
        f64::NAN,
        f64::MIN_POSITIVE,
        123456.789,
    ];
    for x in samples {
        assert_eq!(f64_to_usize(x.to_bits()), x as usize, "{}", x);
    }
}

#[test]
fn float_order_is_total_order_but_zeros() {
    let samples = [
        f64::NEG_INFINITY,
        -1.5,
        -0.0,
        0.0,
        f64::MIN_POSITIVE,
        1.0,
        f64::INFINITY,
        f64::NAN,
        -f64::NAN,
    ];
    for a in samples {
        for b in samples {
            let expected = if a == 0.0 && b == 0.0 { Ordering::Equal } else { a.total_cmp(&b) };
            assert_eq!(float_compare(a.to_bits(), b.to_bits()), expected, "{} {}", a, b);
        }
    }
    assert!(fl(f64::NAN) == fl(f64::NAN));
    assert!(fl(0.0) == fl(-0.0));
}

#[test]
fn integer_operations() {
    let a = Int::from_usize(7).negate();
    let b = Int::from_usize(2);
    assert_eq!(int_of(&Val::Int(a.quot(&b))), -3);
    assert_eq!(int_of(&Val::Int(a.modulo(&b))), -1);
    assert_eq!(int_of(&Val::Int(a.plus(&b))), -5);
    assert_eq!(int_of(&Val::Int(a.minus(&b))), -9);
    assert_eq!(int_of(&Val::Int(a.times(&b))), -14);
    assert!(a.less(&b));
    assert!(!b.less(&a));
    assert!(Int::from_usize(0).negate().equal(&Int::from_usize(0)));
    assert_eq!(f64::from_bits(a.to_f64_bits()), -7.0);
}

#[test]
fn sort_by_keys_from_function() {
    let v = arr(vec![st("ccc"), st("a"), st("bb"), st("d")]);
    let sorted = v.clone().sort_by(|x| Ok(vec![x.len().unwrap()])).unwrap();
    assert!(sorted == arr(vec![st("a"), st("d"), st("bb"), st("ccc")]));
    let failed = v.sort_by(|x| if x == st("bb") { Err(Error::Keys(x)) } else { Ok(vec![]) });
    assert!(matches!(failed, Err(Error::Keys(Val::Str(s))) if s == "bb"));
    let by_given = arr(vec![st("x"), st("y")]).sort_by_keys(vec![int_val(2), int_val(1)]).unwrap();
    assert!(by_given == arr(vec![st("y"), st("x")]));
}

#[test]
fn copies_are_equal() {
    let v = object(&[("a", arr(vec![int_val(1), fl(2.5), st("s")])), ("b", Val::Null)]);
    let c = v.clone();
    assert!(c == v);
    assert_eq!(text_of(&c), text_of(&v));
    assert_eq!(v.typ(), "object");
}

#[test]
fn containment_of_nested_values() {
    let a = object(&[("a", arr(vec![int_val(1), int_val(2)])), ("b", st("hello"))]);
    assert!(a.contains(&a));
    assert!(a.contains(&object(&[("a", arr(vec![int_val(2)]))])));
    assert!(!a.contains(&object(&[("a", arr(vec![int_val(3)]))])));
    assert!(int_val(1).contains(&fl(1.0)));
    assert!(!int_val(1).contains(&st("1")));
    assert!(arr(vec![]).contains(&arr(vec![])));
    assert!(!arr(vec![]).contains(&arr(vec![int_val(1)])));
}

#[test]
fn order_is_transitive_on_integers_and_on_floats() {
    let ints = [
        Val::Null,
        Val::Bool(false),
        int_val(-2),
        int_val(3),
        st("a"),
        st("b"),
        arr(vec![int_val(1)]),
        arr(vec![int_val(1), int_val(0)]),
        object(&[("a", int_val(1))]),
        object(&[("a", int_val(2))]),
        object(&[("b", int_val(0))]),
    ];
    let floats = [Val::Null, fl(-1.5), fl(-0.0), fl(0.0), fl(2.0), fl(f64::NAN), arr(vec![fl(1.0)]), arr(vec![fl(0.5)])];
    for set in [&ints[..], &floats[..]] {
        for a in set {
            for b in set {
                for c in set {
                    let (ab, bc, ac) = (a.compare(b), b.compare(c), a.compare(c));
                    if ab != Ordering::Greater && bc != Ordering::Greater {
                        assert_ne!(ac, Ordering::Greater, "{:?} {:?} {:?}", a, b, c);
                    }
                    if ab == Ordering::Equal && bc == Ordering::Equal {
                        assert!(a == c);
                    }
                }
            }
        }
    }
}

#[test]
fn integers_meeting_floats_break_transitivity() {
    let big = int_val(9007199254740993);
    let f = fl(9007199254740992.0);
    let small = int_val(9007199254740992);
    assert!(big == f);
    assert!(f == small);
    assert!(big != small);
    assert_eq!(big.compare(&small), Ordering::Greater);
}

#[test]
fn defined_keys_are_keys() {
    let a = arr(vec![Val::Null, Val::Null, Val::Null]);
    let keys = a.keys().unwrap();
    for i in 0..5 {
        let k = int_val(i);
        if a.has(&k).unwrap() {
            assert!(keys.iter().any(|x| x == &k));
        } else {
            assert!(i >= 3);
        }
    }
    let o = object(&[("x", Val::Null), ("y", Val::Null)]);
    let keys = o.keys().unwrap();
    for name in ["x", "y", "z"] {
        let k = st(name);
        assert_eq!(o.has(&k).unwrap(), keys.iter().any(|x| x == &k));
    }
}

#[test]
fn equal_values_contain_each_other() {
    let pairs = [
        (int_val(2), fl(2.0)),
        (fl(f64::NAN), fl(f64::NAN)),
        (st("abc"), st("abc")),
        (arr(vec![int_val(1), arr(vec![fl(0.0)])]), arr(vec![fl(1.0), arr(vec![fl(-0.0)])])),
        (object(&[("a", int_val(1)), ("b", st("x"))]), object(&[("b", st("x")), ("a", fl(1.0))])),
    ];
    for (a, b) in pairs.iter() {
        assert!(a == b);
        assert!(a.contains(b), "{:?} {:?}", a, b);
        assert!(b.contains(a), "{:?} {:?}", a, b);
        assert!(a.contains(&a.clone()));
    }
}

#[test]
fn values_match_keys_by_position() {
    let o = object(&[("b", int_val(1)), ("a", int_val(2)), ("c", st("z"))]);
    let keys = o.keys().unwrap();
    let vals = o.iter().unwrap();
    assert_eq!(keys.len(), vals.len());
    let entries = match o {
        Val::Obj(m) => m,
        _ => panic!("no object"),
    };
    for (k, v) in keys.iter().zip(vals.iter()) {
        let name = match k {
            Val::Str(s) => s.clone(),
            _ => panic!("key is no string"),
        };
        assert!(entries.get(&name).unwrap() == v);
    }
    let pairs = entries.into_entries();
    assert_eq!(pairs.iter().map(|(k, _)| k.as_str()).collect::<Vec<_>>(), vec!["b", "a", "c"]);
}

#[test]
fn sort_by_short_arrays_calls_no_key_function() {
    let one = arr(vec![st("x")]).sort_by(|v| Err(Error::Keys(v))).unwrap();
    assert!(one == arr(vec![st("x")]));
    let none = arr(vec![]).sort_by(|v| Err(Error::Keys(v))).unwrap();
    assert!(none == arr(vec![]));
    assert!(matches!(arr(vec![st("x"), st("y")]).sort_by(|v| Err(Error::Keys(v))), Err(Error::Keys(_))));
}
