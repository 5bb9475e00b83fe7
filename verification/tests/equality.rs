use fundot::float::{float_equal, integer_to_float};
use fundot::object::{Float, Object, Primitive};

fn float(f: f64) -> Object {
    Object::Float(Float { bits: f.to_bits(), text: f.to_string() })
}

fn string(s: &str) -> Object {
    Object::String(s.to_string())
}

fn symbol(s: &str) -> Object {
    Object::Symbol(s.to_string())
}

#[test]
fn integer_one_equals_float_one() {
    assert!(Object::Integer(1).equals(&float(1.0)));
    assert!(float(1.0).equals(&Object::Integer(1)));
    assert!(Object::Integer(1) == float(1.0));
    assert!(!Object::Integer(1).equals(&float(1.5)));
    assert!(!Object::Integer(2).equals(&float(1.0)));
}

#[test]
fn null_equals_false_both_ways() {
    assert!(Object::Null.equals(&Object::Bool(false)));
    assert!(Object::Bool(false).equals(&Object::Null));
    assert!(!Object::Null.equals(&Object::Bool(true)));
    assert!(!Object::Bool(true).equals(&Object::Null));
    assert!(Object::Null.equals(&Object::Null));
}

#[test]
fn true_does_not_equal_integer_one() {
    assert!(!Object::Bool(true).equals(&Object::Integer(1)));
    assert!(!Object::Integer(1).equals(&Object::Bool(true)));
    assert!(!Object::Bool(false).equals(&Object::Integer(0)));
    assert!(!Object::Null.equals(&Object::Integer(0)));
    assert!(Object::Bool(true) != Object::Integer(1));
}

#[test]
fn string_and_symbol_of_one_text_differ() {
    assert!(string("a").equals(&string("a")));
    assert!(symbol("a").equals(&symbol("a")));
    assert!(!string("a").equals(&symbol("a")));
    assert!(!symbol("a").equals(&string("a")));
    assert!(!string("a").equals(&string("b")));
}

#[test]
fn conversion_agrees_with_the_machine() {
    let mut samples: Vec<i64> = vec![
        0,
        1,
        -1,
        2,
        3,
        10,
        -255,
        (1 << 52) - 1,
        1 << 52,
        (1 << 52) + 1,
        (1 << 53) - 1,
        1 << 53,
        (1 << 53) + 1,
        (1 << 53) + 2,
        (1 << 53) + 3,
        (1 << 54) + 1,
        (1 << 54) + 2,
        (1 << 54) + 3,
        (1 << 54) + 6,
        (1 << 62) + (1 << 9),
        (1 << 62) + (1 << 9) + 1,
        (1 << 62) + (1 << 9) - 1,
        (1 << 62) + 3 * (1 << 9),
        i64::MAX,
        i64::MAX - 1,
        i64::MAX - 511,
        i64::MAX - 512,
        i64::MAX - 1023,
        i64::MAX - 1024,
        i64::MIN,
        i64::MIN + 1,
        i64::MIN + 512,
        i64::MIN + 513,
        -(1 << 53) - 1,
    ];
    let mut x: u64 = 0x9e37_79b9_7f4a_7c15;
    for round in 0..20000u32 {
        x ^= x << 13;
        x ^= x >> 7;
        x ^= x << 17;
        samples.push((x >> (round % 64)) as i64);
        samples.push(-((x >> (round % 63 + 1)) as i64));
    }
    for i in samples {
        assert_eq!(integer_to_float(i), (i as f64).to_bits(), "{}", i);
    }
}

#[test]
fn conversion_rounds_ties_to_even() {
    assert_eq!(integer_to_float(1), 0x3ff0_0000_0000_0000);
    assert_eq!(integer_to_float(-2), 0xc000_0000_0000_0000);
    assert_eq!(integer_to_float((1 << 53) + 1), 0x4340_0000_0000_0000);
    assert_eq!(integer_to_float((1 << 53) + 3), 0x4340_0000_0000_0002);
    assert_eq!(integer_to_float(i64::MAX), 0x43e0_0000_0000_0000);
    assert_eq!(integer_to_float(i64::MIN), 0xc3e0_0000_0000_0000);
}

#[test]
fn integer_equals_the_float_it_rounds_to() {
    let big = (1i64 << 53) + 1;
    assert!(Object::Integer(big).equals(&float(9007199254740992.0)));
    assert!(float(9007199254740992.0).equals(&Object::Integer(big)));
    assert!(!Object::Integer(big).equals(&Object::Integer(1 << 53)));
    assert!(Object::Integer(i64::MAX).equals(&float(9223372036854775808.0)));
}

#[test]
fn float_equality_is_that_of_the_machine() {
    let samples = [
        0.0f64,
        -0.0,
        1.0,
        -1.0,
        1.5,
        f64::MIN_POSITIVE,
        f64::MAX,
        f64::INFINITY,
        f64::NEG_INFINITY,
        f64::NAN,
        -f64::NAN,
        f64::from_bits(1),
        f64::from_bits(0x7ff0_0000_0000_0001),
        f64::from_bits(0xfff8_0000_0000_0000),
        f64::EPSILON,
    ];
    for a in samples {
        for b in samples {
            assert_eq!(float_equal(a.to_bits(), b.to_bits()), a == b, "{} {}", a, b);
            assert_eq!(float(a).equals(&float(b)), a == b, "{} {}", a, b);
        }
    }
}

#[test]
fn zero_equals_both_float_zeros() {
    assert!(Object::Integer(0).equals(&float(0.0)));
    assert!(Object::Integer(0).equals(&float(-0.0)));
    assert!(float(-0.0).equals(&Object::Integer(0)));
    assert!(!Object::Integer(0).equals(&float(f64::NAN)));
}

#[test]
fn lists_and_vectors_are_compared_part_by_part() {
    let a = Object::List(vec![Object::Integer(1), string("x")]);
    let b = Object::List(vec![float(1.0), string("x")]);
    let c = Object::List(vec![Object::Integer(1)]);
    let d = Object::Vector(vec![Object::Integer(1), string("x")]);
    assert!(a.equals(&b));
    assert!(b.equals(&a));
    assert!(!a.equals(&c));
    assert!(!c.equals(&a));
    assert!(!a.equals(&d));
    assert!(!d.equals(&a));
    assert!(d.equals(&Object::Vector(vec![Object::Integer(1), string("x")])));
    assert!(Object::List(vec![]).equals(&Object::List(vec![])));
    assert!(!Object::List(vec![]).equals(&Object::Vector(vec![])));
    assert!(!Object::List(vec![]).equals(&Object::Null));
}

#[test]
fn mappings_are_compared_whatever_the_order() {
    let a = Object::Mapping(vec![(string("a"), Object::Integer(1)), (string("b"), Object::Integer(2))]);
    let b = Object::Mapping(vec![(string("b"), Object::Integer(2)), (string("a"), Object::Integer(1))]);
    let c = Object::Mapping(vec![(string("a"), Object::Integer(1)), (string("b"), Object::Integer(3))]);
    let d = Object::Mapping(vec![(string("a"), Object::Integer(1))]);
    let e = Object::Mapping(vec![(string("a"), Object::Integer(1)), (string("c"), Object::Integer(2))]);
    assert!(a.equals(&b));
    assert!(b.equals(&a));
    assert!(!a.equals(&c));
    assert!(!a.equals(&d));
    assert!(!d.equals(&a));
    assert!(!a.equals(&e));
    assert!(Object::Mapping(vec![]).equals(&Object::Mapping(vec![])));
    assert!(!Object::Mapping(vec![]).equals(&Object::Vector(vec![])));
}

#[test]
fn capability_handle_equals_nothing() {
    let get = Object::Other(Primitive::Get);
    assert!(!get.equals(&Object::Other(Primitive::Get)));
    assert!(!get.equals(&Object::Other(Primitive::Quit)));
    assert!(!get.equals(&Object::Null));
    assert!(!Object::Null.equals(&get));
}

#[test]
fn clone_is_equal_to_what_it_copies() {
    let a = Object::List(vec![
        Object::Null,
        Object::Bool(true),
        Object::Integer(-3),
        float(2.5),
        string("s"),
        symbol("t"),
        Object::Vector(vec![Object::Integer(1)]),
        Object::Mapping(vec![(symbol("k"), Object::List(vec![]))]),
    ]);
    let b = a.clone();
    assert_eq!(format!("{:?}", a), format!("{:?}", b));
    assert!(a.equals(&b));
}

#[test]
fn mappings_are_equal_both_ways_or_neither() {
    let a = Object::Mapping(vec![
        (Object::Integer(9007199254740992), Object::Null),
        (Object::Integer(9007199254740993), Object::Null),
    ]);
    let b = Object::Mapping(vec![
        (float(9007199254740992.0), Object::Null),
        (symbol("q"), Object::Null),
    ]);
    assert!(!a.equals(&b));
    assert!(!b.equals(&a));
    assert!(a != b);
    assert!(b != a);
    let c = Object::Mapping(vec![
        (Object::Integer(1), string("x")),
        (Object::Integer(2), string("y")),
    ]);
    let d = Object::Mapping(vec![(float(2.0), string("y")), (float(1.0), string("x"))]);
    assert!(c.equals(&d));
    assert!(d.equals(&c));
    let e = Object::Mapping(vec![(float(2.0), string("y")), (float(1.0), string("z"))]);
    assert!(!c.equals(&e));
    assert!(!e.equals(&c));
}

#[test]
fn equality_holds_both_ways() {
    let big = 1i64 << 53;
    let samples = [
        Object::Null,
        Object::Bool(false),
        Object::Bool(true),
        Object::Integer(0),
        Object::Integer(1),
        Object::Integer(big),
        Object::Integer(big + 1),
        float(0.0),
        float(-0.0),
        float(1.0),
        float(9007199254740992.0),
        float(f64::NAN),
        string("a"),
        symbol("a"),
        Object::Other(Primitive::Get),
        Object::List(vec![Object::Integer(1), Object::Null]),
        Object::List(vec![float(1.0), Object::Bool(false)]),
        Object::Vector(vec![Object::Integer(1), Object::Null]),
        Object::Mapping(vec![]),
        Object::Mapping(vec![(Object::Integer(big), Object::Null)]),
        Object::Mapping(vec![(float(9007199254740992.0), Object::Bool(false))]),
        Object::Mapping(vec![
            (Object::Integer(big), Object::Null),
            (Object::Integer(big + 1), Object::Null),
        ]),
        Object::Mapping(vec![
            (float(9007199254740992.0), Object::Null),
            (symbol("q"), Object::Null),
        ]),
        Object::Mapping(vec![
            (float(9007199254740992.0), Object::Null),
            (float(9007199254740992.0), Object::Integer(1)),
        ]),
        Object::Mapping(vec![
            (Object::Integer(big + 1), Object::Integer(1)),
            (Object::Integer(big), Object::Null),
        ]),
    ];
    for a in &samples {
        for b in &samples {
            assert_eq!(a.equals(b), b.equals(a), "{:?} {:?}", a, b);
        }
    }
}
