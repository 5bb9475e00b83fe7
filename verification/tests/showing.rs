use fundot::display::{integer_to_string, quote};
use fundot::object::{Float, Object, Primitive};

fn text(s: &str) -> Object {
    Object::String(s.to_string())
}

fn name(s: &str) -> Object {
    Object::Symbol(s.to_string())
}

#[test]
fn scalars_are_shown() {
    assert_eq!(Object::Null.to_string(), "null");
    assert_eq!(Object::Bool(true).to_string(), "true");
    assert_eq!(Object::Bool(false).to_string(), "false");
    assert_eq!(name("foo").to_string(), "foo");
    assert_eq!(name("+").to_string(), "+");
}

#[test]
fn integers_are_shown_in_decimal() {
    for i in [0i64, 5, 10, 42, -1, -10, 1234567890123, i64::MAX, i64::MIN, i64::MIN + 1] {
        assert_eq!(Object::Integer(i).to_string(), i.to_string());
        assert_eq!(integer_to_string(i), i.to_string());
    }
}

#[test]
fn float_is_shown_by_its_text() {
    let f = Object::Float(Float { bits: 1.5f64.to_bits(), text: 1.5f64.to_string() });
    assert_eq!(f.to_string(), "1.5");
    let g = Object::Float(Float { bits: 1e21f64.to_bits(), text: 1e21f64.to_string() });
    assert_eq!(g.to_string(), "1000000000000000000000");
}

#[test]
fn string_is_quoted_with_the_five_escapes() {
    assert_eq!(text("").to_string(), "\"\"");
    assert_eq!(text("abc").to_string(), "\"abc\"");
    assert_eq!(text("a\"b").to_string(), "\"a\\\"b\"");
    assert_eq!(text("a\\b").to_string(), "\"a\\\\b\"");
    assert_eq!(text("a\nb").to_string(), "\"a\\nb\"");
    assert_eq!(text("a\rb").to_string(), "\"a\\rb\"");
    assert_eq!(text("a\tb").to_string(), "\"a\\tb\"");
    assert_eq!(text("'\u{e9}'").to_string(), "\"'\u{e9}'\"");
    assert_eq!(quote(&"x\ty".to_string()), "\"x\\ty\"");
}

#[test]
fn list_is_shown_with_spaces() {
    assert_eq!(Object::List(vec![]).to_string(), "()");
    assert_eq!(Object::List(vec![name("a")]).to_string(), "(a)");
    assert_eq!(
        Object::List(vec![name("a"), name("b"), Object::Integer(3)]).to_string(),
        "(a b 3)"
    );
}

#[test]
fn vector_is_shown_with_commas() {
    assert_eq!(Object::Vector(vec![]).to_string(), "[]");
    assert_eq!(Object::Vector(vec![Object::Integer(1)]).to_string(), "[1]");
    assert_eq!(
        Object::Vector(vec![Object::Integer(1), Object::Integer(2), Object::Integer(3)])
            .to_string(),
        "[1, 2, 3]"
    );
}

#[test]
fn mapping_is_shown_with_colons() {
    assert_eq!(Object::Mapping(vec![]).to_string(), "{}");
    assert_eq!(Object::Mapping(vec![(text("a"), Object::Integer(1))]).to_string(), "{\"a\": 1}");
    assert_eq!(
        Object::Mapping(vec![(text("a"), Object::Integer(1)), (name("k2"), name("v2"))])
            .to_string(),
        "{\"a\": 1, k2: v2}"
    );
}

#[test]
fn nested_values_are_shown() {
    let v = Object::List(vec![
        name("get"),
        Object::Vector(vec![Object::List(vec![]), Object::Mapping(vec![])]),
        Object::Mapping(vec![(
            Object::Vector(vec![Object::Integer(1), Object::Null]),
            Object::List(vec![text("x"), Object::Bool(false)]),
        )]),
    ]);
    assert_eq!(v.to_string(), "(get [(), {}] {[1, null]: (\"x\" false)})");
}

#[test]
fn capability_handle_is_shown_opaque() {
    assert_eq!(Object::Other(Primitive::Get).to_string(), "<Any { .. }>");
    assert_eq!(Object::Other(Primitive::Quit).to_string(), "<Any { .. }>");
}
