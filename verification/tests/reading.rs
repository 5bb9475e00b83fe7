use fundot::object::{Float, Object, ParseObjectError};
use fundot::tokenizer::{atomize_expr, Token};

fn float_of(text: &str) -> Option<Float> {
    match text.parse::<f64>() {
        Ok(f) => Some(Float { bits: f.to_bits(), text: f.to_string() }),
        Err(_) => None,
    }
}

fn read(text: &str) -> Result<Object, ParseObjectError> {
    let tokens = atomize_expr(text)?;
    let readings: Vec<Option<Float>> = tokens
        .iter()
        .map(|t| match t {
            Token::Decimal(lexeme) => float_of(lexeme),
            Token::Atom(_) => None,
        })
        .collect();
    Object::from_str(text, &readings)
}

fn shape(text: &str) -> String {
    match read(text) {
        Ok(o) => format!("{:?}", o),
        Err(_) => "error".to_string(),
    }
}

fn token_shapes(text: &str) -> Vec<String> {
    match atomize_expr(text) {
        Ok(ts) => ts.iter().map(|t| format!("{:?}", t)).collect(),
        Err(_) => vec!["error".to_string()],
    }
}

#[test]
fn decimal_text_of_an_integer_reads_as_that_integer() {
    for i in [0i64, 1, 7, 42, 1_000_000, 4_611_686_018_427_387_904, i64::MAX] {
        let text = i.to_string();
        match read(&text) {
            Ok(Object::Integer(n)) => assert_eq!(n, i),
            other => panic!("{:?}", other),
        }
        assert_eq!(Object::Integer(i).to_string(), text);
    }
}

#[test]
fn leading_zeros_are_read() {
    assert_eq!(shape("007"), "Integer(7)");
}

#[test]
fn minus_sign_is_a_symbol_of_its_own() {
    assert_eq!(shape("-5"), "Symbol(\"-\")");
    assert_eq!(token_shapes("-5"), vec!["Atom(Symbol(\"-\"))", "Atom(Integer(5))"]);
}

#[test]
fn integer_beyond_64_bits_is_a_float() {
    match read("9223372036854775808") {
        Ok(Object::Float(f)) => {
            assert_eq!(f.bits, 9223372036854775808f64.to_bits());
            assert_eq!(f.text, "9223372036854776000");
        }
        other => panic!("{:?}", other),
    }
}

#[test]
fn embedded_dot_stays_in_the_number() {
    match read("1.5") {
        Ok(Object::Float(f)) => {
            assert_eq!(f.bits, 1.5f64.to_bits());
            assert_eq!(f.text, "1.5");
        }
        other => panic!("{:?}", other),
    }
    assert_eq!(token_shapes("1.5"), vec!["Decimal(\"1.5\")"]);
    assert_eq!(token_shapes("12.25 7"), vec!["Decimal(\"12.25\")", "Atom(Integer(7))"]);
}

#[test]
fn exponent_without_sign_is_read() {
    match read("1e3") {
        Ok(Object::Float(f)) => assert_eq!(f.bits, 1000f64.to_bits()),
        other => panic!("{:?}", other),
    }
}

#[test]
fn malformed_number_fails() {
    assert!(read("1.5.2").is_err());
    assert!(read("1e").is_err());
    assert!(read("1_000").is_err());
    assert!(read("12abc").is_err());
    assert!(read("(a 3x)").is_err());
}

#[test]
fn malformed_number_after_the_first_form_fails_too() {
    assert!(read("1 2x").is_err());
}

#[test]
fn decimal_without_a_reading_fails() {
    assert!(Object::from_str("1.5", &Vec::new()).is_err());
    assert!(Object::from_str("1.5", &vec![None]).is_err());
    let given = vec![Some(Float { bits: 1.5f64.to_bits(), text: "1.5".to_string() })];
    match Object::from_str("1.5", &given) {
        Ok(Object::Float(f)) => assert_eq!(f.bits, 1.5f64.to_bits()),
        other => panic!("{:?}", other),
    }
}

#[test]
fn dot_after_a_word_is_a_symbol() {
    assert_eq!(
        token_shapes("a.b"),
        vec!["Atom(Symbol(\"a\"))", "Atom(Symbol(\".\"))", "Atom(Symbol(\"b\"))"]
    );
    assert_eq!(shape("."), "Symbol(\".\")");
    assert_eq!(token_shapes(".5"), vec!["Atom(Symbol(\".\"))", "Atom(Integer(5))"]);
}

#[test]
fn literals_and_symbols() {
    assert_eq!(shape("null"), "Null");
    assert_eq!(shape("true"), "Bool(true)");
    assert_eq!(shape("false"), "Bool(false)");
    assert_eq!(shape("foo"), "Symbol(\"foo\")");
    assert_eq!(shape("nullx"), "Symbol(\"nullx\")");
    assert_eq!(shape("a_b"), "Symbol(\"a_b\")");
    assert_eq!(shape("x1"), "Symbol(\"x1\")");
}

#[test]
fn punctuation_is_one_symbol_each() {
    assert_eq!(
        token_shapes("a+b"),
        vec!["Atom(Symbol(\"a\"))", "Atom(Symbol(\"+\"))", "Atom(Symbol(\"b\"))"]
    );
    assert_eq!(token_shapes("<="), vec!["Atom(Symbol(\"<\"))", "Atom(Symbol(\"=\"))"]);
    for c in "!#$%&'()*+,-/:;<=>?@[\\]^`{|}~".chars() {
        assert_eq!(token_shapes(&c.to_string()), vec![format!("Atom(Symbol({:?}))", c.to_string())]);
    }
}

#[test]
fn white_space_separates_and_is_dropped() {
    assert_eq!(token_shapes(" \t\r\n"), Vec::<String>::new());
    assert_eq!(token_shapes("a\tb\nc"), vec![
        "Atom(Symbol(\"a\"))",
        "Atom(Symbol(\"b\"))",
        "Atom(Symbol(\"c\"))"
    ]);
    assert_eq!(token_shapes("a\u{a0}b").len(), 2);
    assert_eq!(token_shapes("a\u{3000}b").len(), 2);
    assert_eq!(token_shapes("a\u{200b}b").len(), 1);
}

#[test]
fn numeric_character_beyond_ascii_starts_a_number() {
    assert_eq!(token_shapes("\u{663}"), vec!["Decimal(\"\u{663}\")"]);
    assert!(read("\u{663}").is_err());
    assert_eq!(shape("\u{e9}t\u{e9}"), "Symbol(\"\u{e9}t\u{e9}\")");
}

#[test]
fn trailing_token_is_kept() {
    assert_eq!(shape("42"), "Integer(42)");
    assert_eq!(token_shapes("a b"), vec!["Atom(Symbol(\"a\"))", "Atom(Symbol(\"b\"))"]);
}

#[test]
fn string_literal_with_escapes() {
    assert_eq!(shape("\"hello\""), "String(\"hello\")");
    assert_eq!(shape("\"\""), "String(\"\")");
    assert_eq!(shape(r#""a\nb\tc\rd\\e\"f""#), "String(\"a\\nb\\tc\\rd\\\\e\\\"f\")");
    assert_eq!(shape("\"( [ { , : 1.5\""), "String(\"( [ { , : 1.5\")");
}

#[test]
fn string_literal_ends_the_pending_token() {
    assert_eq!(token_shapes("ab\"c\"d"), vec![
        "Atom(Symbol(\"ab\"))",
        "Atom(String(\"c\"))",
        "Atom(Symbol(\"d\"))"
    ]);
}

#[test]
fn unknown_escape_fails() {
    assert!(read(r#""a\qb""#).is_err());
    assert!(read(r#""\0""#).is_err());
    assert!(read(r#""\u{41}""#).is_err());
}

#[test]
fn unterminated_string_fails() {
    assert!(read("\"abc").is_err());
    assert!(read("\"abc\\").is_err());
    assert!(read("\"abc\\\"").is_err());
    assert!(read("1 \"").is_err());
}

#[test]
fn escaped_rendering_of_a_string_reads_back() {
    for text in [
        "",
        "plain",
        "with \"quotes\"",
        "back\\slash",
        "line\nfeed",
        "tab\tand\rreturn",
        "\\n is not a line feed",
        "\u{e9}\u{4e2d}\u{1f600}",
        "(not a list) [1, 2] {a: b}",
        "\\\\\"\"",
    ] {
        let shown = Object::String(text.to_string()).to_string();
        match read(&shown) {
            Ok(Object::String(s)) => assert_eq!(s, text),
            other => panic!("{:?}", other),
        }
    }
}

#[test]
fn empty_list_reads_and_shows() {
    match read("()") {
        Ok(Object::List(items)) => {
            assert!(items.is_empty());
            assert_eq!(Object::List(items).to_string(), "()");
        }
        other => panic!("{:?}", other),
    }
}

#[test]
fn vector_of_three_integers() {
    assert_eq!(shape("[1, 2, 3]"), "Vector([Integer(1), Integer(2), Integer(3)])");
    assert_eq!(shape("[1,2,3]"), "Vector([Integer(1), Integer(2), Integer(3)])");
    assert_eq!(shape("[]"), "Vector([])");
}

#[test]
fn mapping_of_two_entries() {
    assert_eq!(
        shape(r#"{"a": 1, "b": 2}"#),
        "Mapping([(String(\"a\"), Integer(1)), (String(\"b\"), Integer(2))])"
    );
    assert_eq!(shape("{}"), "Mapping([])");
}

#[test]
fn unbalanced_list_fails() {
    assert!(read("(1 2").is_err());
    assert!(read("(").is_err());
    assert!(read("((1 2)").is_err());
    assert!(read("[1, 2").is_err());
    assert!(read("[").is_err());
    assert!(read("{1: 2").is_err());
    assert!(read("{").is_err());
}

#[test]
fn vector_segment_of_two_items_fails() {
    assert!(read("[1 2]").is_err());
    assert!(read("[1, 2 3]").is_err());
    assert!(read("[a : b]").is_err());
}

#[test]
fn comma_before_an_element_is_skipped() {
    assert_eq!(shape("[,1]"), "Vector([Integer(1)])");
    assert_eq!(shape("[,1,2]"), "Vector([Integer(1), Integer(2)])");
    assert_eq!(shape("{,a: 1}"), "Mapping([(Symbol(\"a\"), Integer(1))])");
}

#[test]
fn empty_segment_fails() {
    assert!(read("[1,]").is_err());
    assert!(read("[1,,2]").is_err());
    assert!(read("[,]").is_err());
    assert!(read("{a: 1,}").is_err());
}

#[test]
fn mapping_pair_must_be_key_colon_value() {
    assert!(read(r#"{"a" 1}"#).is_err());
    assert!(read(r#"{"a": }"#).is_err());
    assert!(read(r#"{"a": 1 "b": 2}"#).is_err());
    assert!(read(r#"{"a", 1}"#).is_err());
    assert!(read(r#"{"a" = 1}"#).is_err());
    assert!(read(r#"{a ":" b}"#).is_err());
}

#[test]
fn mapping_keys_and_values_may_be_nested() {
    assert_eq!(
        shape("{[1, 2]: (a b), {x: y}: null}"),
        "Mapping([(Vector([Integer(1), Integer(2)]), List([Symbol(\"a\"), Symbol(\"b\")])), \
         (Mapping([(Symbol(\"x\"), Symbol(\"y\"))]), Null)])"
    );
}

#[test]
fn later_binding_of_an_equal_key_wins() {
    assert_eq!(shape(r#"{"a": 1, "a": 2}"#), "Mapping([(String(\"a\"), Integer(2))])");
    assert_eq!(
        shape(r#"{"a": 1, "b": 2, "a": 3}"#),
        "Mapping([(String(\"a\"), Integer(3)), (String(\"b\"), Integer(2))])"
    );
    assert_eq!(shape("{null: 1, false: 2}"), "Mapping([(Null, Integer(2))])");
}

#[test]
fn nested_forms() {
    assert_eq!(
        shape("((a) [b, {c: d}] \"e\")"),
        "List([List([Symbol(\"a\")]), Vector([Symbol(\"b\"), Mapping([(Symbol(\"c\"), \
         Symbol(\"d\"))])]), String(\"e\")])"
    );
    assert_eq!(shape("(get [1,2,3] 1)"), "List([Symbol(\"get\"), Vector([Integer(1), Integer(2), Integer(3)]), Integer(1)])");
}

#[test]
fn only_the_first_form_is_returned() {
    assert_eq!(shape("1 2"), "Integer(1)");
    assert_eq!(shape("(a) )"), "List([Symbol(\"a\")])");
}

#[test]
fn text_without_a_token_fails() {
    assert!(read("").is_err());
    assert!(read("   \n").is_err());
}

#[test]
fn closing_bracket_alone_is_an_atom() {
    assert_eq!(shape(")"), "Symbol(\")\")");
    assert_eq!(shape("[ ) ]"), "Vector([Symbol(\")\")])");
    assert!(read("( ]").is_err());
}

#[test]
fn comma_inside_a_list_is_an_atom() {
    assert_eq!(shape("(a, b)"), "List([Symbol(\"a\"), Symbol(\",\"), Symbol(\"b\")])");
}

#[test]
fn deep_nesting_is_read() {
    let depth = 200;
    let text = "(".repeat(depth) + &")".repeat(depth);
    let mut o = read(&text).ok().expect("balanced");
    for _ in 0..depth - 1 {
        o = match o {
            Object::List(mut items) => {
                assert_eq!(items.len(), 1);
                items.pop().expect("one item")
            }
            other => panic!("{:?}", other),
        };
    }
    assert_eq!(format!("{:?}", o), "List([])");
}

#[test]
fn white_space_is_what_the_machine_says() {
    for code in 0u32..=0x10ffff {
        let c = match char::from_u32(code) {
            Some(c) => c,
            None => continue,
        };
        if c == '"' || (c.is_ascii_punctuation() && c != '_') {
            continue;
        }
        let text = format!("a{}b", c);
        let expected = if c.is_whitespace() { 2 } else { 1 };
        assert_eq!(token_shapes(&text).len(), expected, "U+{:04X}", code);
    }
}

#[test]
fn white_space_beyond_ascii_is_listed() {
    let listed = [
        0x85u32, 0xa0, 0x1680, 0x2000, 0x2001, 0x2002, 0x2003, 0x2004, 0x2005, 0x2006, 0x2007,
        0x2008, 0x2009, 0x200a, 0x2028, 0x2029, 0x202f, 0x205f, 0x3000,
    ];
    for code in listed {
        let c = char::from_u32(code).expect("a character");
        assert_eq!(token_shapes(&format!("a{}b", c)).len(), 2, "U+{:04X}", code);
    }
    for code in [0x1cu32, 0x1f, 0x7f, 0x84, 0x86, 0x180e, 0x200b, 0x2060, 0xfeff] {
        let c = char::from_u32(code).expect("a character");
        assert_eq!(token_shapes(&format!("a{}b", c)).len(), 1, "U+{:04X}", code);
    }
}
