use crate::chars::{char_is_numeric, char_is_whitespace, is_ascii_punctuation};
use crate::display::{digit_char, digits, display, escape, escaped, integer_text, quoted};
use crate::evaluator::{evaluate, primitives, EvaluationValue};
use crate::float::float_eq;
use crate::object::{binding, find_holder, find_key, hash_part, lemma_find_key, mapping_eq, seq_eq,
    value_eq, with_binding, FloatValue, Value};
use crate::parser::form_at;
use crate::reader::{atom_of, atoms_of, read, reading_at};
use crate::tokenizer::{all_digits, classify, decimal_i64, digits_value, flush, scan, string_body,
    tokens, unescape, TokenValue};
use vstd::prelude::*;

verus! {

proof fn lemma_digit_char(d: int)
    requires
        0 <= d < 10,
    ensures
        '0' <= digit_char(d) <= '9',
        digit_char(d) as nat - '0' as nat == d,
{
}

/// The digits of a number are decimal digits, and they write that number.
pub proof fn lemma_digits(m: nat)
    ensures
        digits(m).len() >= 1,
        all_digits(digits(m)),
        digits_value(digits(m)) == m,
    decreases m,
{
    lemma_digit_char((m % 10) as int);
    if m < 10 {
        assert(digits(m).drop_last() =~= Seq::<char>::empty());
        assert(digits_value(digits(m).drop_last()) == 0);
        assert(digits(m).last() == digit_char(m as int));
    } else {
        lemma_digits(m / 10);
        let s = digits(m);
        assert(s.drop_last() =~= digits(m / 10));
        assert(s.last() == digit_char((m % 10) as int));
        assert forall|i: int| 0 <= i < s.len() implies '0' <= #[trigger] s[i] <= '9' by {
            if i < s.len() - 1 {
                assert(s[i] == digits(m / 10)[i]);
            }
        }
    }
}

/// A run of decimal digits at the end of a text joins the pending lexeme,
/// where that lexeme is empty or made of digits too.
proof fn lemma_scan_digits(text: Seq<char>, pos: int, buf: Seq<char>)
    requires
        0 <= pos <= text.len(),
        all_digits(text),
        all_digits(buf),
    ensures
        scan(text, pos, buf) == Some(flush(buf + text.subrange(pos, text.len() as int))),
    decreases text.len() - pos,
{
    if pos >= text.len() {
        assert(buf + text.subrange(pos, text.len() as int) =~= buf);
    } else {
        let c = text[pos];
        assert('0' <= c <= '9');
        assert(!char_is_whitespace(c));
        assert(!is_ascii_punctuation(c));
        let next = buf.push(c);
        assert forall|i: int| 0 <= i < next.len() implies '0' <= #[trigger] next[i] <= '9' by {
            if i < buf.len() {
                assert(next[i] == buf[i]);
            }
        }
        lemma_scan_digits(text, pos + 1, next);
        assert(next + text.subrange(pos + 1, text.len() as int) =~= buf + text.subrange(
            pos,
            text.len() as int,
        ));
    }
}

/// A text of one atom that is no bracket reads as that atom.
proof fn lemma_read_one(
    text: Seq<char>,
    readings: Seq<Option<FloatValue>>,
    v: Value,
)
    requires
        tokens(text) == Some(seq![TokenValue::Atom(v)]),
        !(v is Symbol),
    ensures
        read(text, readings) == Some(v),
{
    let ts = seq![TokenValue::Atom(v)];
    assert(atom_of(ts[0], reading_at(readings, 0)) == Some(v));
    let atoms = atoms_of(ts, readings)->0;
    assert(atoms =~= seq![v]);
    assert(form_at(atoms, 0) == Some((v, 1int)));
}

/// Reading the decimal text of an integer that is not negative yields that
/// integer, whatever the readings; the text that shows the integer is that
/// decimal text.
pub proof fn lemma_integer_round_trip(i: i64, readings: Seq<Option<FloatValue>>)
    requires
        0 <= i,
    ensures
        read(integer_text(i), readings) == Some(Value::Integer(i)),
        display(Value::Integer(i)) == integer_text(i),
{
    let text = integer_text(i);
    lemma_digits(i as nat);
    lemma_scan_digits(text, 0, Seq::empty());
    assert(Seq::<char>::empty() + text.subrange(0, text.len() as int) =~= text);
    assert(char_is_numeric(text[0]));
    assert(decimal_i64(text) == Some(i));
    assert(classify(text) == TokenValue::Atom(Value::Integer(i)));
    lemma_read_one(text, readings, Value::Integer(i));
}

/// The escapes of fewer characters stand first in the escapes of more.
proof fn lemma_escaped_prefix(s: Seq<char>, k: nat, n: nat)
    requires
        k <= n,
    ensures
        escaped(s, k).len() <= escaped(s, n).len(),
        escaped(s, n).subrange(0, escaped(s, k).len() as int) == escaped(s, k),
    decreases n,
{
    if k < n {
        lemma_escaped_prefix(s, k, (n - 1) as nat);
        assert(escaped(s, n).subrange(0, escaped(s, k).len() as int) =~= escaped(
            s,
            (n - 1) as nat,
        ).subrange(0, escaped(s, k).len() as int));
    } else {
        assert(escaped(s, n).subrange(0, escaped(s, n).len() as int) =~= escaped(s, n));
    }
}

/// Inside the literal of a text, the body read from where character `k`
/// starts is the text from `k` on, and it ends with the literal.
proof fn lemma_string_body_quoted(s: Seq<char>, k: int)
    requires
        0 <= k <= s.len(),
    ensures
        string_body(quoted(s), 1 + escaped(s, k as nat).len() as int) == Some(
            (s.subrange(k, s.len() as int), quoted(s).len() as int),
        ),
    decreases s.len() - k,
{
    let text = quoted(s);
    let whole = escaped(s, s.len());
    let pos: int = 1 + escaped(s, k as nat).len() as int;
    lemma_escaped_prefix(s, k as nat, s.len());
    if k == s.len() {
        assert(text[pos] == '"');
        assert(s.subrange(k, s.len() as int) =~= Seq::<char>::empty());
    } else {
        let c = s[k];
        let e = escape(c);
        lemma_escaped_prefix(s, (k + 1) as nat, s.len());
        let upto = escaped(s, (k + 1) as nat);
        assert(upto == escaped(s, k as nat) + e);
        assert forall|j: int| 0 <= j < e.len() implies text[pos + j] == e[j] by {
            assert(text[pos + j] == whole[pos - 1 + j]);
            assert(whole.subrange(0, upto.len() as int)[pos - 1 + j] == whole[pos - 1 + j]);
            assert(upto[pos - 1 + j] == e[j]);
        }
        lemma_string_body_quoted(s, k + 1);
        let rest = s.subrange(k + 1, s.len() as int);
        assert(seq![c] + rest =~= s.subrange(k, s.len() as int));
        assert(1 + upto.len() == pos + e.len());
        if e.len() == 2 {
            assert(text[pos] == e[0]);
            assert(text[pos + 1] == e[1]);
            assert(unescape(e[1]) == Some(c));
        } else {
            assert(text[pos] == e[0]);
        }
    }
}

/// Reading the literal of a text, written with the five escapes, yields
/// exactly that text as a string, whatever characters it holds; the literal
/// is the text that shows the string.
pub proof fn lemma_string_round_trip(s: Seq<char>, readings: Seq<Option<FloatValue>>)
    ensures
        read(quoted(s), readings) == Some(Value::String(s)),
        display(Value::String(s)) == quoted(s),
{
    let text = quoted(s);
    lemma_string_body_quoted(s, 0);
    assert(escaped(s, 0).len() == 0);
    assert(s.subrange(0, s.len() as int) =~= s);
    assert(text[0] == '"');
    assert(string_body(text, 1) == Some((s, text.len() as int)));
    let head = flush(Seq::<char>::empty()).push(TokenValue::Atom(Value::String(s)));
    assert(head =~= seq![TokenValue::Atom(Value::String(s))]);
    assert(scan(text, text.len() as int, Seq::empty()) == Some(Seq::<TokenValue>::empty()));
    assert(head + Seq::<TokenValue>::empty() =~= head);
    assert(tokens(text) == Some(head));
    lemma_read_one(text, readings, Value::String(s));
}

/// A symbol that a new evaluator's table does not bind evaluates to itself.
pub proof fn lemma_unbound_symbol(name: Seq<char>)
    requires
        name != "get"@,
        name != "quit"@,
    ensures
        evaluate(Value::Mapping(primitives()), Value::Symbol(name)) == EvaluationValue::Done(
            Value::Symbol(name),
        ),
{
    reveal_with_fuel(find_key, 3);
    assert(find_key(primitives(), Value::Symbol(name), 0) is None);
}

/// The last binding of a key wins: after a key that equals itself is bound
/// to a value, the mapping binds the key to that value.
pub proof fn lemma_last_write_wins(pairs: Seq<(Value, Value)>, key: Value, value: Value)
    requires
        value_eq(key, key),
    ensures
        binding(with_binding(pairs, key, value), key) == Some(value),
{
    lemma_find_key(pairs, key, 0);
    let after = with_binding(pairs, key, value);
    lemma_find_key(after, key, 0);
    match find_key(pairs, key, 0) {
        Some(j) => {
            assert(after[j].0 == pairs[j].0);
            assert forall|k: int| 0 <= k < j implies !value_eq(key, #[trigger] after[k].0) by {
                assert(after[k].0 == pairs[k].0);
            }
            match find_key(after, key, 0) {
                Some(found) => {
                    if found < j {
                        assert(!value_eq(key, after[found].0));
                    }
                },
                None => {},
            }
        },
        None => {
            let last = pairs.len() as int;
            assert(after[last].0 == key);
            match find_key(after, key, 0) {
                Some(found) => {
                    if found < last {
                        assert(after[found].0 == pairs[found].0);
                    }
                },
                None => {},
            }
        },
    }
}

/// Two values that are equal hash alike, but for an integer and a float:
/// the number of the integer goes into its hash, and nothing of the float.
pub proof fn lemma_equal_values_hash_alike(a: Value, b: Value)
    requires
        value_eq(a, b),
        !(a is Integer && b is Float),
        !(a is Float && b is Integer),
    ensures
        hash_part(a) == hash_part(b),
{
}

/// Equality of binary64 patterns holds both ways.
pub proof fn lemma_float_eq_symmetric(a: u64, b: u64)
    ensures
        float_eq(a, b) == float_eq(b, a),
{
}

/// Equality of values holds both ways: of an integer and a float, of `Null`
/// and `false`, and of lists, vectors and mappings.
pub proof fn lemma_value_eq_symmetric(a: Value, b: Value)
    ensures
        value_eq(a, b) == value_eq(b, a),
    decreases a, 0nat,
{
    match (a, b) {
        (Value::List(x), Value::List(y)) => {
            lemma_seq_eq_symmetric(x, y);
        },
        (Value::Vector(x), Value::Vector(y)) => {
            lemma_seq_eq_symmetric(x, y);
        },
        (Value::Mapping(x), Value::Mapping(y)) => {
            lemma_mapping_eq_symmetric(x, y);
        },
        _ => {},
    }
}

proof fn lemma_seq_eq_symmetric(x: Seq<Value>, y: Seq<Value>)
    ensures
        seq_eq(x, y) == seq_eq(y, x),
    decreases x, 1nat,
{
    if x.len() == y.len() {
        assert forall|i: int| 0 <= i < x.len() implies value_eq(x[i], y[i]) == value_eq(
            y[i],
            x[i],
        ) by {
            lemma_value_eq_symmetric(x[i], y[i]);
        }
        if seq_eq(x, y) {
            assert forall|i: int| 0 <= i < y.len() implies value_eq(#[trigger] y[i], x[i]) by {
                assert(value_eq(x[i], y[i]));
            }
        }
        if seq_eq(y, x) {
            assert forall|i: int| 0 <= i < x.len() implies value_eq(#[trigger] x[i], y[i]) by {
                assert(value_eq(y[i], x[i]));
            }
        }
    }
}

/// Whether a key compares alike from either side with each key of a mapping.
spec fn mirrored(pairs: Seq<(Value, Value)>, key: Value) -> bool {
    forall|k: int|
        0 <= k < pairs.len() ==> value_eq((#[trigger] pairs[k]).0, key) == value_eq(
            key,
            pairs[k].0,
        )
}

/// For such a key the search from either side finds the same place.
proof fn lemma_find_mirror(pairs: Seq<(Value, Value)>, key: Value, from: int)
    requires
        0 <= from,
        mirrored(pairs, key),
    ensures
        find_holder(pairs, key, from) == find_key(pairs, key, from),
    decreases pairs.len() - from,
{
    if from < pairs.len() {
        assert(value_eq(pairs[from].0, key) == value_eq(key, pairs[from].0));
        if !value_eq(key, pairs[from].0) {
            lemma_find_mirror(pairs, key, from + 1);
        }
    }
}

proof fn lemma_mapping_eq_symmetric(x: Seq<(Value, Value)>, y: Seq<(Value, Value)>)
    ensures
        mapping_eq(x, y) == mapping_eq(y, x),
    decreases x, 1nat,
{
    if x.len() == y.len() {
        assert forall|i: int, j: int| 0 <= i < x.len() && 0 <= j < y.len() implies value_eq(
            (#[trigger] x[i]).0,
            (#[trigger] y[j]).0,
        ) == value_eq(y[j].0, x[i].0) && value_eq(x[i].1, y[j].1) == value_eq(y[j].1, x[i].1) by {
            lemma_value_eq_symmetric(x[i].0, y[j].0);
            lemma_value_eq_symmetric(x[i].1, y[j].1);
        }
        assert forall|i: int| 0 <= i < x.len() implies find_holder(y, (#[trigger] x[i]).0, 0)
            == find_key(y, x[i].0, 0) && (find_key(y, x[i].0, 0) matches Some(j) ==> 0 <= j
            < y.len()) by {
            assert forall|k: int| 0 <= k < y.len() implies value_eq(
                (#[trigger] y[k]).0,
                x[i].0,
            ) == value_eq(x[i].0, y[k].0) by {}
            lemma_find_mirror(y, x[i].0, 0);
            lemma_find_key(y, x[i].0, 0);
        }
        assert forall|j: int| 0 <= j < y.len() implies find_holder(x, (#[trigger] y[j]).0, 0)
            == find_key(x, y[j].0, 0) && (find_key(x, y[j].0, 0) matches Some(i) ==> 0 <= i
            < x.len()) by {
            assert forall|k: int| 0 <= k < x.len() implies value_eq(
                (#[trigger] x[k]).0,
                y[j].0,
            ) == value_eq(y[j].0, x[k].0) by {}
            lemma_find_mirror(x, y[j].0, 0);
            lemma_find_key(x, y[j].0, 0);
        }
        if mapping_eq(x, y) {
            assert forall|j: int| 0 <= j < y.len() implies match find_key(
                x,
                (#[trigger] y[j]).0,
                0,
            ) {
                Some(i) => value_eq(y[j].1, x[i].1),
                None => false,
            } by {
                assert(find_holder(x, y[j].0, 0) == find_key(x, y[j].0, 0));
            }
            assert forall|i: int| 0 <= i < x.len() implies match find_holder(
                y,
                (#[trigger] x[i]).0,
                0,
            ) {
                Some(j) => 0 <= j < y.len() && value_eq(y[j].1, x[i].1),
                None => false,
            } by {
                assert(find_holder(y, x[i].0, 0) == find_key(y, x[i].0, 0));
            }
        }
        if mapping_eq(y, x) {
            assert forall|i: int| 0 <= i < x.len() implies match find_key(
                y,
                (#[trigger] x[i]).0,
                0,
            ) {
                Some(j) => value_eq(x[i].1, y[j].1),
                None => false,
            } by {
                assert(find_holder(y, x[i].0, 0) == find_key(y, x[i].0, 0));
            }
            assert forall|j: int| 0 <= j < y.len() implies match find_holder(
                x,
                (#[trigger] y[j]).0,
                0,
            ) {
                Some(i) => 0 <= i < x.len() && value_eq(x[i].1, y[j].1),
                None => false,
            } by {
                assert(find_holder(x, y[j].0, 0) == find_key(x, y[j].0, 0));
            }
        }
    }
}

} // verus!
