use crate::chars::to_string;
use crate::object::{view_all, view_pairs, Object, Value};
use vstd::prelude::*;
use vstd::string::StringExecFns;

verus! {

/// The character of a decimal digit.
pub open spec fn digit_char(d: int) -> char {
    if d == 0 {
        '0'
    } else if d == 1 {
        '1'
    } else if d == 2 {
        '2'
    } else if d == 3 {
        '3'
    } else if d == 4 {
        '4'
    } else if d == 5 {
        '5'
    } else if d == 6 {
        '6'
    } else if d == 7 {
        '7'
    } else if d == 8 {
        '8'
    } else {
        '9'
    }
}

/// The decimal digits of a number, without leading zeros.
pub open spec fn digits(m: nat) -> Seq<char>
    decreases m,
{
    if m < 10 {
        seq![digit_char(m as int)]
    } else {
        digits(m / 10).push(digit_char((m % 10) as int))
    }
}

/// The decimal text of a 64-bit integer.
pub open spec fn integer_text(n: i64) -> Seq<char> {
    if n < 0 {
        seq!['-'] + digits((-n) as nat)
    } else {
        digits(n as nat)
    }
}

/// How a character stands inside a string literal: a backslash and a letter
/// for the quote, the backslash, the line feed, the carriage return and the
/// tab; any other character as it is.
pub open spec fn escape(c: char) -> Seq<char> {
    if c == '"' {
        seq!['\\', '"']
    } else if c == '\\' {
        seq!['\\', '\\']
    } else if c == '\n' {
        seq!['\\', 'n']
    } else if c == '\r' {
        seq!['\\', 'r']
    } else if c == '\t' {
        seq!['\\', 't']
    } else {
        seq![c]
    }
}

/// The escapes of the first `n` characters of a text.
pub open spec fn escaped(s: Seq<char>, n: nat) -> Seq<char>
    decreases n,
{
    if n == 0 {
        Seq::empty()
    } else {
        escaped(s, (n - 1) as nat) + escape(s[n - 1])
    }
}

/// A text as a string literal, between quotes.
pub open spec fn quoted(s: Seq<char>) -> Seq<char> {
    seq!['"'] + escaped(s, s.len()) + seq!['"']
}

/// The first `n` values shown, with the separator between them.
pub open spec fn joined(items: Seq<Value>, sep: Seq<char>, n: nat) -> Seq<char>
    decreases items, n,
{
    if n == 0 || n > items.len() {
        Seq::empty()
    } else if n == 1 {
        display(items[0])
    } else {
        joined(items, sep, (n - 1) as nat) + sep + display(items[n - 1])
    }
}

/// The first `n` pairs shown as `key: value`, with a comma and a space
/// between them.
pub open spec fn joined_pairs(pairs: Seq<(Value, Value)>, n: nat) -> Seq<char>
    decreases pairs, n,
{
    if n == 0 || n > pairs.len() {
        Seq::empty()
    } else if n == 1 {
        display(pairs[0].0) + ": "@ + display(pairs[0].1)
    } else {
        joined_pairs(pairs, (n - 1) as nat) + ", "@ + display(pairs[n - 1].0) + ": "@ + display(
            pairs[n - 1].1,
        )
    }
}

/// The text that shows a value.
pub open spec fn display(v: Value) -> Seq<char>
    decreases v, 0nat,
{
    match v {
        Value::Null => "null"@,
        Value::Bool(b) => if b {
            "true"@
        } else {
            "false"@
        },
        Value::Integer(n) => integer_text(n),
        Value::Float(f) => f.text,
        Value::String(s) => quoted(s),
        Value::Symbol(s) => s,
        Value::List(items) => seq!['('] + joined(items, " "@, items.len()) + seq![')'],
        Value::Vector(items) => seq!['['] + joined(items, ", "@, items.len()) + seq![']'],
        Value::Mapping(pairs) => seq!['{'] + joined_pairs(pairs, pairs.len()) + seq!['}'],
        Value::Other(_) => "<Any { .. }>"@,
    }
}

fn digit(d: u64) -> (c: char)
    requires
        d < 10,
    ensures
        c == digit_char(d as int),
{
    if d == 0 {
        '0'
    } else if d == 1 {
        '1'
    } else if d == 2 {
        '2'
    } else if d == 3 {
        '3'
    } else if d == 4 {
        '4'
    } else if d == 5 {
        '5'
    } else if d == 6 {
        '6'
    } else if d == 7 {
        '7'
    } else if d == 8 {
        '8'
    } else {
        '9'
    }
}

/// Appends the decimal digits of a number.
pub fn push_digits(out: &mut Vec<char>, m: u64)
    ensures
        final(out)@ == old(out)@ + digits(m as nat),
    decreases m,
{
    if m < 10 {
        out.push(digit(m));
        assert(out@ =~= old(out)@ + digits(m as nat));
    } else {
        push_digits(out, m / 10);
        out.push(digit(m % 10));
        assert(out@ =~= old(out)@ + digits(m as nat));
    }
}

/// The decimal text of a 64-bit integer.
pub fn integer_to_string(n: i64) -> (s: String)
    ensures
        s@ == integer_text(n),
{
    let mut out: Vec<char> = Vec::new();
    if n < 0 {
        out.push('-');
        let m: u64 = (-(n + 1)) as u64 + 1;
        push_digits(&mut out, m);
    } else {
        push_digits(&mut out, n as u64);
    }
    assert(out@ =~= integer_text(n));
    to_string(&out)
}

/// A text as a string literal, between quotes.
pub fn quote(s: &String) -> (r: String)
    ensures
        r@ == quoted(s@),
{
    let text = s.as_str();
    let n = text.unicode_len();
    let mut out: Vec<char> = Vec::new();
    out.push('"');
    let mut i: usize = 0;
    while i < n
        invariant
            i <= n,
            n == s@.len(),
            text@ == s@,
            out@ == seq!['"'] + escaped(s@, i as nat),
        decreases n - i,
    {
        let c = text.get_char(i);
        let ghost before = out@;
        if c == '"' {
            out.push('\\');
            out.push('"');
        } else if c == '\\' {
            out.push('\\');
            out.push('\\');
        } else if c == '\n' {
            out.push('\\');
            out.push('n');
        } else if c == '\r' {
            out.push('\\');
            out.push('r');
        } else if c == '\t' {
            out.push('\\');
            out.push('t');
        } else {
            out.push(c);
        }
        assert(out@ =~= before + escape(c));
        i += 1;
        assert(out@ =~= seq!['"'] + escaped(s@, i as nat));
    }
    out.push('"');
    to_string(&out)
}

/// The values of a row shown, with the separator between them.
pub fn join(items: &Vec<Object>, sep: &str) -> (r: String)
    ensures
        r@ == joined(view_all(items@), sep@, items.len() as nat),
    decreases items, 1nat,
{
    let ghost all = view_all(items@);
    let mut out = String::new();
    let mut i: usize = 0;
    while i < items.len()
        invariant
            i <= items.len(),
            all == view_all(items@),
            out@ == joined(all, sep@, i as nat),
        decreases items.len() - i,
    {
        assert(all[i as int] == items@[i as int]@);
        let ghost before = out@;
        if i > 0 {
            out.append(sep);
        }
        let shown = items[i].to_string();
        out.append(shown.as_str());
        i += 1;
        assert(out@ =~= joined(all, sep@, i as nat)) by {
            if i == 1 {
                assert(before =~= Seq::<char>::empty());
            }
        }
    }
    out
}

/// The pairs of a mapping shown as `key: value`, with a comma and a space
/// between them.
pub fn join_pairs(pairs: &Vec<(Object, Object)>) -> (r: String)
    ensures
        r@ == joined_pairs(view_pairs(pairs@), pairs.len() as nat),
    decreases pairs, 1nat,
{
    let ghost all = view_pairs(pairs@);
    let mut out = String::new();
    let mut i: usize = 0;
    while i < pairs.len()
        invariant
            i <= pairs.len(),
            all == view_pairs(pairs@),
            out@ == joined_pairs(all, i as nat),
        decreases pairs.len() - i,
    {
        assert(all[i as int].0 == pairs@[i as int].0@ && all[i as int].1 == pairs@[i as int].1@);
        let ghost before = out@;
        if i > 0 {
            out.append(", ");
        }
        let key = pairs[i].0.to_string();
        out.append(key.as_str());
        out.append(": ");
        let value = pairs[i].1.to_string();
        out.append(value.as_str());
        i += 1;
        assert(out@ =~= joined_pairs(all, i as nat)) by {
            if i == 1 {
                assert(before =~= Seq::<char>::empty());
            }
        }
    }
    out
}

impl Object {
    /// The text that shows this value: see `display`.
    pub fn to_string(&self) -> (r: String)
        ensures
            r@ == display(self@),
        decreases self, 0nat,
    {
        match self {
            Object::Null => "null".to_owned(),
            Object::Bool(b) => if *b {
                "true".to_owned()
            } else {
                "false".to_owned()
            },
            Object::Integer(n) => integer_to_string(*n),
            Object::Float(f) => f.text.clone(),
            Object::String(s) => quote(s),
            Object::Symbol(s) => s.clone(),
            Object::List(items) => {
                let mut out = String::new();
                out.push('(');
                out.append(join(items, " ").as_str());
                out.push(')');
                assert(out@ =~= display(self@));
                out
            },
            Object::Vector(items) => {
                let mut out = String::new();
                out.push('[');
                out.append(join(items, ", ").as_str());
                out.push(']');
                assert(out@ =~= display(self@));
                out
            },
            Object::Mapping(pairs) => {
                let mut out = String::new();
                out.push('{');
                out.append(join_pairs(pairs).as_str());
                out.push('}');
                assert(out@ =~= display(self@));
                out
            },
            Object::Other(_) => "<Any { .. }>".to_owned(),
        }
    }
}

} // verus!
