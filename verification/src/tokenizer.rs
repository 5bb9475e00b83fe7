use crate::chars::{ascii_punctuation, char_is_numeric, char_is_whitespace, is_ascii_punctuation,
    is_numeric, is_whitespace, to_chars, to_string};
use crate::object::{Object, ParseObjectError, Value};
use vstd::prelude::*;

verus! {

/// One lexical unit. A lexeme that starts with a numeric character and is no
/// 64-bit integer is kept as text: whether it is a number is for a float
/// reader to say, and the library holds none.
#[derive(Debug)]
pub enum Token {
    Atom(Object),
    Decimal(String),
}

/// What a `Token` is in contracts.
pub ghost enum TokenValue {
    Atom(Value),
    Decimal(Seq<char>),
}

impl View for Token {
    type V = TokenValue;

    open spec fn view(&self) -> TokenValue {
        match self {
            Token::Atom(o) => TokenValue::Atom(o@),
            Token::Decimal(s) => TokenValue::Decimal(s@),
        }
    }
}

pub open spec fn view_tokens(v: Seq<Token>) -> Seq<TokenValue> {
    Seq::new(v.len(), |i: int| v[i]@)
}

/// The character that an escape letter stands for.
pub open spec fn unescape(c: char) -> Option<char> {
    if c == '"' {
        Some('"')
    } else if c == '\\' {
        Some('\\')
    } else if c == 'n' {
        Some('\n')
    } else if c == 'r' {
        Some('\r')
    } else if c == 't' {
        Some('\t')
    } else {
        None
    }
}

/// The content of the string literal whose opening quote stands just before
/// `pos`, and the position after its closing quote; `None` where an escape is
/// unknown or the text ends first.
pub open spec fn string_body(text: Seq<char>, pos: int) -> Option<(Seq<char>, int)>
    decreases text.len() - pos,
{
    if pos < 0 || pos >= text.len() {
        None
    } else if text[pos] == '\\' {
        if pos + 1 >= text.len() {
            None
        } else {
            match unescape(text[pos + 1]) {
                None => None,
                Some(e) => match string_body(text, pos + 2) {
                    None => None,
                    Some((s, end)) => Some((seq![e] + s, end)),
                },
            }
        }
    } else if text[pos] == '"' {
        Some((Seq::empty(), pos + 1))
    } else {
        match string_body(text, pos + 1) {
            None => None,
            Some((s, end)) => Some((seq![text[pos]] + s, end)),
        }
    }
}

/// A string literal ends after where it starts, and within the text.
pub proof fn lemma_string_body_end(text: Seq<char>, pos: int)
    ensures
        string_body(text, pos) matches Some((_, end)) ==> pos < end <= text.len(),
    decreases text.len() - pos,
{
    if 0 <= pos < text.len() {
        if text[pos] == '\\' {
            if pos + 1 < text.len() {
                lemma_string_body_end(text, pos + 2);
            }
        } else if text[pos] != '"' {
            lemma_string_body_end(text, pos + 1);
        }
    }
}

/// The number that a row of decimal digits writes.
pub open spec fn digits_value(s: Seq<char>) -> nat
    decreases s.len(),
{
    if s.len() == 0 {
        0
    } else {
        (digits_value(s.drop_last()) * 10 + (s.last() as nat - '0' as nat)) as nat
    }
}

pub open spec fn all_digits(s: Seq<char>) -> bool {
    forall|i: int| 0 <= i < s.len() ==> '0' <= #[trigger] s[i] <= '9'
}

/// The 64-bit integer that a lexeme writes: one or more decimal digits whose
/// number is at most `i64::MAX`.
pub open spec fn decimal_i64(s: Seq<char>) -> Option<i64> {
    if s.len() > 0 && all_digits(s) && digits_value(s) <= i64::MAX {
        Some(digits_value(s) as i64)
    } else {
        None
    }
}

/// The token that a non-empty lexeme is.
pub open spec fn classify(buf: Seq<char>) -> TokenValue {
    if char_is_numeric(buf[0]) {
        match decimal_i64(buf) {
            Some(n) => TokenValue::Atom(Value::Integer(n)),
            None => TokenValue::Decimal(buf),
        }
    } else if buf == "null"@ {
        TokenValue::Atom(Value::Null)
    } else if buf == "true"@ {
        TokenValue::Atom(Value::Bool(true))
    } else if buf == "false"@ {
        TokenValue::Atom(Value::Bool(false))
    } else {
        TokenValue::Atom(Value::Symbol(buf))
    }
}

/// The tokens that the pending lexeme gives: none where it is empty.
pub open spec fn flush(buf: Seq<char>) -> Seq<TokenValue> {
    if buf.len() == 0 {
        Seq::empty()
    } else {
        seq![classify(buf)]
    }
}

pub open spec fn prepend(head: Seq<TokenValue>, tail: Option<Seq<TokenValue>>) -> Option<
    Seq<TokenValue>,
> {
    match tail {
        Some(t) => Some(head + t),
        None => None,
    }
}

/// The tokens of the text from `pos` on, with `buf` the lexeme read so far.
pub open spec fn scan(text: Seq<char>, pos: int, buf: Seq<char>) -> Option<Seq<TokenValue>>
    decreases text.len() - pos,
{
    if pos < 0 || pos >= text.len() {
        Some(flush(buf))
    } else {
        let c = text[pos];
        if c == '"' {
            match string_body(text, pos + 1) {
                None => None,
                Some((s, end)) => {
                    proof {
                        lemma_string_body_end(text, pos + 1);
                    }
                    prepend(
                        flush(buf).push(TokenValue::Atom(Value::String(s))),
                        scan(text, end, Seq::empty()),
                    )
                },
            }
        } else if char_is_whitespace(c) {
            prepend(flush(buf), scan(text, pos + 1, Seq::empty()))
        } else if c == '.' && buf.len() > 0 && char_is_numeric(buf[0]) {
            scan(text, pos + 1, buf.push(c))
        } else if is_ascii_punctuation(c) && c != '_' {
            prepend(
                flush(buf).push(TokenValue::Atom(Value::Symbol(seq![c]))),
                scan(text, pos + 1, Seq::empty()),
            )
        } else {
            scan(text, pos + 1, buf.push(c))
        }
    }
}

/// The tokens of a text; `None` where a string literal in it is malformed.
pub open spec fn tokens(text: Seq<char>) -> Option<Seq<TokenValue>> {
    scan(text, 0, Seq::empty())
}

/// Whether a token holds no nested value: an atom is `Null`, a boolean, an
/// integer, a string or a symbol.
pub open spec fn is_plain(t: TokenValue) -> bool {
    match t {
        TokenValue::Atom(v) => v is Null || v is Bool || v is Integer || v is String || v is Symbol,
        TokenValue::Decimal(_) => true,
    }
}

/// Every token of a text is plain.
pub proof fn lemma_scan_plain(text: Seq<char>, pos: int, buf: Seq<char>)
    ensures
        scan(text, pos, buf) matches Some(ts) ==> forall|i: int|
            0 <= i < ts.len() ==> is_plain(#[trigger] ts[i]),
    decreases text.len() - pos,
{
    if 0 <= pos < text.len() {
        let c = text[pos];
        if c == '"' {
            match string_body(text, pos + 1) {
                Some((s, end)) => {
                    lemma_string_body_end(text, pos + 1);
                    lemma_scan_plain(text, end, Seq::empty());
                },
                None => {},
            }
        } else if char_is_whitespace(c) {
            lemma_scan_plain(text, pos + 1, Seq::empty());
        } else if c == '.' && buf.len() > 0 && char_is_numeric(buf[0]) {
            lemma_scan_plain(text, pos + 1, buf.push(c));
        } else if is_ascii_punctuation(c) && c != '_' {
            lemma_scan_plain(text, pos + 1, Seq::empty());
        } else {
            lemma_scan_plain(text, pos + 1, buf.push(c));
        }
    }
}

/// Reads the escape letter at `pos`, which follows a backslash.
pub fn atomize_expr_escape_char(chars: &Vec<char>, pos: &mut usize) -> (r: Result<
    char,
    ParseObjectError,
>)
    ensures
        *old(pos) >= chars.len() ==> r is Err && *final(pos) == *old(pos),
        *old(pos) < chars.len() ==> *final(pos) == *old(pos) + 1 && match unescape(
            chars@[*old(pos) as int],
        ) {
            Some(e) => r == Ok::<char, ParseObjectError>(e),
            None => r is Err,
        },
{
    if *pos < chars.len() {
        let c = chars[*pos];
        *pos = *pos + 1;
        if c == '"' {
            Ok('"')
        } else if c == '\\' {
            Ok('\\')
        } else if c == 'n' {
            Ok('\n')
        } else if c == 'r' {
            Ok('\r')
        } else if c == 't' {
            Ok('\t')
        } else {
            Err(ParseObjectError {  })
        }
    } else {
        Err(ParseObjectError {  })
    }
}

spec fn with_prefix(acc: Seq<char>, r: Option<(Seq<char>, int)>) -> Option<(Seq<char>, int)> {
    match r {
        Some((s, end)) => Some((acc + s, end)),
        None => None,
    }
}

/// Reads a string literal whose opening quote stands just before `pos`.
pub fn atomize_expr_chars_to_str(chars: &Vec<char>, pos: &mut usize) -> (r: Result<
    Object,
    ParseObjectError,
>)
    ensures
        match string_body(chars@, *old(pos) as int) {
            Some((s, end)) => r is Ok && r->Ok_0@ == Value::String(s) && *final(pos) == end,
            None => r is Err,
        },
{
    let ghost start = *pos as int;
    let mut acc: Vec<char> = Vec::new();
    assert(with_prefix(acc@, string_body(chars@, start)) == string_body(chars@, start)) by {
        match string_body(chars@, start) {
            Some((s, end)) => {
                assert(acc@ + s =~= s);
            },
            None => {},
        }
    }
    while *pos < chars.len()
        invariant
            start == *old(pos) as int,
            string_body(chars@, start) == with_prefix(acc@, string_body(chars@, *pos as int)),
        decreases chars.len() - *pos,
    {
        let ghost before = *pos as int;
        let ghost old_acc = acc@;
        let c = chars[*pos];
        *pos = *pos + 1;
        if c == '\\' {
            match atomize_expr_escape_char(chars, pos) {
                Ok(e) => {
                    acc.push(e);
                    proof {
                        match string_body(chars@, before + 2) {
                            Some((s, end)) => {
                                assert(old_acc + (seq![e] + s) =~= old_acc.push(e) + s);
                            },
                            None => {},
                        }
                    }
                },
                Err(e) => {
                    return Err(e);
                },
            }
        } else if c == '"' {
            let s = to_string(&acc);
            assert(old_acc + Seq::<char>::empty() =~= old_acc);
            return Ok(Object::String(s));
        } else {
            acc.push(c);
            proof {
                match string_body(chars@, before + 1) {
                    Some((s, end)) => {
                        assert(old_acc + (seq![c] + s) =~= old_acc.push(c) + s);
                    },
                    None => {},
                }
            }
        }
    }
    Err(ParseObjectError {  })
}

/// A longer row of digits writes no smaller number.
pub proof fn lemma_digits_value_prefix(s: Seq<char>, k: int)
    requires
        0 <= k <= s.len(),
        all_digits(s),
    ensures
        digits_value(s.take(k)) <= digits_value(s),
    decreases s.len(),
{
    if k < s.len() {
        assert(s.drop_last().take(k) =~= s.take(k));
        lemma_digits_value_prefix(s.drop_last(), k);
    } else {
        assert(s.take(k) =~= s);
    }
}

/// Reads a lexeme as a 64-bit integer in decimal digits.
pub fn parse_decimal(buf: &Vec<char>) -> (r: Option<i64>)
    ensures
        r == decimal_i64(buf@),
{
    if buf.len() == 0 {
        return None;
    }
    let mut n: i64 = 0;
    let mut i: usize = 0;
    while i < buf.len()
        invariant
            i <= buf.len(),
            all_digits(buf@.take(i as int)),
            n == digits_value(buf@.take(i as int)),
            0 <= n,
        decreases buf.len() - i,
    {
        let c = buf[i];
        if !('0' <= c && c <= '9') {
            return None;
        }
        let d: i64 = (c as u32 - '0' as u32) as i64;
        proof {
            let t = buf@.take(i + 1);
            assert(t.drop_last() =~= buf@.take(i as int));
            assert(t.last() == c);
            assert(all_digits(t)) by {
                assert forall|j: int| 0 <= j < t.len() implies '0' <= #[trigger] t[j] <= '9' by {
                    if j < i {
                        assert(t[j] == buf@.take(i as int)[j]);
                    }
                }
            }
            assert(digits_value(t) == n * 10 + d);
            if all_digits(buf@) {
                lemma_digits_value_prefix(buf@, i + 1);
            }
        }
        match n.checked_mul(10) {
            None => {
                return None;
            },
            Some(m) => match m.checked_add(d) {
                None => {
                    return None;
                },
                Some(v) => {
                    n = v;
                },
            },
        }
        i += 1;
    }
    assert(buf@.take(buf.len() as int) =~= buf@);
    Some(n)
}

/// Whether a lexeme is the given word.
pub fn is_word(buf: &Vec<char>, word: &str) -> (b: bool)
    ensures
        b == (buf@ == word@),
{
    if word.unicode_len() != buf.len() {
        return false;
    }
    let mut i: usize = 0;
    while i < buf.len()
        invariant
            i <= buf.len(),
            buf.len() == word@.len(),
            forall|j: int| 0 <= j < i ==> buf@[j] == word@[j],
        decreases buf.len() - i,
    {
        if buf[i] != word.get_char(i) {
            return false;
        }
        i += 1;
    }
    assert(buf@ =~= word@);
    true
}

/// Classifies the pending lexeme, appends its token and empties the lexeme.
/// An empty lexeme gives no token.
pub fn atomize_expr_push(expr: &mut Vec<Token>, s: &mut Vec<char>)
    ensures
        view_tokens(final(expr)@) == view_tokens(old(expr)@) + flush(old(s)@),
        final(s)@ == Seq::<char>::empty(),
{
    if s.len() == 0 {
        assert(view_tokens(expr@) + flush(s@) =~= view_tokens(expr@));
        return ;
    }
    let token = if is_numeric(s[0]) {
        match parse_decimal(s) {
            Some(n) => Token::Atom(Object::Integer(n)),
            None => Token::Decimal(to_string(s)),
        }
    } else if is_word(s, "null") {
        Token::Atom(Object::Null)
    } else if is_word(s, "true") {
        Token::Atom(Object::Bool(true))
    } else if is_word(s, "false") {
        Token::Atom(Object::Bool(false))
    } else {
        Token::Atom(Object::Symbol(to_string(s)))
    };
    assert(token@ == classify(s@));
    expr.push(token);
    assert(view_tokens(expr@) =~= view_tokens(old(expr)@) + flush(old(s)@));
    s.clear();
}

/// Splits a text into tokens, in order. It fails where a string literal has
/// an unknown escape or no closing quote, and on nothing else.
pub fn atomize_expr(s: &str) -> (r: Result<Vec<Token>, ParseObjectError>)
    ensures
        match tokens(s@) {
            Some(ts) => r is Ok && view_tokens(r->Ok_0@) == ts,
            None => r is Err,
        },
{
    let chars = to_chars(s);
    let mut expr: Vec<Token> = Vec::new();
    let mut buf: Vec<char> = Vec::new();
    let mut pos: usize = 0;
    assert(prepend(view_tokens(expr@), scan(chars@, 0, buf@)) == tokens(s@)) by {
        match scan(chars@, 0, buf@) {
            Some(t) => {
                assert(view_tokens(expr@) + t =~= t);
            },
            None => {},
        }
    }
    while pos < chars.len()
        invariant
            chars@ == s@,
            pos <= chars.len(),
            tokens(s@) == prepend(view_tokens(expr@), scan(chars@, pos as int, buf@)),
        decreases chars.len() - pos,
    {
        let ghost before = pos as int;
        let ghost old_out = view_tokens(expr@);
        let ghost old_buf = buf@;
        let c = chars[pos];
        pos = pos + 1;
        if c == '"' {
            atomize_expr_push(&mut expr, &mut buf);
            let ghost mid = expr@;
            match atomize_expr_chars_to_str(&chars, &mut pos) {
                Ok(o) => {
                    expr.push(Token::Atom(o));
                    proof {
                        assert(view_tokens(expr@) =~= view_tokens(mid).push(
                            TokenValue::Atom(o@),
                        ));
                        lemma_string_body_end(chars@, before + 1);
                        let (body, end) = string_body(chars@, before + 1)->Some_0;
                        let head = flush(old_buf).push(TokenValue::Atom(Value::String(body)));
                        assert(view_tokens(expr@) =~= old_out + head);
                        match scan(chars@, end, Seq::empty()) {
                            Some(t) => {
                                assert(old_out + (head + t) =~= (old_out + head) + t);
                            },
                            None => {},
                        }
                    }
                },
                Err(e) => {
                    return Err(e);
                },
            }
        } else if is_whitespace(c) {
            atomize_expr_push(&mut expr, &mut buf);
            proof {
                match scan(chars@, before + 1, Seq::empty()) {
                    Some(t) => {
                        assert(old_out + (flush(old_buf) + t) =~= (old_out + flush(old_buf)) + t);
                    },
                    None => {},
                }
            }
        } else if c == '.' && buf.len() > 0 && is_numeric(buf[0]) {
            buf.push(c);
        } else if ascii_punctuation(c) && c != '_' {
            atomize_expr_push(&mut expr, &mut buf);
            let ghost mid = expr@;
            let mut symbol = String::new();
            symbol.push(c);
            assert(symbol@ =~= seq![c]);
            expr.push(Token::Atom(Object::Symbol(symbol)));
            proof {
                assert(view_tokens(expr@) =~= view_tokens(mid).push(
                    TokenValue::Atom(Value::Symbol(seq![c])),
                ));
                let head = flush(old_buf).push(TokenValue::Atom(Value::Symbol(seq![c])));
                assert(view_tokens(expr@) =~= old_out + head);
                match scan(chars@, before + 1, Seq::empty()) {
                    Some(t) => {
                        assert(old_out + (head + t) =~= (old_out + head) + t);
                    },
                    None => {},
                }
            }
        } else {
            buf.push(c);
        }
    }
    atomize_expr_push(&mut expr, &mut buf);
    Ok(expr)
}

} // verus!
