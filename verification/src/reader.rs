use crate::object::{view_all, well_formed, Float, FloatValue, Object, ParseObjectError, Value};
use crate::parser::{first_form, lemma_form_at_well_formed, parse_expr};
use crate::tokenizer::{atomize_expr, is_plain, lemma_scan_plain, tokens, view_tokens, Token,
    TokenValue};
use vstd::prelude::*;

verus! {

/// What a float reader made of a decimal lexeme, in contracts.
pub open spec fn view_reading(reading: Option<Float>) -> Option<FloatValue> {
    match reading {
        Some(f) => Some(f@),
        None => None,
    }
}

pub open spec fn view_readings(readings: Seq<Option<Float>>) -> Seq<Option<FloatValue>> {
    Seq::new(readings.len(), |i: int| view_reading(readings[i]))
}

/// The reading given for the token at a place: none where none was given.
pub open spec fn reading_at(readings: Seq<Option<FloatValue>>, i: int) -> Option<FloatValue> {
    if 0 <= i < readings.len() {
        readings[i]
    } else {
        None
    }
}

/// The atom that a token is. A decimal lexeme is the number that the float
/// reader made of it, and no atom where the reader made none.
pub open spec fn atom_of(token: TokenValue, reading: Option<FloatValue>) -> Option<Value> {
    match token {
        TokenValue::Atom(v) => Some(v),
        TokenValue::Decimal(_) => match reading {
            Some(f) => Some(Value::Float(f)),
            None => None,
        },
    }
}

/// The atoms of a row of tokens, `readings[i]` being the reading of the
/// token at place `i`; `None` where one of the tokens is no atom.
pub open spec fn atoms_of(ts: Seq<TokenValue>, readings: Seq<Option<FloatValue>>) -> Option<
    Seq<Value>,
> {
    if forall|i: int| 0 <= i < ts.len() ==> atom_of(#[trigger] ts[i], reading_at(readings, i))
        is Some {
        Some(Seq::new(ts.len(), |i: int| atom_of(ts[i], reading_at(readings, i))->0))
    } else {
        None
    }
}

/// The first form of a text, with the readings of its decimal lexemes.
pub open spec fn read(text: Seq<char>, readings: Seq<Option<FloatValue>>) -> Option<Value> {
    match tokens(text) {
        None => None,
        Some(ts) => match atoms_of(ts, readings) {
            None => None,
            Some(atoms) => first_form(atoms),
        },
    }
}

/// What a text reads as is well formed: each mapping in it has unique keys.
pub proof fn lemma_read_well_formed(text: Seq<char>, readings: Seq<Option<FloatValue>>)
    ensures
        read(text, readings) matches Some(v) ==> well_formed(v),
{
    lemma_scan_plain(text, 0, Seq::empty());
    match tokens(text) {
        Some(ts) => match atoms_of(ts, readings) {
            Some(atoms) => {
                assert forall|i: int| 0 <= i < atoms.len() implies well_formed(
                    #[trigger] atoms[i],
                ) by {
                    assert(is_plain(ts[i]));
                }
                lemma_form_at_well_formed(atoms, 0);
            },
            None => {},
        },
        None => {},
    }
}

/// Turns a token into an atom. `reading` is what the float reader made of a
/// decimal lexeme; it is not looked at for another token.
pub fn resolve(token: &Token, reading: Option<Float>) -> (r: Result<Object, ParseObjectError>)
    ensures
        match atom_of(token@, view_reading(reading)) {
            Some(v) => r is Ok && r->Ok_0@ == v,
            None => r is Err,
        },
{
    match token {
        Token::Atom(o) => Ok(o.clone()),
        Token::Decimal(_) => match reading {
            Some(f) => Ok(Object::Float(f)),
            None => Err(ParseObjectError {  }),
        },
    }
}

/// Turns a row of tokens into atoms, `readings[i]` being the reading of the
/// token at place `i`. It fails where a decimal lexeme has no reading.
pub fn resolve_all(ts: &Vec<Token>, readings: &Vec<Option<Float>>) -> (r: Result<
    Vec<Object>,
    ParseObjectError,
>)
    ensures
        match atoms_of(view_tokens(ts@), view_readings(readings@)) {
            Some(atoms) => r is Ok && view_all(r->Ok_0@) == atoms,
            None => r is Err,
        },
{
    let ghost tv = view_tokens(ts@);
    let ghost rv = view_readings(readings@);
    let mut atoms: Vec<Object> = Vec::new();
    let mut i: usize = 0;
    while i < ts.len()
        invariant
            i <= ts.len(),
            atoms.len() == i,
            tv == view_tokens(ts@),
            rv == view_readings(readings@),
            forall|j: int|
                0 <= j < i ==> atom_of(#[trigger] tv[j], reading_at(rv, j)) == Some(atoms@[j]@),
        decreases ts.len() - i,
    {
        let reading = if i < readings.len() {
            match &readings[i] {
                Some(f) => Some(f.clone()),
                None => None,
            }
        } else {
            None
        };
        assert(view_reading(reading) == reading_at(rv, i as int));
        assert(tv[i as int] == ts@[i as int]@);
        match resolve(&ts[i], reading) {
            Ok(atom) => {
                atoms.push(atom);
            },
            Err(e) => {
                return Err(e);
            },
        }
        i += 1;
    }
    assert(view_all(atoms@) =~= atoms_of(tv, rv)->0);
    Ok(atoms)
}

impl Object {
    /// Reads the first form of a text. `readings[i]` is what the float reader
    /// made of token `i` of the text, for each token that is a decimal
    /// lexeme; a text without one needs no readings.
    pub fn from_str(s: &str, readings: &Vec<Option<Float>>) -> (r: Result<Object, ParseObjectError>)
        ensures
            match read(s@, view_readings(readings@)) {
                Some(v) => r is Ok && r->Ok_0@ == v,
                None => r is Err,
            },
            r is Ok ==> well_formed(r->Ok_0@),
    {
        proof {
            lemma_read_well_formed(s@, view_readings(readings@));
        }
        match atomize_expr(s) {
            Ok(ts) => match resolve_all(&ts, readings) {
                Ok(atoms) => parse_expr(&atoms),
                Err(e) => Err(e),
            },
            Err(e) => Err(e),
        }
    }
}

} // verus!
