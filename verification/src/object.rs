use crate::float::{float_eq, float_equal, integer_bits, integer_to_float};
use vstd::prelude::*;

verus! {

/// The single failure of reading a text: it carries no position and no kind.
#[derive(Debug)]
pub struct ParseObjectError;

impl ParseObjectError {
    /// The name of the failure.
    pub fn to_string(&self) -> (r: String)
        ensures
            r@ == "ParseObjectError"@,
    {
        "ParseObjectError".to_owned()
    }
}

/// A binary64 number as the library holds it: the IEEE-754 bit pattern, by
/// which numbers are compared, and the decimal text, by which one is shown.
/// The host that reads and prints numbers fills both.
#[derive(Debug)]
pub struct Float {
    pub bits: u64,
    pub text: String,
}

/// What a `Float` is in contracts.
pub ghost struct FloatValue {
    pub bits: u64,
    pub text: Seq<char>,
}

impl View for Float {
    type V = FloatValue;

    open spec fn view(&self) -> FloatValue {
        FloatValue { bits: self.bits, text: self.text@ }
    }
}

impl Clone for Float {
    fn clone(&self) -> (r: Float)
        ensures
            r@ == self@,
    {
        Float { bits: self.bits, text: self.text.clone() }
    }
}

/// A capability handle: one of the primitives that the evaluator hosts.
#[derive(Clone, Copy, Debug, PartialEq, Eq, Structural)]
pub enum Primitive {
    Get,
    Quit,
}

/// A value of the language.
#[derive(Debug)]
pub enum Object {
    Null,
    Bool(bool),
    Integer(i64),
    Float(Float),
    String(String),
    Symbol(String),
    List(Vec<Object>),
    Vector(Vec<Object>),
    /// Key and value pairs; see `unique_keys`.
    Mapping(Vec<(Object, Object)>),
    Other(Primitive),
}

/// What an `Object` is in contracts: the same tree over sequences.
pub ghost enum Value {
    Null,
    Bool(bool),
    Integer(i64),
    Float(FloatValue),
    String(Seq<char>),
    Symbol(Seq<char>),
    List(Seq<Value>),
    Vector(Seq<Value>),
    Mapping(Seq<(Value, Value)>),
    Other(Primitive),
}

pub open spec fn view_all(v: Seq<Object>) -> Seq<Value>
    decreases v, 0nat,
{
    Seq::new(v.len(), |i: int| if 0 <= i < v.len() { view_one(v[i]) } else { Value::Null })
}

pub open spec fn view_pairs(v: Seq<(Object, Object)>) -> Seq<(Value, Value)>
    decreases v, 0nat,
{
    Seq::new(
        v.len(),
        |i: int|
            if 0 <= i < v.len() {
                (view_one(v[i].0), view_one(v[i].1))
            } else {
                (Value::Null, Value::Null)
            },
    )
}

pub open spec fn view_one(o: Object) -> Value
    decreases o, 1nat,
{
    match o {
        Object::Null => Value::Null,
        Object::Bool(b) => Value::Bool(b),
        Object::Integer(n) => Value::Integer(n),
        Object::Float(f) => Value::Float(f@),
        Object::String(s) => Value::String(s@),
        Object::Symbol(s) => Value::Symbol(s@),
        Object::List(v) => Value::List(view_all(v@)),
        Object::Vector(v) => Value::Vector(view_all(v@)),
        Object::Mapping(v) => Value::Mapping(view_pairs(v@)),
        Object::Other(p) => Value::Other(p),
    }
}

impl View for Object {
    type V = Value;

    open spec fn view(&self) -> Value {
        view_one(*self)
    }
}

/// A copy of each element, in order.
pub fn clone_all(v: &Vec<Object>) -> (r: Vec<Object>)
    ensures
        view_all(r@) == view_all(v@),
    decreases v, 0nat,
{
    let mut r: Vec<Object> = Vec::new();
    let mut i: usize = 0;
    while i < v.len()
        invariant
            i <= v.len(),
            r.len() == i,
            forall|j: int| 0 <= j < i ==> r@[j]@ == v@[j]@,
        decreases v.len() - i,
    {
        r.push(v[i].clone());
        i += 1;
    }
    assert(view_all(r@) =~= view_all(v@));
    r
}

/// A copy of each pair, in order.
pub fn clone_pairs(v: &Vec<(Object, Object)>) -> (r: Vec<(Object, Object)>)
    ensures
        view_pairs(r@) == view_pairs(v@),
    decreases v, 0nat,
{
    let mut r: Vec<(Object, Object)> = Vec::new();
    let mut i: usize = 0;
    while i < v.len()
        invariant
            i <= v.len(),
            r.len() == i,
            forall|j: int| 0 <= j < i ==> r@[j].0@ == v@[j].0@ && r@[j].1@ == v@[j].1@,
        decreases v.len() - i,
    {
        let key = v[i].0.clone();
        let value = v[i].1.clone();
        r.push((key, value));
        i += 1;
    }
    assert(view_pairs(r@) =~= view_pairs(v@));
    r
}

impl Clone for Object {
    fn clone(&self) -> (r: Object)
        ensures
            r@ == self@,
        decreases self, 1nat,
    {
        match self {
            Object::Null => Object::Null,
            Object::Bool(b) => Object::Bool(*b),
            Object::Integer(n) => Object::Integer(*n),
            Object::Float(f) => Object::Float(f.clone()),
            Object::String(s) => Object::String(s.clone()),
            Object::Symbol(s) => Object::Symbol(s.clone()),
            Object::List(v) => Object::List(clone_all(v)),
            Object::Vector(v) => Object::Vector(clone_all(v)),
            Object::Mapping(v) => Object::Mapping(clone_pairs(v)),
            Object::Other(p) => Object::Other(*p),
        }
    }
}

/// Equality of two values. Numbers are compared across `Integer` and
/// `Float`, the integer converted to binary64 first; `Null` equals `false`;
/// lists, vectors and mappings are compared part by part, each with its own
/// kind only; a capability handle equals nothing.
pub open spec fn value_eq(a: Value, b: Value) -> bool
    decreases a, 0nat,
{
    match (a, b) {
        (Value::Null, Value::Null) => true,
        (Value::Null, Value::Bool(y)) => !y,
        (Value::Bool(x), Value::Null) => !x,
        (Value::Bool(x), Value::Bool(y)) => x == y,
        (Value::Integer(x), Value::Integer(y)) => x == y,
        (Value::Integer(x), Value::Float(y)) => float_eq(integer_bits(x), y.bits),
        (Value::Float(x), Value::Integer(y)) => float_eq(x.bits, integer_bits(y)),
        (Value::Float(x), Value::Float(y)) => float_eq(x.bits, y.bits),
        (Value::String(x), Value::String(y)) => x == y,
        (Value::Symbol(x), Value::Symbol(y)) => x == y,
        (Value::List(x), Value::List(y)) => seq_eq(x, y),
        (Value::Vector(x), Value::Vector(y)) => seq_eq(x, y),
        (Value::Mapping(x), Value::Mapping(y)) => mapping_eq(x, y),
        _ => false,
    }
}

/// Two sequences are equal where they are as long and equal place by place.
pub open spec fn seq_eq(a: Seq<Value>, b: Seq<Value>) -> bool
    decreases a, 1nat,
{
    &&& a.len() == b.len()
    &&& forall|i: int| 0 <= i < a.len() ==> value_eq(#[trigger] a[i], b[i])
}

/// The place of the first pair at or after `from` whose key the given key
/// equals.
pub open spec fn find_key(pairs: Seq<(Value, Value)>, key: Value, from: int) -> Option<int>
    decreases key, (pairs.len() - from + 1) as nat,
{
    if from < 0 || from >= pairs.len() {
        None
    } else if value_eq(key, pairs[from].0) {
        Some(from)
    } else {
        find_key(pairs, key, from + 1)
    }
}

/// The place of the first pair at or after `from` whose key equals the
/// given key: as `find_key`, with the pair's key on the left of the
/// comparison.
pub open spec fn find_holder(pairs: Seq<(Value, Value)>, key: Value, from: int) -> Option<int>
    decreases pairs, (pairs.len() - from + 1) as nat,
{
    if from < 0 || from >= pairs.len() {
        None
    } else if value_eq(pairs[from].0, key) {
        Some(from)
    } else {
        find_holder(pairs, key, from + 1)
    }
}

/// Two mappings are equal where they are as long, each key of the first is
/// found in the second, bound to an equal value, and each key of the second
/// is found in the first, bound to an equal value.
pub open spec fn mapping_eq(a: Seq<(Value, Value)>, b: Seq<(Value, Value)>) -> bool
    decreases a, a.len() + 2,
{
    &&& a.len() == b.len()
    &&& forall|i: int|
        0 <= i < a.len() ==> match find_key(b, (#[trigger] a[i]).0, 0) {
            Some(j) => value_eq(a[i].1, b[j].1),
            None => false,
        }
    &&& forall|j: int|
        0 <= j < b.len() ==> match find_holder(a, (#[trigger] b[j]).0, 0) {
            Some(i) => 0 <= i < a.len() && value_eq(a[i].1, b[j].1),
            None => false,
        }
}

/// The first match of `find_key` lies in the sequence, and no pair between
/// `from` and it has a key that the given key equals.
pub proof fn lemma_find_key(pairs: Seq<(Value, Value)>, key: Value, from: int)
    requires
        0 <= from,
    ensures
        match find_key(pairs, key, from) {
            Some(j) => from <= j < pairs.len() && value_eq(key, pairs[j].0) && forall|k: int|
                from <= k < j ==> !value_eq(key, #[trigger] pairs[k].0),
            None => forall|k: int|
                from <= k < pairs.len() ==> !value_eq(key, #[trigger] pairs[k].0),
        },
    decreases pairs.len() - from,
{
    if from < pairs.len() && !value_eq(key, pairs[from].0) {
        lemma_find_key(pairs, key, from + 1);
    }
}

/// Whether two rows of values are equal place by place.
pub fn all_equal(a: &Vec<Object>, b: &Vec<Object>) -> (r: bool)
    ensures
        r == seq_eq(view_all(a@), view_all(b@)),
    decreases a, 1nat,
{
    if a.len() != b.len() {
        return false;
    }
    let mut i: usize = 0;
    while i < a.len()
        invariant
            i <= a.len(),
            a.len() == b.len(),
            forall|j: int| 0 <= j < i ==> value_eq(#[trigger] view_all(a@)[j], view_all(b@)[j]),
        decreases a.len() - i,
    {
        if !a[i].equals(&b[i]) {
            assert(!value_eq(view_all(a@)[i as int], view_all(b@)[i as int]));
            return false;
        }
        i += 1;
    }
    true
}

/// The place of the first pair whose key the given key equals.
pub fn position(pairs: &Vec<(Object, Object)>, key: &Object) -> (r: Option<usize>)
    ensures
        match r {
            Some(j) => j < pairs.len() && find_key(view_pairs(pairs@), key@, 0) == Some(j as int),
            None => find_key(view_pairs(pairs@), key@, 0) is None,
        },
    decreases key, 1nat,
{
    let mut i: usize = 0;
    while i < pairs.len()
        invariant
            i <= pairs.len(),
            find_key(view_pairs(pairs@), key@, 0) == find_key(view_pairs(pairs@), key@, i as int),
        decreases pairs.len() - i,
    {
        if key.equals(&pairs[i].0) {
            return Some(i);
        }
        i += 1;
    }
    None
}

/// The first match of `find_holder` lies in the sequence, and no pair
/// between `from` and it has a key that equals the given key.
pub proof fn lemma_find_holder(pairs: Seq<(Value, Value)>, key: Value, from: int)
    requires
        0 <= from,
    ensures
        match find_holder(pairs, key, from) {
            Some(j) => from <= j < pairs.len() && value_eq(pairs[j].0, key) && forall|k: int|
                from <= k < j ==> !value_eq(#[trigger] pairs[k].0, key),
            None => forall|k: int|
                from <= k < pairs.len() ==> !value_eq(#[trigger] pairs[k].0, key),
        },
    decreases pairs.len() - from,
{
    if from < pairs.len() && !value_eq(pairs[from].0, key) {
        lemma_find_holder(pairs, key, from + 1);
    }
}

/// The place of the first pair whose key equals the given key.
pub fn holder(pairs: &Vec<(Object, Object)>, key: &Object) -> (r: Option<usize>)
    ensures
        match r {
            Some(j) => j < pairs.len() && find_holder(view_pairs(pairs@), key@, 0) == Some(
                j as int,
            ),
            None => find_holder(view_pairs(pairs@), key@, 0) is None,
        },
    decreases pairs, 0nat,
{
    let mut i: usize = 0;
    while i < pairs.len()
        invariant
            i <= pairs.len(),
            find_holder(view_pairs(pairs@), key@, 0) == find_holder(
                view_pairs(pairs@),
                key@,
                i as int,
            ),
        decreases pairs.len() - i,
    {
        assert(view_pairs(pairs@)[i as int].0 == pairs@[i as int].0@);
        if pairs[i].0.equals(key) {
            return Some(i);
        }
        i += 1;
    }
    None
}

/// Whether two mappings are as long and each key of either is bound to an
/// equal value in the other.
pub fn mapping_equal(a: &Vec<(Object, Object)>, b: &Vec<(Object, Object)>) -> (r: bool)
    ensures
        r == mapping_eq(view_pairs(a@), view_pairs(b@)),
    decreases a, 1nat,
{
    if a.len() != b.len() {
        return false;
    }
    let ghost av = view_pairs(a@);
    let ghost bv = view_pairs(b@);
    let mut i: usize = 0;
    while i < a.len()
        invariant
            i <= a.len(),
            a.len() == b.len(),
            av == view_pairs(a@),
            bv == view_pairs(b@),
            forall|k: int|
                0 <= k < i ==> match find_key(bv, (#[trigger] av[k]).0, 0) {
                    Some(j) => value_eq(av[k].1, bv[j].1),
                    None => false,
                },
        decreases a.len() - i,
    {
        let ghost pair = av[i as int];
        assert(pair.0 == a@[i as int].0@ && pair.1 == a@[i as int].1@);
        match position(b, &a[i].0) {
            Some(j) => {
                assert(bv[j as int].1 == b@[j as int].1@);
                if !a[i].1.equals(&b[j].1) {
                    assert(find_key(bv, pair.0, 0) == Some(j as int));
                    return false;
                }
            },
            None => {
                assert(find_key(bv, pair.0, 0) is None);
                return false;
            },
        }
        i += 1;
    }
    let mut j: usize = 0;
    while j < b.len()
        invariant
            j <= b.len(),
            a.len() == b.len(),
            av == view_pairs(a@),
            bv == view_pairs(b@),
            forall|k: int|
                0 <= k < a.len() ==> match find_key(bv, (#[trigger] av[k]).0, 0) {
                    Some(j) => value_eq(av[k].1, bv[j].1),
                    None => false,
                },
            forall|k: int|
                0 <= k < j ==> match find_holder(av, (#[trigger] bv[k]).0, 0) {
                    Some(i) => 0 <= i < av.len() && value_eq(av[i].1, bv[k].1),
                    None => false,
                },
        decreases b.len() - j,
    {
        let ghost pair = bv[j as int];
        assert(pair.0 == b@[j as int].0@ && pair.1 == b@[j as int].1@);
        match holder(a, &b[j].0) {
            Some(i) => {
                assert(av[i as int].1 == a@[i as int].1@);
                if !a[i].1.equals(&b[j].1) {
                    assert(find_holder(av, pair.0, 0) == Some(i as int));
                    return false;
                }
            },
            None => {
                assert(find_holder(av, pair.0, 0) is None);
                return false;
            },
        }
        j += 1;
    }
    true
}

impl Object {
    /// Whether this value equals another: see `value_eq`.
    pub fn equals(&self, other: &Object) -> (r: bool)
        ensures
            r == value_eq(self@, other@),
        decreases self, 0nat,
    {
        match (self, other) {
            (Object::Null, Object::Null) => true,
            (Object::Null, Object::Bool(y)) => !*y,
            (Object::Bool(x), Object::Null) => !*x,
            (Object::Bool(x), Object::Bool(y)) => *x == *y,
            (Object::Integer(x), Object::Integer(y)) => *x == *y,
            (Object::Integer(x), Object::Float(y)) => float_equal(integer_to_float(*x), y.bits),
            (Object::Float(x), Object::Integer(y)) => float_equal(x.bits, integer_to_float(*y)),
            (Object::Float(x), Object::Float(y)) => float_equal(x.bits, y.bits),
            (Object::String(x), Object::String(y)) => *x == *y,
            (Object::Symbol(x), Object::Symbol(y)) => *x == *y,
            (Object::List(x), Object::List(y)) => all_equal(x, y),
            (Object::Vector(x), Object::Vector(y)) => all_equal(x, y),
            (Object::Mapping(x), Object::Mapping(y)) => mapping_equal(x, y),
            _ => false,
        }
    }
}

/// The symbol that one character writes.
pub open spec fn symbol(c: char) -> Value {
    Value::Symbol(seq![c])
}

/// A mapping with one more binding. Where the key equals a key that is
/// there, the first such pair keeps its key and takes the new value; else the
/// new pair comes last.
pub open spec fn with_binding(pairs: Seq<(Value, Value)>, key: Value, value: Value) -> Seq<
    (Value, Value),
> {
    match find_key(pairs, key, 0) {
        Some(j) => pairs.update(j, (pairs[j].0, value)),
        None => pairs.push((key, value)),
    }
}

/// The value that a mapping binds to the first key that the given key
/// equals.
pub open spec fn binding(pairs: Seq<(Value, Value)>, key: Value) -> Option<Value> {
    match find_key(pairs, key, 0) {
        Some(j) => Some(pairs[j].1),
        None => None,
    }
}

/// No key of the mapping equals one that stands before it.
pub open spec fn unique_keys(pairs: Seq<(Value, Value)>) -> bool {
    forall|i: int, j: int|
        0 <= i < j < pairs.len() ==> !value_eq((#[trigger] pairs[j]).0, (#[trigger] pairs[i]).0)
}

/// Binding a key keeps the keys of a mapping unique.
pub proof fn lemma_with_binding_unique(pairs: Seq<(Value, Value)>, key: Value, value: Value)
    requires
        unique_keys(pairs),
    ensures
        unique_keys(with_binding(pairs, key, value)),
{
    lemma_find_key(pairs, key, 0);
    let after = with_binding(pairs, key, value);
    assert forall|i: int, j: int| 0 <= i < j < after.len() implies !value_eq(
        (#[trigger] after[j]).0,
        (#[trigger] after[i]).0,
    ) by {
        match find_key(pairs, key, 0) {
            Some(k) => {
                assert(after[j].0 == pairs[j].0);
                assert(after[i].0 == pairs[i].0);
            },
            None => {
                if j < pairs.len() {
                    assert(after[j].0 == pairs[j].0);
                    assert(after[i].0 == pairs[i].0);
                } else {
                    assert(after[i].0 == pairs[i].0);
                }
            },
        }
    }
}

/// Binds a key in a mapping: see `with_binding`.
pub fn bind(pairs: &mut Vec<(Object, Object)>, key: Object, value: Object)
    ensures
        view_pairs(final(pairs)@) == with_binding(view_pairs(old(pairs)@), key@, value@),
{
    match position(pairs, &key) {
        Some(j) => {
            let (held, _) = pairs.remove(j);
            pairs.insert(j, (held, value));
            assert(view_pairs(pairs@) =~= with_binding(view_pairs(old(pairs)@), key@, value@));
        },
        None => {
            pairs.push((key, value));
            assert(view_pairs(pairs@) =~= with_binding(view_pairs(old(pairs)@), key@, value@));
        },
    }
}

/// Whether a value is the symbol that the one character writes.
pub fn is_symbol(o: &Object, c: char) -> (r: bool)
    ensures
        r == (o@ == symbol(c)),
{
    match o {
        Object::Symbol(s) => {
            let text = s.as_str();
            if text.unicode_len() == 1 && text.get_char(0) == c {
                assert(s@ =~= seq![c]);
                true
            } else {
                false
            }
        },
        _ => false,
    }
}

impl PartialEq for Object {
    fn eq(&self, other: &Object) -> (r: bool) {
        self.equals(other)
    }
}

impl vstd::std_specs::cmp::PartialEqSpecImpl for Object {
    open spec fn obeys_eq_spec() -> bool {
        true
    }

    open spec fn eq_spec(&self, other: &Object) -> bool {
        value_eq(self@, other@)
    }
}

/// What of a value goes into its hash.
#[derive(Debug, PartialEq, Eq, Hash)]
pub enum HashPart {
    /// The number of an integer.
    Integer(i64),
    /// The text of a string or of a symbol.
    Text(String),
    /// Nothing: every other value hashes alike.
    Nothing,
}

/// What a `HashPart` is in contracts.
pub ghost enum HashPartValue {
    Integer(i64),
    Text(Seq<char>),
    Nothing,
}

impl View for HashPart {
    type V = HashPartValue;

    open spec fn view(&self) -> HashPartValue {
        match self {
            HashPart::Integer(n) => HashPartValue::Integer(*n),
            HashPart::Text(s) => HashPartValue::Text(s@),
            HashPart::Nothing => HashPartValue::Nothing,
        }
    }
}

/// What of a value goes into its hash: the number of an integer, the text of
/// a string or a symbol, and nothing of any other value, so that any value
/// can be a key.
pub open spec fn hash_part(v: Value) -> HashPartValue {
    match v {
        Value::Integer(n) => HashPartValue::Integer(n),
        Value::String(s) => HashPartValue::Text(s),
        Value::Symbol(s) => HashPartValue::Text(s),
        _ => HashPartValue::Nothing,
    }
}

impl Object {
    /// What of this value goes into its hash: see `hash_part`.
    pub fn hash(&self) -> (r: HashPart)
        ensures
            r@ == hash_part(self@),
    {
        match self {
            Object::Integer(n) => HashPart::Integer(*n),
            Object::String(s) => HashPart::Text(s.clone()),
            Object::Symbol(s) => HashPart::Text(s.clone()),
            _ => HashPart::Nothing,
        }
    }
}

/// Whether each mapping in a value, at any depth, has unique keys. What the
/// reader builds is so, and what the evaluator returns for such values.
pub open spec fn well_formed(v: Value) -> bool
    decreases v,
{
    match v {
        Value::List(items) => forall|i: int| 0 <= i < items.len() ==> well_formed(#[trigger] items[i]),
        Value::Vector(items) => forall|i: int|
            0 <= i < items.len() ==> well_formed(#[trigger] items[i]),
        Value::Mapping(pairs) => unique_keys(pairs) && forall|i: int|
            0 <= i < pairs.len() ==> well_formed((#[trigger] pairs[i]).0) && well_formed(pairs[i].1),
        _ => true,
    }
}

/// Whether each value of a row is well formed.
pub open spec fn all_well_formed(items: Seq<Value>) -> bool {
    forall|i: int| 0 <= i < items.len() ==> well_formed(#[trigger] items[i])
}

/// Whether the keys of a mapping are unique and its keys and values well
/// formed.
pub open spec fn pairs_well_formed(pairs: Seq<(Value, Value)>) -> bool {
    well_formed(Value::Mapping(pairs))
}

/// Binding a well-formed key to a well-formed value keeps a mapping well
/// formed.
pub proof fn lemma_with_binding_well_formed(pairs: Seq<(Value, Value)>, key: Value, value: Value)
    requires
        pairs_well_formed(pairs),
        well_formed(key),
        well_formed(value),
    ensures
        pairs_well_formed(with_binding(pairs, key, value)),
{
    lemma_with_binding_unique(pairs, key, value);
    lemma_find_key(pairs, key, 0);
    let after = with_binding(pairs, key, value);
    assert forall|i: int| 0 <= i < after.len() implies well_formed((#[trigger] after[i]).0)
        && well_formed(after[i].1) by {
        if i < pairs.len() {
            assert(well_formed(pairs[i].0) && well_formed(pairs[i].1));
        }
    }
}

} // verus!
