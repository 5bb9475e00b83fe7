use crate::object::{all_well_formed, binding, find_key, lemma_find_key, position, value_eq,
    view_all, view_pairs, well_formed, Object, Primitive, Value};
use vstd::prelude::*;

verus! {

/// How an evaluation ends: with a value, or with the request to end the
/// hosting process, which the host carries out at once.
#[derive(Debug)]
pub enum Evaluation {
    Done(Object),
    Quit,
}

/// What an `Evaluation` is in contracts.
pub ghost enum EvaluationValue {
    Done(Value),
    Quit,
}

impl View for Evaluation {
    type V = EvaluationValue;

    open spec fn view(&self) -> EvaluationValue {
        match self {
            Evaluation::Done(o) => EvaluationValue::Done(o@),
            Evaluation::Quit => EvaluationValue::Quit,
        }
    }
}

/// The global table of a new evaluator: the two primitives under their
/// names.
pub open spec fn primitives() -> Seq<(Value, Value)> {
    seq![
        (Value::Symbol("get"@), Value::Other(Primitive::Get)),
        (Value::Symbol("quit"@), Value::Other(Primitive::Quit)),
    ]
}

/// What `get` returns for a call form `(get container key ...)`: the element
/// of a vector at an integer index within it, the value that a mapping binds
/// to the key, and `Null` for anything else.
pub open spec fn get_from(form: Seq<Value>) -> Value {
    if form.len() < 3 {
        Value::Null
    } else {
        match form[1] {
            Value::Vector(items) => match form[2] {
                Value::Integer(i) => if 0 <= i < items.len() {
                    items[i as int]
                } else {
                    Value::Null
                },
                _ => Value::Null,
            },
            Value::Mapping(pairs) => match binding(pairs, form[2]) {
                Some(v) => v,
                None => Value::Null,
            },
            _ => Value::Null,
        }
    }
}

/// What `get` returns for its argument, which is a call form.
pub open spec fn get_value(v: Value) -> Value {
    match v {
        Value::List(form) => get_from(form),
        _ => Value::Null,
    }
}

/// What a primitive does with its call form.
pub open spec fn apply(p: Primitive, form: Seq<Value>) -> EvaluationValue {
    match p {
        Primitive::Get => EvaluationValue::Done(get_from(form)),
        Primitive::Quit => EvaluationValue::Quit,
    }
}

/// What a symbol evaluates to: the value that the table binds to it, and
/// itself where the table binds none.
pub open spec fn symbol_value(global: Value, name: Seq<char>) -> Value {
    match global {
        Value::Mapping(pairs) => match binding(pairs, Value::Symbol(name)) {
            Some(v) => v,
            None => Value::Symbol(name),
        },
        _ => Value::Symbol(name),
    }
}

/// What a value evaluates to. A symbol is looked up. The empty list is
/// `Null`. Of another list the first element is evaluated: a capability
/// handle is applied to the list of itself and the other elements as they
/// stand, and anything else gives `Null`. Every other value is itself.
pub open spec fn evaluate(global: Value, v: Value) -> EvaluationValue
    decreases v,
{
    match v {
        Value::Symbol(name) => EvaluationValue::Done(symbol_value(global, name)),
        Value::List(items) => if items.len() == 0 {
            EvaluationValue::Done(Value::Null)
        } else {
            match evaluate(global, items[0]) {
                EvaluationValue::Quit => EvaluationValue::Quit,
                EvaluationValue::Done(head) => match head {
                    Value::Other(p) => apply(p, seq![head] + items.skip(1)),
                    _ => EvaluationValue::Done(Value::Null),
                },
            }
        },
        _ => EvaluationValue::Done(v),
    }
}

/// The table of a new evaluator is well formed.
pub proof fn lemma_primitives_well_formed()
    ensures
        well_formed(Value::Mapping(primitives())),
{
    reveal_strlit("get");
    reveal_strlit("quit");
    assert("get"@ != "quit"@) by {
        assert("get"@.len() == 3);
        assert("quit"@.len() == 4);
    }
    let pairs = primitives();
    assert(pairs.len() == 2);
    assert(!value_eq(pairs[1].0, pairs[0].0));
    assert forall|i: int, j: int| 0 <= i < j < pairs.len() implies !value_eq(
        (#[trigger] pairs[j]).0,
        (#[trigger] pairs[i]).0,
    ) by {
        assert(i == 0 && j == 1);
    }
    assert forall|i: int| 0 <= i < pairs.len() implies well_formed((#[trigger] pairs[i]).0)
        && well_formed(pairs[i].1) by {
        assert(i == 0 || i == 1);
    }
}

/// What `get` returns for well-formed values is well formed.
pub proof fn lemma_get_from_well_formed(form: Seq<Value>)
    requires
        all_well_formed(form),
    ensures
        well_formed(get_from(form)),
{
    if form.len() >= 3 {
        assert(well_formed(form[1]));
        match form[1] {
            Value::Mapping(pairs) => {
                lemma_find_key(pairs, form[2], 0);
                match find_key(pairs, form[2], 0) {
                    Some(j) => {
                        assert(well_formed(pairs[j].1));
                    },
                    None => {},
                }
            },
            _ => {},
        }
    }
}

/// What a well-formed value evaluates to in a well-formed table is well
/// formed.
pub proof fn lemma_evaluate_well_formed(global: Value, v: Value)
    requires
        well_formed(global),
        well_formed(v),
    ensures
        evaluate(global, v) matches EvaluationValue::Done(r) ==> well_formed(r),
    decreases v,
{
    match v {
        Value::Symbol(name) => {
            match global {
                Value::Mapping(pairs) => {
                    lemma_find_key(pairs, v, 0);
                    match find_key(pairs, v, 0) {
                        Some(j) => {
                            assert(well_formed(pairs[j].1));
                        },
                        None => {},
                    }
                },
                _ => {},
            }
        },
        Value::List(items) => {
            if items.len() > 0 {
                assert(well_formed(items[0]));
                lemma_evaluate_well_formed(global, items[0]);
                match evaluate(global, items[0]) {
                    EvaluationValue::Done(head) => {
                        let form = seq![head] + items.skip(1);
                        assert forall|i: int| 0 <= i < form.len() implies well_formed(
                            #[trigger] form[i],
                        ) by {
                            if i > 0 {
                                assert(form[i] == items[i]);
                            }
                        }
                        lemma_get_from_well_formed(form);
                    },
                    EvaluationValue::Quit => {},
                }
            }
        },
        _ => {},
    }
}

/// The primitive `get`: see `get_from`.
pub fn get(obj: &Object) -> (r: Object)
    ensures
        r@ == get_value(obj@),
{
    if let Object::List(list) = obj {
        if list.len() < 3 {
            return Object::Null;
        }
        assert(view_all(list@)[1] == list@[1]@);
        assert(view_all(list@)[2] == list@[2]@);
        match &list[1] {
            Object::Vector(vector) => {
                if let Object::Integer(index) = &list[2] {
                    if 0 <= *index && (*index as u64) < (vector.len() as u64) {
                        let i = *index as usize;
                        assert(view_all(vector@)[i as int] == vector@[i as int]@);
                        return vector[i].clone();
                    }
                }
            },
            Object::Mapping(pairs) => {
                if let Some(j) = position(pairs, &list[2]) {
                    assert(view_pairs(pairs@)[j as int].1 == pairs@[j as int].1@);
                    return pairs[j].1.clone();
                }
            },
            _ => {},
        }
    }
    Object::Null
}

/// The evaluator: a global table from symbols to values, made once and read
/// only.
pub struct Evaluator {
    global: Object,
}

impl View for Evaluator {
    type V = Value;

    /// The global table.
    closed spec fn view(&self) -> Value {
        self.global@
    }
}

impl Evaluator {
    /// An evaluator whose table holds the primitives `get` and `quit`.
    pub fn new() -> (r: Evaluator)
        ensures
            r@ == Value::Mapping(primitives()),
            well_formed(r@),
    {
        proof {
            lemma_primitives_well_formed();
        }
        let mut pairs: Vec<(Object, Object)> = Vec::new();
        pairs.push((Object::Symbol("get".to_owned()), Object::Other(Primitive::Get)));
        pairs.push((Object::Symbol("quit".to_owned()), Object::Other(Primitive::Quit)));
        assert(view_pairs(pairs@) =~= primitives());
        Evaluator { global: Object::Mapping(pairs) }
    }

    /// Evaluates a value: see `evaluate`.
    pub fn eval(&self, obj: &Object) -> (r: Evaluation)
        ensures
            r@ == evaluate(self@, obj@),
            well_formed(self@) && well_formed(obj@) ==> (r matches Evaluation::Done(o)
                ==> well_formed(o@)),
        decreases obj, 1nat,
    {
        proof {
            if well_formed(self@) && well_formed(obj@) {
                lemma_evaluate_well_formed(self@, obj@);
            }
        }
        match obj {
            Object::Symbol(s) => Evaluation::Done(self.eval_symbol(s)),
            Object::List(list) => self.eval_list(list),
            _ => Evaluation::Done(obj.clone()),
        }
    }

    /// Looks a symbol up in the table.
    pub fn eval_symbol(&self, name: &String) -> (r: Object)
        ensures
            r@ == symbol_value(self@, name@),
    {
        let symbol = Object::Symbol(name.clone());
        if let Object::Mapping(pairs) = &self.global {
            if let Some(j) = position(pairs, &symbol) {
                assert(view_pairs(pairs@)[j as int].1 == pairs@[j as int].1@);
                return pairs[j].1.clone();
            }
        }
        symbol
    }

    /// Evaluates a list as a call.
    pub fn eval_list(&self, list: &Vec<Object>) -> (r: Evaluation)
        ensures
            r@ == evaluate(self@, Value::List(view_all(list@))),
        decreases list, 0nat,
    {
        if list.len() == 0 {
            return Evaluation::Done(Object::Null);
        }
        assert(view_all(list@)[0] == list@[0]@);
        match self.eval(&list[0]) {
            Evaluation::Quit => Evaluation::Quit,
            Evaluation::Done(head) => {
                if let Object::Other(p) = &head {
                    let p = *p;
                    let mut form: Vec<Object> = Vec::new();
                    form.push(head);
                    let mut i: usize = 1;
                    while i < list.len()
                        invariant
                            1 <= i <= list.len(),
                            form.len() == i,
                            forall|j: int| 1 <= j < i ==> form@[j]@ == list@[j]@,
                            form@[0] == head,
                        decreases list.len() - i,
                    {
                        form.push(list[i].clone());
                        i += 1;
                    }
                    assert(view_all(form@) =~= seq![head@] + view_all(list@).skip(1));
                    match p {
                        Primitive::Get => Evaluation::Done(get(&Object::List(form))),
                        Primitive::Quit => Evaluation::Quit,
                    }
                } else {
                    Evaluation::Done(Object::Null)
                }
            },
        }
    }
}

impl Default for Evaluator {
    fn default() -> (r: Evaluator)
        ensures
            r@ == Value::Mapping(primitives()),
    {
        Evaluator::new()
    }
}

} // verus!
