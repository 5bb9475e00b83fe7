use crate::object::{all_well_formed, bind, is_symbol, lemma_with_binding_well_formed,
    pairs_well_formed, symbol, view_all, view_pairs, well_formed, with_binding, Object,
    ParseObjectError, Value};
use vstd::prelude::*;

verus! {

/// Whether an atom ends a run of forms: the closing bracket does, and inside
/// a vector or a mapping the comma too.
pub open spec fn is_delimiter(v: Value, close: char, commas: bool) -> bool {
    v == symbol(close) || (commas && v == symbol(','))
}

/// The forms from `pos` up to the next delimiter, which is left in place, and
/// its position; `None` where the atoms end first.
pub open spec fn forms_until(atoms: Seq<Value>, pos: int, close: char, commas: bool) -> Option<
    (Seq<Value>, int),
>
    decreases atoms.len() - pos, 1nat,
{
    if pos < 0 || pos >= atoms.len() {
        None
    } else if is_delimiter(atoms[pos], close, commas) {
        Some((Seq::empty(), pos))
    } else {
        match form_at(atoms, pos) {
            None => None,
            Some((v, next)) => if next <= pos || next > atoms.len() {
                // never so: a form takes an atom or more, see `lemma_form_at_end`
                None
            } else {
                match forms_until(atoms, next, close, commas) {
                    None => None,
                    Some((vs, end)) => Some((seq![v] + vs, end)),
                }
            },
        }
    }
}

/// The forms of the segments from `pos` up to the closing bracket, one row
/// for all of them, and the position after the bracket. A segment is a run of
/// exactly `arity` forms that a comma or the bracket ends; one comma before a
/// segment is skipped.
pub open spec fn segments_until(atoms: Seq<Value>, pos: int, close: char, arity: nat) -> Option<
    (Seq<Value>, int),
>
    decreases atoms.len() - pos, 2nat,
{
    if pos < 0 || pos >= atoms.len() {
        None
    } else if atoms[pos] == symbol(close) {
        Some((Seq::empty(), pos + 1))
    } else {
        let start = if atoms[pos] == symbol(',') {
            pos + 1
        } else {
            pos
        };
        match forms_until(atoms, start, close, true) {
            None => None,
            Some((items, next)) => if items.len() != arity || next <= pos || next > atoms.len() {
                None
            } else {
                match segments_until(atoms, next, close, arity) {
                    None => None,
                    Some((rest, end)) => Some((items + rest, end)),
                }
            },
        }
    }
}

/// Whether the middle form of each triple is the colon.
pub open spec fn colons(flat: Seq<Value>) -> bool {
    forall|i: int| 0 <= i && 3 * i + 2 < flat.len() ==> #[trigger] flat[3 * i + 1] == symbol(':')
}

/// The mapping `acc` with the `key : value` triples from `from` on bound in
/// turn.
pub open spec fn bind_triples(flat: Seq<Value>, from: int, acc: Seq<(Value, Value)>) -> Seq<
    (Value, Value),
>
    decreases flat.len() - from,
{
    if from < 0 || from + 3 > flat.len() {
        acc
    } else {
        bind_triples(flat, from + 3, with_binding(acc, flat[from], flat[from + 2]))
    }
}

/// The mapping that a row of `key : value` triples builds.
pub open spec fn from_triples(flat: Seq<Value>) -> Seq<(Value, Value)> {
    bind_triples(flat, 0, Seq::empty())
}

/// The form that starts at `pos`, and the position after it.
pub open spec fn form_at(atoms: Seq<Value>, pos: int) -> Option<(Value, int)>
    decreases atoms.len() - pos, 0nat,
{
    if pos < 0 || pos >= atoms.len() {
        None
    } else if atoms[pos] == symbol('(') {
        match forms_until(atoms, pos + 1, ')', false) {
            None => None,
            Some((items, end)) => Some((Value::List(items), end + 1)),
        }
    } else if atoms[pos] == symbol('[') {
        match segments_until(atoms, pos + 1, ']', 1) {
            None => None,
            Some((items, end)) => Some((Value::Vector(items), end)),
        }
    } else if atoms[pos] == symbol('{') {
        match segments_until(atoms, pos + 1, '}', 3) {
            None => None,
            Some((flat, end)) => if colons(flat) {
                Some((Value::Mapping(from_triples(flat)), end))
            } else {
                None
            },
        }
    } else {
        Some((atoms[pos], pos + 1))
    }
}

/// The first form of a row of atoms; what follows it is ignored.
pub open spec fn first_form(atoms: Seq<Value>) -> Option<Value> {
    match form_at(atoms, 0) {
        Some((v, _)) => Some(v),
        None => None,
    }
}

/// A run of forms ends on a delimiter inside the atoms.
pub proof fn lemma_forms_until_end(atoms: Seq<Value>, pos: int, close: char, commas: bool)
    ensures
        forms_until(atoms, pos, close, commas) matches Some((_, end)) ==> pos <= end < atoms.len()
            && is_delimiter(atoms[end], close, commas),
    decreases atoms.len() - pos,
{
    if 0 <= pos < atoms.len() && !is_delimiter(atoms[pos], close, commas) {
        match form_at(atoms, pos) {
            Some((v, next)) => {
                if pos < next <= atoms.len() {
                    lemma_forms_until_end(atoms, next, close, commas);
                }
            },
            None => {},
        }
    }
}

/// A run of forms takes at least one atom for each form.
pub proof fn lemma_forms_until_progress(atoms: Seq<Value>, pos: int, close: char, commas: bool)
    ensures
        forms_until(atoms, pos, close, commas) matches Some((vs, end)) ==> pos + vs.len() <= end,
    decreases atoms.len() - pos,
{
    if 0 <= pos < atoms.len() && !is_delimiter(atoms[pos], close, commas) {
        match form_at(atoms, pos) {
            Some((v, next)) => {
                if pos < next <= atoms.len() {
                    lemma_forms_until_progress(atoms, next, close, commas);
                }
            },
            None => {},
        }
    }
}

/// The segments end after where they start, and within the atoms.
pub proof fn lemma_segments_until_end(atoms: Seq<Value>, pos: int, close: char, arity: nat)
    ensures
        segments_until(atoms, pos, close, arity) matches Some((_, end)) ==> pos < end
            <= atoms.len(),
    decreases atoms.len() - pos,
{
    if 0 <= pos < atoms.len() && atoms[pos] != symbol(close) {
        let start = if atoms[pos] == symbol(',') {
            pos + 1
        } else {
            pos
        };
        match forms_until(atoms, start, close, true) {
            Some((items, next)) => {
                if items.len() == arity && pos < next <= atoms.len() {
                    lemma_segments_until_end(atoms, next, close, arity);
                }
            },
            None => {},
        }
    }
}

/// A form takes at least one atom and ends within the atoms.
pub proof fn lemma_form_at_end(atoms: Seq<Value>, pos: int)
    ensures
        form_at(atoms, pos) matches Some((_, end)) ==> pos < end <= atoms.len(),
{
    if 0 <= pos < atoms.len() {
        lemma_forms_until_end(atoms, pos + 1, ')', false);
        lemma_segments_until_end(atoms, pos + 1, ']', 1);
        lemma_segments_until_end(atoms, pos + 1, '}', 3);
    }
}

/// Binding triples of well-formed values in a well-formed mapping gives a
/// well-formed mapping.
pub proof fn lemma_bind_triples_well_formed(flat: Seq<Value>, from: int, acc: Seq<(Value, Value)>)
    requires
        all_well_formed(flat),
        pairs_well_formed(acc),
    ensures
        pairs_well_formed(bind_triples(flat, from, acc)),
    decreases flat.len() - from,
{
    if 0 <= from && from + 3 <= flat.len() {
        lemma_with_binding_well_formed(acc, flat[from], flat[from + 2]);
        lemma_bind_triples_well_formed(
            flat,
            from + 3,
            with_binding(acc, flat[from], flat[from + 2]),
        );
    }
}

/// The forms of a run are well formed where the atoms are.
pub proof fn lemma_forms_until_well_formed(atoms: Seq<Value>, pos: int, close: char, commas: bool)
    requires
        all_well_formed(atoms),
    ensures
        forms_until(atoms, pos, close, commas) matches Some((vs, _)) ==> all_well_formed(vs),
    decreases atoms.len() - pos, 1nat,
{
    if 0 <= pos < atoms.len() && !is_delimiter(atoms[pos], close, commas) {
        match form_at(atoms, pos) {
            Some((v, next)) => {
                lemma_form_at_well_formed(atoms, pos);
                if pos < next <= atoms.len() {
                    lemma_forms_until_well_formed(atoms, next, close, commas);
                    match forms_until(atoms, next, close, commas) {
                        Some((vs, end)) => {
                            let all = seq![v] + vs;
                            assert forall|i: int| 0 <= i < all.len() implies well_formed(
                                #[trigger] all[i],
                            ) by {
                                if i > 0 {
                                    assert(all[i] == vs[i - 1]);
                                }
                            }
                        },
                        None => {},
                    }
                }
            },
            None => {},
        }
    }
}

/// The forms of the segments are well formed where the atoms are.
pub proof fn lemma_segments_until_well_formed(
    atoms: Seq<Value>,
    pos: int,
    close: char,
    arity: nat,
)
    requires
        all_well_formed(atoms),
    ensures
        segments_until(atoms, pos, close, arity) matches Some((vs, _)) ==> all_well_formed(vs),
    decreases atoms.len() - pos, 2nat,
{
    if 0 <= pos < atoms.len() && atoms[pos] != symbol(close) {
        let start = if atoms[pos] == symbol(',') {
            pos + 1
        } else {
            pos
        };
        lemma_forms_until_well_formed(atoms, start, close, true);
        match forms_until(atoms, start, close, true) {
            Some((items, next)) => {
                if items.len() == arity && pos < next <= atoms.len() {
                    lemma_segments_until_well_formed(atoms, next, close, arity);
                    match segments_until(atoms, next, close, arity) {
                        Some((rest, end)) => {
                            let all = items + rest;
                            assert forall|i: int| 0 <= i < all.len() implies well_formed(
                                #[trigger] all[i],
                            ) by {
                                if i < items.len() {
                                    assert(all[i] == items[i]);
                                } else {
                                    assert(all[i] == rest[i - items.len()]);
                                }
                            }
                        },
                        None => {},
                    }
                }
            },
            None => {},
        }
    }
}

/// A form is well formed where the atoms are: the mappings in it have unique
/// keys.
pub proof fn lemma_form_at_well_formed(atoms: Seq<Value>, pos: int)
    requires
        all_well_formed(atoms),
    ensures
        form_at(atoms, pos) matches Some((v, _)) ==> well_formed(v),
    decreases atoms.len() - pos, 0nat,
{
    if 0 <= pos < atoms.len() {
        if atoms[pos] == symbol('(') {
            lemma_forms_until_well_formed(atoms, pos + 1, ')', false);
        } else if atoms[pos] == symbol('[') {
            lemma_segments_until_well_formed(atoms, pos + 1, ']', 1);
        } else if atoms[pos] == symbol('{') {
            lemma_segments_until_well_formed(atoms, pos + 1, '}', 3);
            match segments_until(atoms, pos + 1, '}', 3) {
                Some((flat, end)) => {
                    lemma_bind_triples_well_formed(flat, 0, Seq::empty());
                },
                None => {},
            }
        }
    }
}

spec fn with_forms(acc: Seq<Value>, r: Option<(Seq<Value>, int)>) -> Option<(Seq<Value>, int)> {
    match r {
        Some((vs, end)) => Some((acc + vs, end)),
        None => None,
    }
}

/// Whether the atom ends a run of forms.
pub fn ends_run(atom: &Object, close: char, commas: bool) -> (r: bool)
    ensures
        r == is_delimiter(atom@, close, commas),
{
    is_symbol(atom, close) || (commas && is_symbol(atom, ','))
}

/// Collects the forms from `pos` up to the next delimiter and leaves `pos`
/// on it. It fails where the atoms end before a delimiter comes.
pub fn parse_list(atoms: &Vec<Object>, pos: &mut usize, close: char, commas: bool) -> (r: Result<
    Vec<Object>,
    ParseObjectError,
>)
    ensures
        match forms_until(view_all(atoms@), *old(pos) as int, close, commas) {
            Some((vs, end)) => r is Ok && view_all(r->Ok_0@) == vs && *final(pos) == end,
            None => r is Err,
        },
    decreases atoms.len() - *old(pos), 1nat,
{
    let ghost all = view_all(atoms@);
    let ghost start = *pos as int;
    let mut list: Vec<Object> = Vec::new();
    assert(with_forms(view_all(list@), forms_until(all, start, close, commas)) == forms_until(
        all,
        start,
        close,
        commas,
    )) by {
        match forms_until(all, start, close, commas) {
            Some((vs, end)) => {
                assert(view_all(list@) + vs =~= vs);
            },
            None => {},
        }
    }
    while *pos < atoms.len()
        invariant
            all == view_all(atoms@),
            start == *old(pos) as int,
            start <= *pos,
            forms_until(all, start, close, commas) == with_forms(
                view_all(list@),
                forms_until(all, *pos as int, close, commas),
            ),
        decreases atoms.len() - *pos,
    {
        let ghost here = *pos as int;
        let ghost before = view_all(list@);
        assert(all[here] == atoms@[here]@);
        if ends_run(&atoms[*pos], close, commas) {
            assert(before + Seq::<Value>::empty() =~= before);
            return Ok(list);
        }
        match parse_mut_expr(atoms, pos) {
            Ok(v) => {
                list.push(v);
                proof {
                    lemma_form_at_end(all, here);
                    assert(view_all(list@) =~= before.push(v@));
                    match forms_until(all, *pos as int, close, commas) {
                        Some((vs, end)) => {
                            assert(before + (seq![v@] + vs) =~= before.push(v@) + vs);
                        },
                        None => {},
                    }
                }
            },
            Err(e) => {
                return Err(e);
            },
        }
    }
    Err(ParseObjectError {  })
}

/// Collects the forms of the segments from `pos` up to the closing bracket
/// and leaves `pos` after it. It fails where a segment has not `arity` forms
/// or the atoms end before the bracket comes.
pub fn parse_segments(atoms: &Vec<Object>, pos: &mut usize, close: char, arity: usize) -> (r:
    Result<Vec<Object>, ParseObjectError>)
    ensures
        match segments_until(view_all(atoms@), *old(pos) as int, close, arity as nat) {
            Some((vs, end)) => r is Ok && view_all(r->Ok_0@) == vs && *final(pos) == end,
            None => r is Err,
        },
    decreases atoms.len() - *old(pos), 2nat,
{
    let ghost all = view_all(atoms@);
    let ghost start = *pos as int;
    let mut flat: Vec<Object> = Vec::new();
    assert(with_forms(view_all(flat@), segments_until(all, start, close, arity as nat))
        == segments_until(all, start, close, arity as nat)) by {
        match segments_until(all, start, close, arity as nat) {
            Some((vs, end)) => {
                assert(view_all(flat@) + vs =~= vs);
            },
            None => {},
        }
    }
    while *pos < atoms.len()
        invariant
            all == view_all(atoms@),
            start == *old(pos) as int,
            start <= *pos,
            segments_until(all, start, close, arity as nat) == with_forms(
                view_all(flat@),
                segments_until(all, *pos as int, close, arity as nat),
            ),
        decreases atoms.len() - *pos,
    {
        let ghost here = *pos as int;
        let ghost before = view_all(flat@);
        assert(all[here] == atoms@[here]@);
        if is_symbol(&atoms[*pos], close) {
            *pos = *pos + 1;
            assert(before + Seq::<Value>::empty() =~= before);
            return Ok(flat);
        }
        if is_symbol(&atoms[*pos], ',') {
            *pos = *pos + 1;
        }
        let ghost from = *pos as int;
        match parse_list(atoms, pos, close, true) {
            Ok(items) => {
                if items.len() != arity {
                    return Err(ParseObjectError {  });
                }
                proof {
                    lemma_forms_until_end(all, from, close, true);
                    lemma_forms_until_progress(all, from, close, true);
                }
                let ghost got = view_all(items@);
                let mut items = items;
                flat.append(&mut items);
                proof {
                    assert(view_all(flat@) =~= before + got);
                    match segments_until(all, *pos as int, close, arity as nat) {
                        Some((vs, end)) => {
                            assert(before + (got + vs) =~= (before + got) + vs);
                        },
                        None => {},
                    }
                }
            },
            Err(e) => {
                return Err(e);
            },
        }
    }
    Err(ParseObjectError {  })
}

/// Binds the `key : value` triples of a row in turn; `None` where the middle
/// form of a triple is not the colon.
pub fn bind_all(flat: &Vec<Object>) -> (r: Option<Vec<(Object, Object)>>)
    ensures
        match r {
            Some(pairs) => colons(view_all(flat@)) && view_pairs(pairs@) == from_triples(
                view_all(flat@),
            ),
            None => !colons(view_all(flat@)),
        },
{
    let ghost all = view_all(flat@);
    let mut pairs: Vec<(Object, Object)> = Vec::new();
    let mut i: usize = 0;
    let ghost mut n: int = 0;
    assert(view_pairs(pairs@) =~= Seq::<(Value, Value)>::empty());
    while flat.len() - i >= 3
        invariant
            all == view_all(flat@),
            i == 3 * n,
            0 <= n,
            i <= flat.len(),
            from_triples(all) == bind_triples(all, i as int, view_pairs(pairs@)),
            forall|k: int| 0 <= k < n ==> #[trigger] all[3 * k + 1] == symbol(':'),
        decreases flat.len() - i,
    {
        assert(all[i + 1] == flat@[i + 1]@);
        assert(all[i as int] == flat@[i as int]@);
        assert(all[i + 2] == flat@[i + 2]@);
        if !is_symbol(&flat[i + 1], ':') {
            assert(all[3 * n + 1] != symbol(':'));
            return None;
        }
        bind(&mut pairs, flat[i].clone(), flat[i + 2].clone());
        i = i + 3;
        proof {
            n = n + 1;
        }
    }
    assert forall|k: int| 0 <= k && 3 * k + 2 < all.len() implies #[trigger] all[3 * k + 1]
        == symbol(':') by {
        assert(k < n);
    }
    Some(pairs)
}

/// Reads the form that starts at `pos` and leaves `pos` after it: a list
/// between round brackets, a vector between square ones, a mapping between
/// curly ones, or else the atom itself.
pub fn parse_mut_expr(atoms: &Vec<Object>, pos: &mut usize) -> (r: Result<Object, ParseObjectError>)
    ensures
        match form_at(view_all(atoms@), *old(pos) as int) {
            Some((v, end)) => r is Ok && r->Ok_0@ == v && *final(pos) == end,
            None => r is Err,
        },
    decreases atoms.len() - *old(pos), 0nat,
{
    let ghost all = view_all(atoms@);
    let ghost here = *pos as int;
    if *pos >= atoms.len() {
        return Err(ParseObjectError {  });
    }
    assert(all[here] == atoms@[here]@);
    if is_symbol(&atoms[*pos], '(') {
        *pos = *pos + 1;
        match parse_list(atoms, pos, ')', false) {
            Ok(list) => {
                proof {
                    lemma_forms_until_end(all, here + 1, ')', false);
                }
                *pos = *pos + 1;
                Ok(Object::List(list))
            },
            Err(e) => Err(e),
        }
    } else if is_symbol(&atoms[*pos], '[') {
        *pos = *pos + 1;
        match parse_segments(atoms, pos, ']', 1) {
            Ok(items) => Ok(Object::Vector(items)),
            Err(e) => Err(e),
        }
    } else if is_symbol(&atoms[*pos], '{') {
        *pos = *pos + 1;
        match parse_segments(atoms, pos, '}', 3) {
            Ok(flat) => match bind_all(&flat) {
                Some(pairs) => Ok(Object::Mapping(pairs)),
                None => Err(ParseObjectError {  }),
            },
            Err(e) => Err(e),
        }
    } else {
        let atom = atoms[*pos].clone();
        *pos = *pos + 1;
        Ok(atom)
    }
}

/// Reads the first form of a row of atoms; the atoms after it are ignored.
pub fn parse_expr(atoms: &Vec<Object>) -> (r: Result<Object, ParseObjectError>)
    ensures
        match first_form(view_all(atoms@)) {
            Some(v) => r is Ok && r->Ok_0@ == v,
            None => r is Err,
        },
        all_well_formed(view_all(atoms@)) && r is Ok ==> well_formed(r->Ok_0@),
{
    proof {
        if all_well_formed(view_all(atoms@)) {
            lemma_form_at_well_formed(view_all(atoms@), 0);
        }
    }
    let mut pos: usize = 0;
    parse_mut_expr(atoms, &mut pos)
}

} // verus!
