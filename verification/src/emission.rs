use vstd::prelude::*;
use crate::value::Value;
use crate::process::{AwaitKind, EmitKind};

verus! {

/// The `(signal, value)` pairs of a list of `(signal, value)` pairs, or `None`
/// when `v` is not such a list.
pub open spec fn signal_list(v: Value) -> Option<Seq<(usize, Value)>>
    decreases v,
{
    match v {
        Value::Nil => Some(Seq::empty()),
        Value::Cons(h, t) => match *h {
            Value::Pair(s, x) => match *s {
                Value::Signal(id) => match signal_list(*t) {
                    Some(rest) => Some(seq![(id, *x)] + rest),
                    None => None,
                },
                _ => None,
            },
            _ => None,
        },
        _ => None,
    }
}

/// The list `v` of values paired, in order, with the signals `ss`; `None`
/// when `v` is not a list or its length differs from that of `ss`.
pub open spec fn zip_list(ss: Seq<usize>, v: Value) -> Option<Seq<(usize, Value)>>
    decreases v,
{
    match v {
        Value::Nil => if ss.len() == 0 {
            Some(Seq::empty())
        } else {
            None
        },
        Value::Cons(h, t) => if ss.len() > 0 {
            match zip_list(ss.drop_first(), *t) {
                Some(rest) => Some(seq![(ss[0], *h)] + rest),
                None => None,
            }
        } else {
            None
        },
        _ => None,
    }
}

/// What an emitting step of kind `kind` does on the value `v`: the emissions,
/// in order, and the value passed on; `None` when `v` has the wrong shape.
pub open spec fn emit_spec(kind: EmitKind, v: Value) -> Option<(Seq<(usize, Value)>, Value)> {
    match kind {
        EmitKind::Dynamic => match v {
            Value::Pair(s, x) => match *s {
                Value::Signal(id) => Some((seq![(id, *x)], Value::Unit)),
                _ => None,
            },
            _ => None,
        },
        EmitKind::DynamicIn => match v {
            Value::Pair(sx, w) => match *sx {
                Value::Pair(s, x) => match *s {
                    Value::Signal(id) => Some((seq![(id, *x)], *w)),
                    _ => None,
                },
                _ => None,
            },
            _ => None,
        },
        EmitKind::DynamicVec => match signal_list(v) {
            Some(es) => Some((es, Value::Unit)),
            None => None,
        },
        EmitKind::DynamicVecIn => match v {
            Value::Pair(l, w) => match signal_list(*l) {
                Some(es) => Some((es, *w)),
                None => None,
            },
            _ => None,
        },
        EmitKind::Static(s) => Some((seq![(s, v)], Value::Unit)),
        EmitKind::StaticIn(s) => match v {
            Value::Pair(x, w) => Some((seq![(s, *x)], *w)),
            _ => None,
        },
        EmitKind::StaticVec(ss) => match zip_list(ss@, v) {
            Some(es) => Some((es, Value::Unit)),
            None => None,
        },
        EmitKind::StaticVecIn(ss) => match v {
            Value::Pair(l, w) => match zip_list(ss@, *l) {
                Some(es) => Some((es, *w)),
                None => None,
            },
            _ => None,
        },
        EmitKind::Constant(s, c) => Some((seq![(s, c)], v)),
        EmitKind::ConstantVec(cs) => Some((cs@, v)),
    }
}

/// What an awaiting step of kind `kind` does on the value `v`: the signal it
/// waits for and the value it keeps; `None` when `v` has the wrong shape.
pub open spec fn await_spec(kind: AwaitKind, v: Value) -> Option<(usize, Option<Value>)> {
    match kind {
        AwaitKind::Dynamic => match v {
            Value::Signal(s) => Some((s, None)),
            _ => None,
        },
        AwaitKind::DynamicIn => match v {
            Value::Pair(s, w) => match *s {
                Value::Signal(id) => Some((id, Some(*w))),
                _ => None,
            },
            _ => None,
        },
        AwaitKind::Static(s) => Some((s, None)),
        AwaitKind::StaticIn(s) => Some((s, Some(v))),
    }
}

/// Decodes a list of `(signal, value)` pairs.
pub fn decode_signal_list(v: Value) -> (r: Option<Vec<(usize, Value)>>)
    ensures
        match (r, signal_list(v)) {
            (Some(es), Some(s)) => es@ == s,
            (None, None) => true,
            _ => false,
        },
    decreases v,
{
    match v {
        Value::Nil => Some(Vec::new()),
        Value::Cons(h, t) => match *h {
            Value::Pair(s, x) => match *s {
                Value::Signal(id) => match decode_signal_list(*t) {
                    Some(mut rest) => {
                        let ghost old_rest = rest@;
                        rest.insert(0, (id, *x));
                        assert(rest@ =~= seq![(id, *x)] + old_rest);
                        Some(rest)
                    },
                    None => None,
                },
                _ => None,
            },
            _ => None,
        },
        _ => None,
    }
}

/// Pairs the list `v` with the signals `ss[from..]`.
pub fn decode_zip_list(ss: &Vec<usize>, from: usize, v: Value) -> (r: Option<
    Vec<(usize, Value)>,
>)
    requires
        from <= ss@.len(),
    ensures
        match (r, zip_list(ss@.skip(from as int), v)) {
            (Some(es), Some(s)) => es@ == s,
            (None, None) => true,
            _ => false,
        },
    decreases v,
{
    match v {
        Value::Nil => if from == ss.len() {
            Some(Vec::new())
        } else {
            None
        },
        Value::Cons(h, t) => if from < ss.len() {
            assert(ss@.skip(from as int).drop_first() =~= ss@.skip(from + 1));
            match decode_zip_list(ss, from + 1, *t) {
                Some(mut rest) => {
                    let ghost old_rest = rest@;
                    rest.insert(0, (ss[from], *h));
                    assert(rest@ =~= seq![(ss@.skip(from as int)[0], *h)] + old_rest);
                    Some(rest)
                },
                None => None,
            }
        } else {
            None
        },
        _ => None,
    }
}

/// Copies a list of emissions.
pub fn copy_emissions(cs: &Vec<(usize, Value)>) -> (r: Vec<(usize, Value)>)
    ensures
        r@ == cs@,
{
    let mut r: Vec<(usize, Value)> = Vec::new();
    let mut i: usize = 0;
    while i < cs.len()
        invariant
            i <= cs@.len(),
            r@ == cs@.take(i as int),
        decreases cs@.len() - i,
    {
        let (s, x) = &cs[i];
        r.push((*s, x.duplicate()));
        assert(r@ =~= cs@.take(i + 1));
        i = i + 1;
    }
    assert(cs@.take(cs@.len() as int) =~= cs@);
    r
}

/// Decodes what an emitting step of kind `kind` does on `v`.
pub fn decode_emit(kind: &EmitKind, v: Value) -> (r: Option<(Vec<(usize, Value)>, Value)>)
    ensures
        match (r, emit_spec(*kind, v)) {
            (Some((es, out)), Some((s, o))) => es@ == s && out == o,
            (None, None) => true,
            _ => false,
        },
        *kind matches EmitKind::StaticIn(s) ==> (v matches Value::Pair(x, w) ==> (r matches Some(
            (es, out),
        ) && es@ == seq![(s, *x)] && out == *w)),
        *kind is DynamicIn ==> (v matches Value::Pair(sx, w) ==> (*sx matches Value::Pair(sig, x)
            ==> (*sig matches Value::Signal(id) ==> (r matches Some((es, out)) && es@ == seq![(id, *x)]
            && out == *w)))),
{
    match kind {
        EmitKind::Dynamic => match v {
            Value::Pair(s, x) => match *s {
                Value::Signal(id) => Some((vec![(id, *x)], Value::Unit)),
                _ => None,
            },
            _ => None,
        },
        EmitKind::DynamicIn => match v {
            Value::Pair(sx, w) => match *sx {
                Value::Pair(s, x) => match *s {
                    Value::Signal(id) => Some((vec![(id, *x)], *w)),
                    _ => None,
                },
                _ => None,
            },
            _ => None,
        },
        EmitKind::DynamicVec => match decode_signal_list(v) {
            Some(es) => Some((es, Value::Unit)),
            None => None,
        },
        EmitKind::DynamicVecIn => match v {
            Value::Pair(l, w) => match decode_signal_list(*l) {
                Some(es) => Some((es, *w)),
                None => None,
            },
            _ => None,
        },
        EmitKind::Static(s) => Some((vec![(*s, v)], Value::Unit)),
        EmitKind::StaticIn(s) => match v {
            Value::Pair(x, w) => Some((vec![(*s, *x)], *w)),
            _ => None,
        },
        EmitKind::StaticVec(ss) => {
            assert(ss@.skip(0) =~= ss@);
            match decode_zip_list(ss, 0, v) {
                Some(es) => Some((es, Value::Unit)),
                None => None,
            }
        },
        EmitKind::StaticVecIn(ss) => match v {
            Value::Pair(l, w) => {
                assert(ss@.skip(0) =~= ss@);
                match decode_zip_list(ss, 0, *l) {
                    Some(es) => Some((es, *w)),
                    None => None,
                }
            },
            _ => None,
        },
        EmitKind::Constant(s, c) => Some((vec![(*s, c.duplicate())], v)),
        EmitKind::ConstantVec(cs) => Some((copy_emissions(cs), v)),
    }
}

/// Decodes what an awaiting step of kind `kind` does on `v`.
pub fn decode_await(kind: &AwaitKind, v: Value) -> (r: Option<(usize, Option<Value>)>)
    ensures
        r == await_spec(*kind, v),
{
    match kind {
        AwaitKind::Dynamic => match v {
            Value::Signal(s) => Some((s, None)),
            _ => None,
        },
        AwaitKind::DynamicIn => match v {
            Value::Pair(s, w) => match *s {
                Value::Signal(id) => Some((id, Some(*w))),
                _ => None,
            },
            _ => None,
        },
        AwaitKind::Static(s) => Some((*s, None)),
        AwaitKind::StaticIn(s) => Some((*s, Some(v))),
    }
}

} // verus!
