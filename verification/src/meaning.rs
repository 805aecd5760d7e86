use vstd::prelude::*;
use crate::value::{Value, list_spec};
use crate::process::{AwaitKind, EmitKind};
use crate::emission::{await_spec, emit_spec, signal_list, zip_list};
use crate::model::{counted, resume_output};
use crate::life::{after, before, cell_char, rule_spec};
use crate::dot::{digit_char, digits};

verus! {

/// An emitting step emits, on the signal it names or receives, the value
/// that goes with that signal, and passes on the rest of what it received:
/// `emit_d` on `(signal, x)` emits `x` and passes on `()`; `emit_d_in` on
/// `((signal, x), w)` emits `x` and passes on `w`; `emit_s(s)` on `x` emits
/// `x` on `s` and passes on `()`; `emit_s_in(s)` on `(x, w)` emits `x` (the
/// first component) on `s` and passes on `w` (the second); `emit_vs(s, c)`
/// on `w` emits `c` on `s` and passes `w` on unchanged, as does
/// `emit_vec_vs(cs)` with each emission of `cs`.
pub proof fn law_emit_values(
    s: usize,
    id: usize,
    x: Value,
    w: Value,
    c: Value,
    cs: Vec<(usize, Value)>,
)
    ensures
        emit_spec(EmitKind::Dynamic, Value::Pair(Box::new(Value::Signal(id)), Box::new(x)))
            == Some((seq![(id, x)], Value::Unit)),
        emit_spec(
            EmitKind::DynamicIn,
            Value::Pair(
                Box::new(Value::Pair(Box::new(Value::Signal(id)), Box::new(x))),
                Box::new(w),
            ),
        ) == Some((seq![(id, x)], w)),
        emit_spec(EmitKind::Static(s), x) == Some((seq![(s, x)], Value::Unit)),
        emit_spec(EmitKind::StaticIn(s), Value::Pair(Box::new(x), Box::new(w))) == Some(
            (seq![(s, x)], w),
        ),
        emit_spec(EmitKind::Constant(s, c), w) == Some((seq![(s, c)], w)),
        emit_spec(EmitKind::ConstantVec(cs), w) == Some((cs@, w)),
{
}

/// An emitting step that receives a value of the wrong shape emits nothing:
/// `emit_d` and `emit_d_in` need a signal where they look for one, and
/// `emit_s_in` needs a pair.
pub proof fn law_emit_wrong_shape(s: usize, x: Value, w: Value)
    ensures
        !(x is Signal) ==> emit_spec(
            EmitKind::Dynamic,
            Value::Pair(Box::new(x), Box::new(w)),
        ) is None,
        !(x is Pair) ==> emit_spec(EmitKind::StaticIn(s), x) is None,
        !(x is Pair) ==> emit_spec(EmitKind::DynamicIn, Value::Pair(Box::new(x), Box::new(w))) is None,
{
}

/// The list of `(signal, value)` pairs built from `ids` and `xs`, in order.
pub open spec fn signal_pairs(ids: Seq<usize>, xs: Seq<Value>) -> Seq<Value> {
    Seq::new(
        xs.len(),
        |i: int| Value::Pair(Box::new(Value::Signal(ids[i])), Box::new(xs[i])),
    )
}

/// `emit_d_vec` on a list of `(signal, value)` pairs emits each value on its
/// signal, in the order of the list.
pub proof fn law_emit_signal_list(ids: Seq<usize>, xs: Seq<Value>)
    requires
        ids.len() == xs.len(),
    ensures
        signal_list(list_spec(signal_pairs(ids, xs))) == Some(
            Seq::new(xs.len(), |i: int| (ids[i], xs[i])),
        ),
        emit_spec(EmitKind::DynamicVec, list_spec(signal_pairs(ids, xs))) == Some(
            (Seq::new(xs.len(), |i: int| (ids[i], xs[i])), Value::Unit),
        ),
    decreases xs.len(),
{
    if xs.len() > 0 {
        let ids2 = ids.drop_first();
        let xs2 = xs.drop_first();
        law_emit_signal_list(ids2, xs2);
        assert(signal_pairs(ids, xs).drop_first() =~= signal_pairs(ids2, xs2));
        assert(seq![(ids[0], xs[0])] + Seq::new(xs2.len(), |i: int| (ids2[i], xs2[i])) =~= Seq::new(
            xs.len(),
            |i: int| (ids[i], xs[i]),
        ));
    } else {
        assert(Seq::new(xs.len(), |i: int| (ids[i], xs[i])) =~= Seq::<(usize, Value)>::empty());
    }
}

/// `emit_vec_s(ss)` on a list of values as long as `ss` emits the `i`-th value
/// on the `i`-th signal; on a list of another length it emits nothing.
pub proof fn law_emit_zip(ss: Seq<usize>, xs: Seq<Value>)
    ensures
        ss.len() == xs.len() ==> zip_list(ss, list_spec(xs)) == Some(
            Seq::new(xs.len(), |i: int| (ss[i], xs[i])),
        ),
        ss.len() != xs.len() ==> zip_list(ss, list_spec(xs)) is None,
    decreases xs.len(),
{
    if xs.len() > 0 {
        if ss.len() > 0 {
            law_emit_zip(ss.drop_first(), xs.drop_first());
            if ss.len() == xs.len() {
                assert(seq![(ss[0], xs[0])] + Seq::new(
                    xs.drop_first().len(),
                    |i: int| (ss.drop_first()[i], xs.drop_first()[i]),
                ) =~= Seq::new(xs.len(), |i: int| (ss[i], xs[i])));
            }
        }
    } else {
        assert(Seq::new(xs.len(), |i: int| (ss[i], xs[i])) =~= Seq::<(usize, Value)>::empty());
    }
}

/// An awaiting step waits for the signal it names or receives, and keeps the
/// rest of what it received (`await_d_in` and `await_s_in`) to pass it on,
/// once resumed, as the second component beside the signal's value.
pub proof fn law_await_values(s: usize, id: usize, v: Value, w: Value, value: Value)
    ensures
        await_spec(AwaitKind::Dynamic, Value::Signal(id)) == Some((id, None::<Value>)),
        await_spec(
            AwaitKind::DynamicIn,
            Value::Pair(Box::new(Value::Signal(id)), Box::new(w)),
        ) == Some((id, Some(w))),
        await_spec(AwaitKind::Static(s), v) == Some((s, None::<Value>)),
        await_spec(AwaitKind::StaticIn(s), v) == Some((s, Some(v))),
        resume_output(value, None) == value,
        resume_output(value, Some(w)) == Value::Pair(Box::new(value), Box::new(w)),
        !(v is Signal) ==> await_spec(AwaitKind::Dynamic, v) is None,
{
}

/// The rule of the game of life: a cell with 3 living neighbours lives at the
/// next step; one with 2 lives exactly when it is alive; any other count
/// (0, 1, 4, 5, 6, 7, 8, ...) leaves it dead.
pub proof fn law_life_rule(count: i64, alive: bool)
    ensures
        count == 3 ==> rule_spec(count, alive),
        count == 2 ==> (rule_spec(count, alive) == alive),
        count != 2 && count != 3 ==> !rule_spec(count, alive),
{
}

/// On a torus of `n` rows, the row above the first is the last and the row
/// below the last is the first; otherwise they are the neighbouring rows.
pub proof fn law_torus(i: nat, n: nat)
    requires
        i < n,
    ensures
        i > 0 ==> before(i, n) == i - 1,
        i == 0 ==> before(i, n) == n - 1,
        i + 1 < n ==> after(i, n) == i + 1,
        i + 1 == n ==> after(i, n) == 0,
{
    if i > 0 {
        assert(((i + n - 1) as int % (n as int)) == i - 1) by (nonlinear_arith)
            requires
                0 < i < n,
        ;
    } else {
        assert(((i + n - 1) as int % (n as int)) == n - 1) by (nonlinear_arith)
            requires
                i == 0,
                n > 0,
        ;
    }
    if i + 1 < n {
        assert(((i + 1) as int % (n as int)) == i + 1) by (nonlinear_arith)
            requires
                i + 1 < n,
        ;
    } else {
        assert(((i + 1) as int % (n as int)) == 0) by (nonlinear_arith)
            requires
                i + 1 == n,
        ;
    }
}

/// A living cell is drawn `+`, a dead one as a space.
pub proof fn law_cell_char(alive: bool)
    ensures
        alive ==> cell_char(alive) == '+',
        !alive ==> cell_char(alive) == ' ',
{
}

/// The number that the decimal digits `s` stand for.
pub open spec fn decimal_value(s: Seq<char>) -> int
    decreases s.len(),
{
    if s.len() == 0 {
        0
    } else {
        decimal_value(s.drop_last()) * 10 + (s.last() as int - '0' as int)
    }
}

/// The digit character of `r` stands for `r`.
proof fn lemma_digit_char(r: nat)
    requires
        r < 10,
    ensures
        digit_char(r) as int - '0' as int == r,
{
}

/// The decimal digits of `n` are digits (`'0'` to `'9'`), with no leading
/// zero, and read back as a number they give `n`.
pub proof fn law_digits(n: nat)
    ensures
        digits(n).len() > 0,
        forall|k: int|
            0 <= k < digits(n).len() ==> '0' as int <= #[trigger] digits(n)[k] as int <= '9' as int,
        n > 0 ==> digits(n)[0] != '0',
        decimal_value(digits(n)) == n,
    decreases n,
{
    let d = digits(n);
    if n < 10 {
        lemma_digit_char(n);
        assert(d.drop_last() =~= Seq::<char>::empty());
        assert(decimal_value(d) == decimal_value(d.drop_last()) * 10 + (d.last() as int
            - '0' as int));
    } else {
        law_digits(n / 10);
        let r = n % 10;
        lemma_digit_char(r);
        assert(d.drop_last() =~= digits(n / 10));
        assert(d.last() == digit_char(r));
        assert(d.last() as int - '0' as int == r);
        assert(decimal_value(d) == decimal_value(d.drop_last()) * 10 + (d.last() as int
            - '0' as int));
        assert(n == (n / 10) * 10 + r);
        assert forall|k: int| 0 <= k < d.len() implies '0' as int <= #[trigger] d[k] as int
            <= '9' as int by {
            if k < d.len() - 1 {
                assert(d[k] == digits(n / 10)[k]);
            }
        }
        assert(d[0] == digits(n / 10)[0]);
    }
}

/// A counting signal that starts at 0 has, after `n` emissions in an
/// instant, the value `n`.
pub proof fn law_counter(n: nat)
    requires
        n < i64::MAX,
    ensures
        counted(Value::Int(0), n) == Value::Int(n as i64),
    decreases n,
{
    if n > 0 {
        law_counter((n - 1) as nat);
    }
}

} // verus!
