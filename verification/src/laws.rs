use vstd::prelude::*;
use crate::value::Value;
use crate::graph::{Node, implements};
use crate::process::{BigPar, Par, Process};
use crate::model::{
    RuntimeModel, Waiter, Fault, react_spec, close_spec, resumed, still_waiting, resume_output,
    fresh_ok, emissions_of, instant_rel, runs, step_rel, gathered,
};

verus! {

/// A value that reaches a pause goes on, unchanged, at the next instant: it is
/// not run again in the current instant, and once the instant closes its
/// continuation is among the threads to run.
pub proof fn law_pause_defers(m: RuntimeModel, n: usize, v: Value, fresh: Seq<Option<Value>>)
    requires
        m.wf(),
        n < m.nodes.len(),
        m.nodes[n as int] matches Node::Pause { .. },
        m.current.len() == 0,
        fresh.len() == m.configs.len(),
    ensures
        react_spec(m, n, v) matches Ok(m2) && m2.current == m.current && ({
            let next = m.nodes[n as int]->Pause_next;
            close_spec(m2, fresh).current.contains((next, v))
        }),
{
    let next = m.nodes[n as int]->Pause_next;
    let m2 = react_spec(m, n, v).unwrap();
    let c = close_spec(m2, fresh);
    assert(c.current[m.next.len() as int] == (next, v));
}

/// A choice runs its first branch on `x` when it receives `True(x)`, its
/// second branch on `x` when it receives `False(x)`, and faults otherwise.
pub proof fn law_choice(m: RuntimeModel, n: usize, v: Value)
    requires
        m.nodes[n as int] matches Node::Choice { .. },
    ensures
        ({
            let (t, f) = (m.nodes[n as int]->if_true, m.nodes[n as int]->if_false);
            match v {
                Value::True(x) => react_spec(m, n, v) == Ok::<RuntimeModel, Fault>(
                    m.run_now(t, *x),
                ),
                Value::False(x) => react_spec(m, n, v) == Ok::<RuntimeModel, Fault>(
                    m.run_now(f, *x),
                ),
                _ => react_spec(m, n, v) == Err::<RuntimeModel, Fault>(Fault::Mismatch(n)),
            }
        }),
{
}

/// A loop runs its body again on `x` when the body ends with `True(x)`, and
/// goes on with `x` when it ends with `False(x)`.
pub proof fn law_loop(m: RuntimeModel, n: usize, v: Value)
    requires
        m.nodes[n as int] matches Node::LoopTest { .. },
    ensures
        ({
            let (b, e) = (m.nodes[n as int]->body, m.nodes[n as int]->exit);
            match v {
                Value::True(x) => react_spec(m, n, v) == Ok::<RuntimeModel, Fault>(
                    m.run_now(b, *x),
                ),
                Value::False(x) => react_spec(m, n, v) == Ok::<RuntimeModel, Fault>(
                    m.run_now(e, *x),
                ),
                _ => react_spec(m, n, v) == Err::<RuntimeModel, Fault>(Fault::Mismatch(n)),
            }
        }),
{
}

/// The two sides of a parallel composition, ending in either order on an
/// empty join slot, pass on the pair of their results, left first, and leave
/// the slot empty; the first side to end passes on nothing.
pub proof fn law_join_pair(
    m: RuntimeModel,
    jl: usize,
    jr: usize,
    next: usize,
    a: Value,
    b: Value,
)
    requires
        m.wf(),
        jl < m.nodes.len(),
        jr < m.nodes.len(),
        m.nodes[jl as int] == (Node::Join { slot: jl, left_side: true, next }),
        m.nodes[jr as int] == (Node::Join { slot: jl, left_side: false, next }),
        m.slots[jl as int] == (None::<Value>, None::<Value>),
    ensures
        ({
            let pair = Value::Pair(Box::new(a), Box::new(b));
            let left_first = react_spec(react_spec(m, jl, a).unwrap(), jr, b).unwrap();
            let right_first = react_spec(react_spec(m, jr, b).unwrap(), jl, a).unwrap();
            &&& react_spec(m, jl, a).unwrap().current == m.current
            &&& react_spec(m, jr, b).unwrap().current == m.current
            &&& left_first == m.run_now(next, pair)
            &&& right_first == m.run_now(next, pair)
        }),
{
    let pair = Value::Pair(Box::new(a), Box::new(b));
    let m1 = react_spec(m, jl, a).unwrap();
    assert(m1.slots[jl as int] == (Some(a), None::<Value>));
    let left_first = react_spec(m1, jr, b).unwrap();
    assert(left_first.slots =~= m.slots);
    assert(left_first =~= m.run_now(next, pair));
    let m2 = react_spec(m, jr, b).unwrap();
    assert(m2.slots[jl as int] == (None::<Value>, Some(b)));
    let right_first = react_spec(m2, jl, a).unwrap();
    assert(right_first.slots =~= m.slots);
    assert(right_first =~= m.run_now(next, pair));
}

/// The state after `j` branches ended at the `BigJoin` node `n`.
pub open spec fn arrivals(m: RuntimeModel, n: usize, j: nat) -> RuntimeModel
    decreases j,
{
    if j == 0 {
        m
    } else {
        react_spec(arrivals(m, n, (j - 1) as nat), n, Value::Unit).unwrap()
    }
}

/// A `BigPar` of `size` branches goes on once, with `()`, when its last
/// branch ends: before that every branch that ends is only counted.
pub proof fn law_big_join(m: RuntimeModel, n: usize, j: nat)
    requires
        m.wf(),
        n < m.nodes.len(),
        m.nodes[n as int] matches Node::BigJoin { size, .. } && size > 0,
        m.arrived[n as int] == 0,
        j <= m.nodes[n as int]->size,
    ensures
        ({
            let size = m.nodes[n as int]->size;
            let next = m.nodes[n as int]->BigJoin_next;
            let a = arrivals(m, n, j);
            &&& a.nodes == m.nodes
            &&& j < size ==> a == m.set_arrived(n, j as usize)
            &&& j == size ==> a == m.run_now(next, Value::Unit)
        }),
    decreases j,
{
    if j > 0 {
        law_big_join(m, n, (j - 1) as nat);
        let size = m.nodes[n as int]->size;
        let next = m.nodes[n as int]->BigJoin_next;
        let prev = arrivals(m, n, (j - 1) as nat);
        assert(prev == m.set_arrived(n, (j - 1) as usize));
        assert(prev.arrived[n as int] == j - 1);
        let a = arrivals(m, n, j);
        assert(a == react_spec(prev, n, Value::Unit).unwrap());
        if j < size {
            assert(a =~= m.set_arrived(n, j as usize));
        } else {
            assert(a.arrived =~= m.arrived);
            assert(a =~= m.run_now(next, Value::Unit));
        }
    } else {
        assert(m.set_arrived(n, 0) =~= m);
    }
}

/// At the end of an instant a waiting thread is resumed exactly when its
/// signal has a fresh value, and then with that value (beside the value it
/// kept); every other waiting thread keeps waiting.
pub proof fn law_await_resumes(ws: Seq<Waiter>, fresh: Seq<Option<Value>>)
    requires
        forall|i: int| 0 <= i < ws.len() ==> #[trigger] ws[i].signal < fresh.len(),
    ensures
        resumed(ws, fresh).len() + still_waiting(ws, fresh).len() == ws.len(),
        forall|i: int|
            0 <= i < ws.len() && fresh[ws[i].signal as int] is None ==> still_waiting(
                ws,
                fresh,
            ).contains(#[trigger] ws[i]),
        forall|i: int|
            0 <= i < ws.len() && fresh[ws[i].signal as int] is Some ==> resumed(ws, fresh).contains(
                (ws[i].next, resume_output(fresh[#[trigger] ws[i].signal as int]->0, ws[i].carried)),
            ),
        forall|i: int|
            0 <= i < still_waiting(ws, fresh).len() ==> fresh[#[trigger] still_waiting(
                ws,
                fresh,
            )[i].signal as int] is None,
    decreases ws.len(),
{
    if ws.len() > 0 {
        let init = ws.drop_last();
        assert forall|i: int| 0 <= i < init.len() implies #[trigger] init[i].signal < fresh.len() by {
            assert(init[i] == ws[i]);
        }
        law_await_resumes(init, fresh);
        let w = ws.last();
        let r0 = resumed(init, fresh);
        let s0 = still_waiting(init, fresh);
        let r = resumed(ws, fresh);
        let st = still_waiting(ws, fresh);
        assert forall|i: int|
            0 <= i < ws.len() && fresh[ws[i].signal as int] is None implies st.contains(
            #[trigger] ws[i]) by {
            if i < init.len() {
                assert(init[i] == ws[i]);
                let k = choose|k: int| 0 <= k < s0.len() && s0[k] == init[i];
                assert(st[k] == s0[k]);
            } else {
                assert(ws[i] == w);
                assert(st[st.len() - 1] == w);
            }
        }
        assert forall|i: int|
            0 <= i < ws.len() && fresh[ws[i].signal as int] is Some implies r.contains(
            (ws[i].next, resume_output(fresh[#[trigger] ws[i].signal as int]->0, ws[i].carried)),
        ) by {
            let x = (ws[i].next, resume_output(fresh[ws[i].signal as int]->0, ws[i].carried));
            if i < init.len() {
                assert(init[i] == ws[i]);
                assert(fresh[init[i].signal as int] is Some);
                assert(r0.contains(x));
                let k = choose|k: int| 0 <= k < r0.len() && r0[k] == x;
                assert(r[k] == r0[k]);
            } else {
                assert(ws[i] == w);
                assert(r[r.len() - 1] == x);
            }
        }
        assert forall|i: int| 0 <= i < st.len() implies fresh[#[trigger] st[i].signal as int] is None by {
            if i < s0.len() {
                assert(st[i] == s0[i]);
            }
        }
    }
}

/// An instant's end leaves the value of every signal that was not emitted in
/// the instant unchanged, and gives every emitted signal its fresh value.
pub proof fn law_signal_values<F: Fn(usize, Value) -> Value>(
    f: F,
    m: RuntimeModel,
    fresh: Seq<Option<Value>>,
    s: usize,
)
    requires
        fresh_ok(f, m, fresh),
        s < m.configs.len(),
        m.pres.len() == m.configs.len(),
    ensures
        emissions_of(m.emitted, s).len() == 0 ==> close_spec(m, fresh).pres[s as int]
            == m.pres[s as int],
        emissions_of(m.emitted, s).len() > 0 ==> fresh[s as int] is Some && close_spec(
            m,
            fresh,
        ).pres[s as int] == fresh[s as int]->0,
{
    assert(fresh[s as int] is Some <==> emissions_of(m.emitted, s).len() > 0);
}


/// A process made of one user action, started alone, ends in the instant in
/// which it was started, and its result is a value that `f` returns for the
/// action on `()`.
pub proof fn law_single_action<F: Fn(usize, Value) -> Value>(
    f: F,
    m: RuntimeModel,
    m2: RuntimeModel,
    entry: usize,
    fin: usize,
    k: usize,
)
    requires
        m.wf(),
        m.current == seq![(entry, Value::Unit)],
        m.nodes[entry as int] == (Node::Act { action: k, next: fin }),
        m.nodes[fin as int] == Node::Finish,
        instant_rel(f, m, m2),
    ensures
        exists|r: Value| #[trigger] call_ensures(f, (k, Value::Unit), r) && m2.result == Some(r),
{
    reveal(instant_rel);
    let (trace, fresh) = choose|trace: Seq<RuntimeModel>, fresh: Seq<Option<Value>>|
        #![trigger runs(f, trace), fresh_ok(f, trace.last(), fresh)]
        runs(f, trace) && trace[0] == m && trace.last().current.len() == 0 && fresh_ok(
            f,
            trace.last(),
            fresh,
        ) && m2 == close_spec(trace.last(), fresh);
    assert(trace.len() >= 2);
    assert(trace[0].current.len() > 0 && step_rel(f, trace[0], Ok(()), trace[1]));
    assert(m.current.last() == (entry, Value::Unit));
    let rest0 = m.pop_current();
    assert(rest0.current.len() == 0);
    let out = choose|out: Value|
        #![trigger call_ensures(f, (k, Value::Unit), out)]
        call_ensures(f, (k, Value::Unit), out) && trace[1] == rest0.run_now(fin, out);
    assert(trace[1].current.len() == 1);
    assert(trace.len() >= 3);
    assert(trace[1].current.len() > 0 && step_rel(f, trace[1], Ok(()), trace[2]));
    assert(trace[1].current.last() == (fin, out));
    let rest1 = trace[1].pop_current();
    assert(rest1.current.len() == 0);
    assert(rest1.nodes[fin as int] == Node::Finish);
    assert(trace[2] == react_spec(rest1, fin, out).unwrap());
    assert(trace[2].result == Some(out));
    if trace.len() > 3 {
        assert(trace[2].current.len() > 0);
    }
    assert(trace.len() == 3);
    assert(m2.result == Some(out));
}

/// The fresh value of an emitted signal combines, from the signal's default
/// value and in the order of emission, every value emitted on it in the
/// instant (a pure signal's is `()`).
pub proof fn law_gather_folds<F: Fn(usize, Value) -> Value>(
    f: F,
    m: RuntimeModel,
    fresh: Seq<Option<Value>>,
    s: usize,
)
    requires
        fresh_ok(f, m, fresh),
        s < m.configs.len(),
        emissions_of(m.emitted, s).len() > 0,
    ensures
        fresh[s as int] matches Some(x) && gathered(f, m.configs[s as int], emissions_of(m.emitted, s), x),
{
    assert(fresh[s as int] is Some <==> emissions_of(m.emitted, s).len() > 0);
}


/// A compiled `BigPar` of `ps`, started on `v`, starts every branch on its
/// own copy of `v`; every branch ends at one shared join node of size
/// `ps.len()`, which, counting from zero, goes on to `next` with `()` exactly
/// once: at the last branch's end, and never before.
pub proof fn law_big_par(m: RuntimeModel, ps: Vec<Process>, entry: usize, next: usize, v: Value)
    requires
        m.wf(),
        implements(m.nodes, Process::BigPar(BigPar(ps)), entry, next),
        ps@.len() > 0,
    ensures
        m.nodes[entry as int] matches Node::BigFork { dests } && dests@.len() == ps@.len()
            && react_spec(m, entry, v) == Ok::<RuntimeModel, Fault>(
            RuntimeModel {
                current: m.current + Seq::new(dests@.len(), |i: int| (dests@[i], v)),
                ..m
            },
        ) && exists|bj: usize|
            #![trigger m.nodes[bj as int]]
            bj < m.nodes.len() && m.nodes[bj as int] == (Node::BigJoin {
                size: ps.len(),
                next,
            }) && (forall|i: int|
                0 <= i < ps@.len() ==> implements(m.nodes, #[trigger] ps@[i], dests@[i], bj)) && (
            m.arrived[bj as int] == 0 ==> (forall|j: nat|
                j < ps@.len() ==> #[trigger] arrivals(m, bj, j) == m.set_arrived(bj, j as usize))
                && arrivals(m, bj, ps@.len()) == m.run_now(next, Value::Unit)),
{
    let dests = m.nodes[entry as int]->dests;
    let bj = choose|bj: usize|
        #![trigger m.nodes[bj as int]]
        bj < m.nodes.len() && m.nodes[bj as int] == Node::BigJoin { size: ps.len(), next }
            && forall|i: int| 0 <= i < ps@.len() ==> implements(m.nodes, #[trigger] ps@[i], dests@[i], bj);
    if m.arrived[bj as int] == 0 {
        assert forall|j: nat| j < ps@.len() implies #[trigger] arrivals(m, bj, j) == m.set_arrived(
            bj,
            j as usize,
        ) by {
            law_big_join(m, bj, j);
        }
        law_big_join(m, bj, ps@.len());
    }
}

/// A compiled `Par` of `a` and `b`, started on `(x, y)`, starts `a` on `x`
/// and `b` on `y`; `a` ends at the left and `b` at the right side of one join
/// whose slot is the left side's node, and, from an empty slot, the two
/// sides' results `ra` and `rb` go on to `next` as the pair `(ra, rb)`,
/// whichever side ends first, leaving the slot empty.
pub proof fn law_par(
    m: RuntimeModel,
    a: Process,
    b: Process,
    entry: usize,
    next: usize,
    x: Value,
    y: Value,
    ra: Value,
    rb: Value,
)
    requires
        m.wf(),
        implements(m.nodes, Process::Par(Par(Box::new(a), Box::new(b))), entry, next),
    ensures
        m.nodes[entry as int] matches Node::Fork { left, right } && react_spec(
            m,
            entry,
            Value::Pair(Box::new(x), Box::new(y)),
        ) == Ok::<RuntimeModel, Fault>(m.run_now(right, y).run_now(left, x)) && exists|
            jl: usize,
            jr: usize,
        |
            #![trigger m.nodes[jl as int], m.nodes[jr as int]]
            implements(m.nodes, a, left, jl) && implements(m.nodes, b, right, jr) && jl
                < m.nodes.len() && jr < m.nodes.len() && (m.slots[jl as int] == (
            None::<Value>,
            None::<Value>,
            ) ==> {
                let pair = Value::Pair(Box::new(ra), Box::new(rb));
                &&& react_spec(react_spec(m, jl, ra).unwrap(), jr, rb).unwrap() == m.run_now(
                    next,
                    pair,
                )
                &&& react_spec(react_spec(m, jr, rb).unwrap(), jl, ra).unwrap() == m.run_now(
                    next,
                    pair,
                )
            }),
{
    let left = m.nodes[entry as int]->left;
    let right = m.nodes[entry as int]->right;
    let (jl, jr) = choose|jl: usize, jr: usize|
        #![trigger m.nodes[jl as int], m.nodes[jr as int]]
        jl < m.nodes.len() && jr < m.nodes.len() && m.nodes[jl as int] == Node::Join {
            slot: jl,
            left_side: true,
            next,
        } && m.nodes[jr as int] == Node::Join { slot: jl, left_side: false, next } && implements(
            m.nodes,
            a,
            left,
            jl,
        ) && implements(m.nodes, b, right, jr);
    if m.slots[jl as int] == (None::<Value>, None::<Value>) {
        law_join_pair(m, jl, jr, next, ra, rb);
    }
}


/// One move of a runtime: a thread runs one step, or, when no thread is left
/// in the instant, the instant closes.
pub open spec fn moves<F: Fn(usize, Value) -> Value>(
    f: F,
    m: RuntimeModel,
    m2: RuntimeModel,
) -> bool {
    ||| (m.current.len() > 0 && step_rel(f, m, Ok(()), m2))
    ||| (m.current.len() == 0 && exists|fresh: Seq<Option<Value>>|
        #![trigger fresh_ok(f, m, fresh)]
        fresh_ok(f, m, fresh) && m2 == close_spec(m, fresh))
}

/// The next move of `m` runs a thread at node `n`.
pub open spec fn arrives(m: RuntimeModel, n: usize) -> bool {
    m.current.len() > 0 && m.current.last().0 == n
}

/// How many of the first `i` moves of `tr` run a thread at node `n`.
pub open spec fn arrivals_before(tr: Seq<RuntimeModel>, n: usize, i: int) -> nat
    decreases i,
{
    if i <= 0 {
        0
    } else {
        arrivals_before(tr, n, i - 1) + if arrives(tr[i - 1], n) {
            1nat
        } else {
            0nat
        }
    }
}

proof fn lemma_count_mod(c: nat, size: nat)
    requires
        size > 0,
    ensures
        (c % size) + 1 == size ==> (c + 1) % size == 0,
        (c % size) + 1 != size ==> (c + 1) % size == (c % size) + 1,
{
    let q = c as int / size as int;
    let r = c as int % size as int;
    vstd::arithmetic::div_mod::lemma_fundamental_div_mod(c as int, size as int);
    assert(c == q * size + r) by (nonlinear_arith)
        requires
            c as int == size * q + r,
    ;
    if r + 1 == size {
        assert(c + 1 == (q + 1) * size + 0) by (nonlinear_arith)
            requires
                c == q * size + r,
                r + 1 == size,
        ;
        vstd::arithmetic::div_mod::lemma_fundamental_div_mod_converse(
            c + 1 as int,
            size as int,
            q + 1,
            0,
        );
    } else {
        vstd::arithmetic::div_mod::lemma_fundamental_div_mod_converse(
            c + 1 as int,
            size as int,
            q,
            r + 1,
        );
    }
}

/// One move keeps the invariant and the program; it changes the count of
/// the `BigJoin` node `bj` only when it runs a thread at `bj`, and then as
/// `law_big_join` says.
proof fn lemma_move<F: Fn(usize, Value) -> Value>(
    f: F,
    m: RuntimeModel,
    m2: RuntimeModel,
    bj: usize,
    size: usize,
    next: usize,
)
    requires
        m.wf(),
        bj < m.nodes.len(),
        m.nodes[bj as int] == (Node::BigJoin { size, next }),
        moves(f, m, m2),
    ensures
        m2.wf(),
        m2.nodes == m.nodes,
        !arrives(m, bj) ==> m2.arrived[bj as int] == m.arrived[bj as int],
        arrives(m, bj) && m.arrived[bj as int] + 1 >= size ==> m2.arrived[bj as int] == 0
            && m2.current == m.current.drop_last().push((next, Value::Unit)),
        arrives(m, bj) && m.arrived[bj as int] + 1 < size ==> m2.arrived[bj as int]
            == m.arrived[bj as int] + 1 && m2.current == m.current.drop_last(),
{
    if m.current.len() > 0 {
        let (n, v) = m.current.last();
        let rest = m.pop_current();
        assert(m.current[m.current.len() - 1].0 < m.nodes.len());
        assert(rest.wf()) by {
            assert forall|i: int| 0 <= i < rest.current.len() implies #[trigger] rest.current[i].0
                < rest.nodes.len() by {
                assert(rest.current[i] == m.current[i]);
            }
        }
        assert(crate::graph::node_ok(rest.nodes[n as int], rest.nodes.len()));
        if let Node::Act { action, next: an } = rest.nodes[n as int] {
            let out = choose|out: Value|
                #![trigger call_ensures(f, (action, v), out)]
                call_ensures(f, (action, v), out) && m2 == rest.run_now(an, out);
            assert forall|i: int| 0 <= i < m2.current.len() implies #[trigger] m2.current[i].0
                < m2.nodes.len() by {
                if i < rest.current.len() {
                    assert(m2.current[i] == rest.current[i]);
                }
            }
        } else {
            crate::model::lemma_react_wf(rest, n, v);
        }
    } else {
        let fresh = choose|fresh: Seq<Option<Value>>|
            #![trigger fresh_ok(f, m, fresh)]
            fresh_ok(f, m, fresh) && m2 == close_spec(m, fresh);
        crate::model::lemma_close_wf(m, fresh);
    }
}

/// The conditions of `law_big_join_over_run`.
pub open spec fn join_run<F: Fn(usize, Value) -> Value>(
    f: F,
    tr: Seq<RuntimeModel>,
    bj: usize,
) -> bool {
    &&& tr.len() > 0
    &&& tr[0].wf()
    &&& bj < tr[0].nodes.len()
    &&& tr[0].nodes[bj as int] matches Node::BigJoin { size, .. } && size > 0
    &&& tr[0].arrived[bj as int] == 0
    &&& forall|i: int| #![trigger tr[i]] 0 <= i < tr.len() - 1 ==> moves(f, tr[i], tr[i + 1])
}

proof fn lemma_join_counts<F: Fn(usize, Value) -> Value>(
    f: F,
    tr: Seq<RuntimeModel>,
    bj: usize,
    i: int,
)
    requires
        join_run(f, tr, bj),
        0 <= i < tr.len(),
    ensures
        tr[i].wf(),
        tr[i].nodes == tr[0].nodes,
        tr[i].arrived[bj as int] == arrivals_before(tr, bj, i) % (
        tr[0].nodes[bj as int]->size as nat),
    decreases i,
{
    let size = tr[0].nodes[bj as int]->size;
    let next = tr[0].nodes[bj as int]->BigJoin_next;
    if i == 0 {
        vstd::arithmetic::div_mod::lemma_small_mod(0, size as nat);
    } else {
        lemma_join_counts(f, tr, bj, i - 1);
        assert(moves(f, tr[i - 1], tr[i]));
        lemma_move(f, tr[i - 1], tr[i], bj, size, next);
        lemma_count_mod(arrivals_before(tr, bj, i - 1), size as nat);
    }
}

proof fn lemma_join_arrival<F: Fn(usize, Value) -> Value>(
    f: F,
    tr: Seq<RuntimeModel>,
    bj: usize,
    i: int,
)
    requires
        join_run(f, tr, bj),
        0 <= i < tr.len() - 1,
        arrives(tr[i], bj),
    ensures
        ({
            let size = tr[0].nodes[bj as int]->size;
            let next = tr[0].nodes[bj as int]->BigJoin_next;
            &&& tr[i + 1].current == if arrivals_before(tr, bj, i + 1) % (size as nat) == 0 {
                tr[i].current.drop_last().push((next, Value::Unit))
            } else {
                tr[i].current.drop_last()
            }
            &&& arrivals_before(tr, bj, i + 1) <= size ==> (tr[i + 1].current
                == tr[i].current.drop_last().push((next, Value::Unit)) <==> arrivals_before(
                tr,
                bj,
                i + 1,
            ) == size)
        }),
{
    let size = tr[0].nodes[bj as int]->size;
    let next = tr[0].nodes[bj as int]->BigJoin_next;
    lemma_join_counts(f, tr, bj, i);
    assert(moves(f, tr[i], tr[i + 1]));
    lemma_move(f, tr[i], tr[i + 1], bj, size, next);
    let c = arrivals_before(tr, bj, i);
    lemma_count_mod(c, size as nat);
    let c1 = arrivals_before(tr, bj, i + 1);
    assert(c1 == c + 1);
    if c1 <= size {
        assert(tr[i].current.drop_last().push((next, Value::Unit)).len()
            != tr[i].current.drop_last().len());
        if c1 < size {
            vstd::arithmetic::div_mod::lemma_small_mod(c1, size as nat);
        } else {
            vstd::arithmetic::div_mod::lemma_mod_self_0(size as int);
        }
    }
}

/// Over any run of moves (steps of threads and ends of instants) from a
/// zero count, a `BigJoin` node of size `size` counts, modulo `size`, the
/// threads that arrived at it; a thread that arrives is dropped, and the
/// continuation is started on `()`, in the same instant, exactly when the
/// arrivals reach a multiple of `size`.  So when the branches of a `BigPar`
/// each arrive once, the continuation starts exactly once, in the instant and
/// at the step at which the last branch arrives, and never before.
pub proof fn law_big_join_over_run<F: Fn(usize, Value) -> Value>(
    f: F,
    tr: Seq<RuntimeModel>,
    bj: usize,
)
    requires
        join_run(f, tr, bj),
    ensures
        ({
            let size = tr[0].nodes[bj as int]->size;
            let next = tr[0].nodes[bj as int]->BigJoin_next;
            &&& forall|i: int|
                #![trigger tr[i]]
                0 <= i < tr.len() ==> tr[i].wf() && tr[i].nodes == tr[0].nodes && tr[i].arrived[bj as int]
                    == arrivals_before(tr, bj, i) % (size as nat)
            &&& forall|i: int|
                #![trigger tr[i]]
                0 <= i < tr.len() - 1 && arrives(tr[i], bj) ==> tr[i + 1].current == if arrivals_before(
                    tr,
                    bj,
                    i + 1,
                ) % (size as nat) == 0 {
                    tr[i].current.drop_last().push((next, Value::Unit))
                } else {
                    tr[i].current.drop_last()
                }
            &&& forall|i: int|
                #![trigger tr[i]]
                0 <= i < tr.len() - 1 && arrives(tr[i], bj) && arrivals_before(tr, bj, i + 1)
                    <= size ==> (tr[i + 1].current == tr[i].current.drop_last().push(
                    (next, Value::Unit),
                ) <==> arrivals_before(tr, bj, i + 1) == size)
        }),
{
    let size = tr[0].nodes[bj as int]->size;
    let next = tr[0].nodes[bj as int]->BigJoin_next;
    assert forall|i: int|
        #![trigger tr[i]]
        0 <= i < tr.len() implies tr[i].wf() && tr[i].nodes == tr[0].nodes && tr[i].arrived[bj as int]
        == arrivals_before(tr, bj, i) % (size as nat) by {
        lemma_join_counts(f, tr, bj, i);
    }
    assert forall|i: int|
        #![trigger tr[i]]
        0 <= i < tr.len() - 1 && arrives(tr[i], bj) implies tr[i + 1].current
        == if arrivals_before(tr, bj, i + 1) % (size as nat) == 0 {
        tr[i].current.drop_last().push((next, Value::Unit))
    } else {
        tr[i].current.drop_last()
    } && (arrivals_before(tr, bj, i + 1) <= size ==> (tr[i + 1].current
        == tr[i].current.drop_last().push((next, Value::Unit)) <==> arrivals_before(
        tr,
        bj,
        i + 1,
    ) == size)) by {
        lemma_join_arrival(f, tr, bj, i);
    }
}


/// An instant is a run of moves: its threads' steps, then its end.
pub proof fn law_instant_is_run<F: Fn(usize, Value) -> Value>(
    f: F,
    m: RuntimeModel,
    m2: RuntimeModel,
)
    requires
        instant_rel(f, m, m2),
    ensures
        exists|tr: Seq<RuntimeModel>|
            #![trigger tr.last()]
            tr.len() >= 2 && tr[0] == m && tr.last() == m2 && forall|i: int|
                #![trigger tr[i]]
                0 <= i < tr.len() - 1 ==> moves(f, tr[i], tr[i + 1]),
{
    reveal(instant_rel);
    let (trace, fresh) = choose|trace: Seq<RuntimeModel>, fresh: Seq<Option<Value>>|
        #![trigger runs(f, trace), fresh_ok(f, trace.last(), fresh)]
        runs(f, trace) && trace[0] == m && trace.last().current.len() == 0 && fresh_ok(
            f,
            trace.last(),
            fresh,
        ) && m2 == close_spec(trace.last(), fresh);
    let tr = trace.push(m2);
    assert forall|i: int| #![trigger tr[i]] 0 <= i < tr.len() - 1 implies moves(f, tr[i], tr[i + 1]) by {
        if i < trace.len() - 1 {
            assert(tr[i] == trace[i] && tr[i + 1] == trace[i + 1]);
            assert(trace[i].current.len() > 0 && step_rel(f, trace[i], Ok(()), trace[i + 1]));
        } else {
            assert(tr[i] == trace.last() && tr[i + 1] == m2);
            assert(fresh_ok(f, trace.last(), fresh));
        }
    }
    assert(tr.last() == m2);
}


/// The conditions of `law_join_over_run`: the two join nodes of a parallel
/// composition (no other node of a well-formed program uses their slot), an
/// empty slot at the start,
/// a run of moves, and at most one arrival of each side.
pub open spec fn join_pair_run<F: Fn(usize, Value) -> Value>(
    f: F,
    tr: Seq<RuntimeModel>,
    jl: usize,
    jr: usize,
    next: usize,
) -> bool {
    &&& tr.len() > 0
    &&& tr[0].wf()
    &&& jl < tr[0].nodes.len()
    &&& jr < tr[0].nodes.len()
    &&& jl != jr
    &&& tr[0].nodes[jl as int] == (Node::Join { slot: jl, left_side: true, next })
    &&& tr[0].nodes[jr as int] == (Node::Join { slot: jl, left_side: false, next })
    &&& tr[0].slots[jl as int] == (None::<Value>, None::<Value>)
    &&& forall|i: int| #![trigger tr[i]] 0 <= i < tr.len() - 1 ==> moves(f, tr[i], tr[i + 1])
    &&& arrivals_before(tr, jl, tr.len() - 1) <= 1
    &&& arrivals_before(tr, jr, tr.len() - 1) <= 1
}

proof fn lemma_arrivals_monotone(tr: Seq<RuntimeModel>, n: usize, i: int, j: int)
    requires
        i <= j,
    ensures
        arrivals_before(tr, n, i) <= arrivals_before(tr, n, j),
    decreases j - i,
{
    if i < j {
        lemma_arrivals_monotone(tr, n, i, j - 1);
    }
}

/// One move keeps the invariant and the program, and changes the slot of a
/// join only by a thread that arrives at one of its two nodes.
proof fn lemma_move_join<F: Fn(usize, Value) -> Value>(
    f: F,
    m: RuntimeModel,
    m2: RuntimeModel,
    jl: usize,
    jr: usize,
    next: usize,
)
    requires
        m.wf(),
        jl < m.nodes.len(),
        jr < m.nodes.len(),
        jl != jr,
        m.nodes[jl as int] == (Node::Join { slot: jl, left_side: true, next }),
        m.nodes[jr as int] == (Node::Join { slot: jl, left_side: false, next }),
        moves(f, m, m2),
    ensures
        m2.wf(),
        m2.nodes == m.nodes,
        !arrives(m, jl) && !arrives(m, jr) ==> m2.slots[jl as int] == m.slots[jl as int],
        arrives(m, jl) ==> ({
            let v = m.current.last().1;
            match m.slots[jl as int].1 {
                Some(rv) => m2.slots[jl as int] == (None::<Value>, None::<Value>) && m2.current
                    == m.current.drop_last().push((next, Value::Pair(Box::new(v), Box::new(rv)))),
                None => m2.slots[jl as int] == (Some(v), None::<Value>) && m2.current
                    == m.current.drop_last(),
            }
        }),
        arrives(m, jr) ==> ({
            let v = m.current.last().1;
            match m.slots[jl as int].0 {
                Some(lv) => m2.slots[jl as int] == (None::<Value>, None::<Value>) && m2.current
                    == m.current.drop_last().push((next, Value::Pair(Box::new(lv), Box::new(v)))),
                None => m2.slots[jl as int] == (None::<Value>, Some(v)) && m2.current
                    == m.current.drop_last(),
            }
        }),
{
    if m.current.len() > 0 {
        let (n, v) = m.current.last();
        let rest = m.pop_current();
        assert(m.current[m.current.len() - 1].0 < m.nodes.len());
        assert(rest.wf()) by {
            assert forall|i: int| 0 <= i < rest.current.len() implies #[trigger] rest.current[i].0
                < rest.nodes.len() by {
                assert(rest.current[i] == m.current[i]);
            }
        }
        assert(crate::graph::node_ok(rest.nodes[n as int], rest.nodes.len()));
        if let Node::Act { action, next: an } = rest.nodes[n as int] {
            let out = choose|out: Value|
                #![trigger call_ensures(f, (action, v), out)]
                call_ensures(f, (action, v), out) && m2 == rest.run_now(an, out);
            assert forall|i: int| 0 <= i < m2.current.len() implies #[trigger] m2.current[i].0
                < m2.nodes.len() by {
                if i < rest.current.len() {
                    assert(m2.current[i] == rest.current[i]);
                }
            }
        } else {
            crate::model::lemma_react_wf(rest, n, v);
            if n != jl && n != jr {
                crate::graph::lemma_slot_owners(m.nodes, jl, jr, next, n as int);
            }
        }
    } else {
        let fresh = choose|fresh: Seq<Option<Value>>|
            #![trigger fresh_ok(f, m, fresh)]
            fresh_ok(f, m, fresh) && m2 == close_spec(m, fresh);
        crate::model::lemma_close_wf(m, fresh);
    }
}

proof fn lemma_join_pair_state<F: Fn(usize, Value) -> Value>(
    f: F,
    tr: Seq<RuntimeModel>,
    jl: usize,
    jr: usize,
    next: usize,
    i: int,
)
    requires
        join_pair_run(f, tr, jl, jr, next),
        0 <= i < tr.len(),
    ensures
        tr[i].wf(),
        tr[i].nodes == tr[0].nodes,
        (tr[i].slots[jl as int].0 is Some) == (arrivals_before(tr, jl, i) == 1 && arrivals_before(
            tr,
            jr,
            i,
        ) == 0),
        (tr[i].slots[jl as int].1 is Some) == (arrivals_before(tr, jr, i) == 1 && arrivals_before(
            tr,
            jl,
            i,
        ) == 0),
    decreases i,
{
    if i > 0 {
        lemma_join_pair_state(f, tr, jl, jr, next, i - 1);
        assert(moves(f, tr[i - 1], tr[i]));
        lemma_move_join(f, tr[i - 1], tr[i], jl, jr, next);
        lemma_arrivals_monotone(tr, jl, i, tr.len() - 1);
        lemma_arrivals_monotone(tr, jr, i, tr.len() - 1);
        if arrives(tr[i - 1], jl) {
            assert(!arrives(tr[i - 1], jr));
        }
    }
}

/// Over any run of moves (steps of threads and ends of instants) from an
/// empty slot, in which each side of a parallel composition arrives at its
/// join node at most once: the slot holds a side's result exactly while that
/// side has arrived and the other has not; an arrival of the first side only
/// stores its result, and the arrival of the second side starts the
/// continuation, in the same instant, on the pair `(left, right)` and empties
/// the slot.  So the continuation starts exactly once, in the instant and at
/// the step at which the later side ends, and never before.
pub proof fn law_join_over_run<F: Fn(usize, Value) -> Value>(
    f: F,
    tr: Seq<RuntimeModel>,
    jl: usize,
    jr: usize,
    next: usize,
)
    requires
        join_pair_run(f, tr, jl, jr, next),
    ensures
        forall|i: int|
            #![trigger tr[i]]
            0 <= i < tr.len() ==> tr[i].wf() && tr[i].nodes == tr[0].nodes && (tr[i].slots[jl as int].0 is Some)
                == (arrivals_before(tr, jl, i) == 1 && arrivals_before(tr, jr, i) == 0) && (
            tr[i].slots[jl as int].1 is Some) == (arrivals_before(tr, jr, i) == 1
                && arrivals_before(tr, jl, i) == 0),
        forall|i: int|
            #![trigger tr[i]]
            0 <= i < tr.len() - 1 && arrives(tr[i], jl) ==> tr[i + 1].current == if arrivals_before(
                tr,
                jr,
                i,
            ) == 1 {
                tr[i].current.drop_last().push(
                    (
                        next,
                        Value::Pair(
                            Box::new(tr[i].current.last().1),
                            Box::new(tr[i].slots[jl as int].1->0),
                        ),
                    ),
                )
            } else {
                tr[i].current.drop_last()
            },
        forall|i: int|
            #![trigger tr[i]]
            0 <= i < tr.len() - 1 && arrives(tr[i], jr) ==> tr[i + 1].current == if arrivals_before(
                tr,
                jl,
                i,
            ) == 1 {
                tr[i].current.drop_last().push(
                    (
                        next,
                        Value::Pair(
                            Box::new(tr[i].slots[jl as int].0->0),
                            Box::new(tr[i].current.last().1),
                        ),
                    ),
                )
            } else {
                tr[i].current.drop_last()
            },
{
    assert forall|i: int|
        #![trigger tr[i]]
        0 <= i < tr.len() implies tr[i].wf() && tr[i].nodes == tr[0].nodes && (tr[i].slots[jl as int].0 is Some)
        == (arrivals_before(tr, jl, i) == 1 && arrivals_before(tr, jr, i) == 0) && (
    tr[i].slots[jl as int].1 is Some) == (arrivals_before(tr, jr, i) == 1 && arrivals_before(
        tr,
        jl,
        i,
    ) == 0) by {
        lemma_join_pair_state(f, tr, jl, jr, next, i);
    }
    assert forall|i: int|
        #![trigger tr[i]]
        0 <= i < tr.len() - 1 && arrives(tr[i], jl) implies tr[i + 1].current
        == if arrivals_before(tr, jr, i) == 1 {
        tr[i].current.drop_last().push(
            (
                next,
                Value::Pair(
                    Box::new(tr[i].current.last().1),
                    Box::new(tr[i].slots[jl as int].1->0),
                ),
            ),
        )
    } else {
        tr[i].current.drop_last()
    } by {
        lemma_join_pair_state(f, tr, jl, jr, next, i);
        assert(moves(f, tr[i], tr[i + 1]));
        lemma_move_join(f, tr[i], tr[i + 1], jl, jr, next);
        lemma_arrivals_monotone(tr, jl, i + 1, tr.len() - 1);
    }
    assert forall|i: int|
        #![trigger tr[i]]
        0 <= i < tr.len() - 1 && arrives(tr[i], jr) implies tr[i + 1].current
        == if arrivals_before(tr, jl, i) == 1 {
        tr[i].current.drop_last().push(
            (
                next,
                Value::Pair(
                    Box::new(tr[i].slots[jl as int].0->0),
                    Box::new(tr[i].current.last().1),
                ),
            ),
        )
    } else {
        tr[i].current.drop_last()
    } by {
        lemma_join_pair_state(f, tr, jl, jr, next, i);
        assert(moves(f, tr[i], tr[i + 1]));
        lemma_move_join(f, tr[i], tr[i + 1], jl, jr, next);
        lemma_arrivals_monotone(tr, jr, i + 1, tr.len() - 1);
    }
}

} // verus!
