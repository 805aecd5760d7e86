use vstd::prelude::*;
use crate::value::Value;
use crate::graph::{Node, nodes_wf};
use crate::emission::{await_spec, emit_spec};

verus! {

/// How a signal combines the values emitted on it during an instant.
#[derive(Debug)]
pub struct SignalConfig {
    /// The value the combination starts from at each instant.
    pub default: Value,
    /// How each emitted value is combined with the value combined so far.
    pub gather: Gather,
}

/// How a signal combines each value emitted on it with the value `acc`
/// combined so far.
#[derive(Debug, PartialEq, Eq)]
pub enum Gather {
    /// A pure signal: its value is always `()`.
    Pure,
    /// The user action with this number receives `(e, acc)` and returns the
    /// new value.
    Action(usize),
    /// Each emission adds one to `acc` (see `count_step`).
    Count,
}

/// One emission on a counting signal: an integer below `i64::MAX` grows by
/// one; any other value stays.
pub open spec fn count_step(v: Value) -> Value {
    match v {
        Value::Int(a) => if a < i64::MAX {
            Value::Int((a + 1) as i64)
        } else {
            Value::Int(a)
        },
        _ => v,
    }
}

/// The value of a counting signal after `n` emissions from `init`.
pub open spec fn counted(init: Value, n: nat) -> Value
    decreases n,
{
    if n == 0 {
        init
    } else {
        count_step(counted(init, (n - 1) as nat))
    }
}

/// A thread suspended until a signal is emitted.
#[derive(Debug)]
pub struct Waiter {
    pub signal: usize,
    /// The value kept to be passed on beside the signal's value, if any.
    pub carried: Option<Value>,
    /// The node at which the thread goes on.
    pub next: usize,
}

/// Why an instant stopped before its end.
#[derive(Debug, PartialEq, Eq)]
pub enum Fault {
    /// The value that reached this node has the wrong shape for it, or names
    /// no signal of the runtime.
    Mismatch(usize),
    /// The instant ran more reactions than a `u64` counts.
    Overrun,
}

/// The state of a runtime.
#[verifier::ext_equal]
pub struct RuntimeModel {
    /// The compiled program.
    pub nodes: Seq<Node>,
    /// For each node that starts the left side of a parallel join: the results
    /// that arrived so far from the left and the right side.
    pub slots: Seq<(Option<Value>, Option<Value>)>,
    /// For each `BigJoin` node: the branches that ended so far.
    pub arrived: Seq<usize>,
    pub configs: Seq<SignalConfig>,
    /// For each signal: its value at the end of the last instant in which it
    /// was emitted, or its default value.
    pub pres: Seq<Value>,
    /// The threads still to run in this instant: a node and its input.
    pub current: Seq<(usize, Value)>,
    /// The threads that run at the next instant.
    pub next: Seq<(usize, Value)>,
    pub waiting: Seq<Waiter>,
    /// The emissions of this instant, in order.
    pub emitted: Seq<(usize, Value)>,
    /// The result of the last spawned process that ended.
    pub result: Option<Value>,
}

impl RuntimeModel {
    pub open spec fn run_now(self, node: usize, v: Value) -> RuntimeModel {
        RuntimeModel { current: self.current.push((node, v)), ..self }
    }

    pub open spec fn run_later(self, node: usize, v: Value) -> RuntimeModel {
        RuntimeModel { next: self.next.push((node, v)), ..self }
    }

    pub open spec fn set_slot(self, i: usize, s: (Option<Value>, Option<Value>)) -> RuntimeModel {
        RuntimeModel { slots: self.slots.update(i as int, s), ..self }
    }

    pub open spec fn set_arrived(self, i: usize, a: usize) -> RuntimeModel {
        RuntimeModel { arrived: self.arrived.update(i as int, a), ..self }
    }

    /// The state with the last thread to run taken off.
    pub open spec fn pop_current(self) -> RuntimeModel {
        RuntimeModel { current: self.current.drop_last(), ..self }
    }

    /// The invariant of a runtime.
    pub open spec fn wf(self) -> bool {
        &&& nodes_wf(self.nodes)
        &&& self.slots.len() == self.nodes.len()
        &&& self.arrived.len() == self.nodes.len()
        &&& forall|i: int| 0 <= i < self.arrived.len() ==> #[trigger] self.arrived[i] < usize::MAX
        &&& self.pres.len() == self.configs.len()
        &&& forall|i: int| 0 <= i < self.current.len() ==> #[trigger] self.current[i].0 < self.nodes.len()
        &&& forall|i: int| 0 <= i < self.next.len() ==> #[trigger] self.next[i].0 < self.nodes.len()
        &&& forall|i: int|
            0 <= i < self.waiting.len() ==> #[trigger] self.waiting[i].next < self.nodes.len()
                && self.waiting[i].signal < self.configs.len()
        &&& forall|i: int|
            0 <= i < self.emitted.len() ==> #[trigger] self.emitted[i].0 < self.configs.len()
    }
}

/// Every emission of `es` names a signal below `n`.
pub open spec fn signals_below(es: Seq<(usize, Value)>, n: nat) -> bool {
    forall|i: int| 0 <= i < es.len() ==> #[trigger] es[i].0 < n
}

/// What a resumed waiter passes on.
pub open spec fn resume_output(value: Value, carried: Option<Value>) -> Value {
    match carried {
        None => value,
        Some(w) => Value::Pair(Box::new(value), Box::new(w)),
    }
}

/// What a thread at node `n` with input `v` does, for every node but a user
/// action: the new state, or the fault.  `m` is the state once the thread is
/// taken off.
pub open spec fn react_spec(m: RuntimeModel, n: usize, v: Value) -> Result<RuntimeModel, Fault> {
    match m.nodes[n as int] {
        Node::Hole => Ok(m),
        Node::Finish => Ok(RuntimeModel { result: Some(v), ..m }),
        Node::Act { action, next } => Ok(m),
        Node::Pause { next } => Ok(m.run_later(next, v)),
        Node::Choice { if_true, if_false } => match v {
            Value::True(x) => Ok(m.run_now(if_true, *x)),
            Value::False(x) => Ok(m.run_now(if_false, *x)),
            _ => Err(Fault::Mismatch(n)),
        },
        Node::LoopTest { body, exit } => match v {
            Value::True(x) => Ok(m.run_now(body, *x)),
            Value::False(x) => Ok(m.run_now(exit, *x)),
            _ => Err(Fault::Mismatch(n)),
        },
        Node::Fork { left, right } => match v {
            Value::Pair(a, b) => Ok(m.run_now(right, *b).run_now(left, *a)),
            _ => Err(Fault::Mismatch(n)),
        },
        Node::Join { slot, left_side, next } => {
            let (l, r) = m.slots[slot as int];
            if left_side {
                match r {
                    Some(rv) => Ok(
                        m.set_slot(slot, (None, None)).run_now(
                            next,
                            Value::Pair(Box::new(v), Box::new(rv)),
                        ),
                    ),
                    None => Ok(m.set_slot(slot, (Some(v), None))),
                }
            } else {
                match l {
                    Some(lv) => Ok(
                        m.set_slot(slot, (None, None)).run_now(
                            next,
                            Value::Pair(Box::new(lv), Box::new(v)),
                        ),
                    ),
                    None => Ok(m.set_slot(slot, (None, Some(v)))),
                }
            }
        },
        Node::BigFork { dests } => Ok(
            RuntimeModel {
                current: m.current + Seq::new(dests@.len(), |i: int| (dests@[i], v)),
                ..m
            },
        ),
        Node::BigJoin { size, next } => {
            let a = m.arrived[n as int];
            if a + 1 >= size {
                Ok(m.set_arrived(n, 0).run_now(next, Value::Unit))
            } else {
                Ok(m.set_arrived(n, (a + 1) as usize))
            }
        },
        Node::Emit { kind, next } => match emit_spec(kind, v) {
            Some((es, out)) => if signals_below(es, m.configs.len()) {
                Ok(RuntimeModel { emitted: m.emitted + es, ..m }.run_now(next, out))
            } else {
                Err(Fault::Mismatch(n))
            },
            None => Err(Fault::Mismatch(n)),
        },
        Node::Await { kind, next } => match await_spec(kind, v) {
            Some((s, carried)) => if s < m.configs.len() {
                Ok(
                    RuntimeModel {
                        waiting: m.waiting.push(Waiter { signal: s, carried, next }),
                        ..m
                    },
                )
            } else {
                Err(Fault::Mismatch(n))
            },
            None => Err(Fault::Mismatch(n)),
        },
        Node::Pre { signal, next } => if signal < m.configs.len() {
            Ok(m.run_now(next, Value::Pair(Box::new(v), Box::new(m.pres[signal as int]))))
        } else {
            Err(Fault::Mismatch(n))
        },
    }
}

/// A reaction keeps the invariant.
pub proof fn lemma_react_wf(m: RuntimeModel, n: usize, v: Value)
    requires
        m.wf(),
        n < m.nodes.len(),
    ensures
        react_spec(m, n, v) matches Ok(m2) ==> m2.wf() && m2.nodes == m.nodes && m2.configs
            == m.configs,
{
    assert(crate::graph::node_ok(m.nodes[n as int], m.nodes.len()));
    match react_spec(m, n, v) {
        Ok(m2) => {
            if let Node::BigFork { dests } = m.nodes[n as int] {
                assert forall|i: int| 0 <= i < m2.current.len() implies #[trigger] m2.current[i].0
                    < m2.nodes.len() by {
                    if i >= m.current.len() {
                        assert(m2.current[i] == (dests@[i - m.current.len()], v));
                    }
                }
            }
            if let Node::Emit { kind, next } = m.nodes[n as int] {
                if let Some((es, out)) = emit_spec(kind, v) {
                    assert forall|i: int| 0 <= i < m2.emitted.len() implies #[trigger] m2.emitted[i].0
                        < m2.configs.len() by {
                        if i >= m.emitted.len() {
                            assert(m2.emitted[i] == es[i - m.emitted.len()]);
                        }
                    }
                }
            }
        },
        Err(_) => {},
    }
}


/// The values emitted on signal `s` in `es`, in order.
pub open spec fn emissions_of(es: Seq<(usize, Value)>, s: usize) -> Seq<Value>
    decreases es.len(),
{
    if es.len() == 0 {
        Seq::empty()
    } else {
        let rest = emissions_of(es.drop_last(), s);
        if es.last().0 == s {
            rest.push(es.last().1)
        } else {
            rest
        }
    }
}

/// `out` is a possible result of combining `es`, in order, into `init` with
/// the user action `k` of `f`.
pub open spec fn folded<F: Fn(usize, Value) -> Value>(
    f: F,
    k: usize,
    init: Value,
    es: Seq<Value>,
    out: Value,
) -> bool
    decreases es.len(),
{
    if es.len() == 0 {
        out == init
    } else {
        exists|acc: Value|
            #![trigger call_ensures(f, (k, Value::Pair(Box::new(es.last()), Box::new(acc))), out)]
            folded(f, k, init, es.drop_last(), acc) && call_ensures(
                f,
                (k, Value::Pair(Box::new(es.last()), Box::new(acc))),
                out,
            )
    }
}

/// `x` is a possible value of a signal configured by `cfg` on which the
/// values `es` were emitted, in this order, in an instant.
pub open spec fn gathered<F: Fn(usize, Value) -> Value>(
    f: F,
    cfg: SignalConfig,
    es: Seq<Value>,
    x: Value,
) -> bool {
    match cfg.gather {
        Gather::Pure => x == Value::Unit,
        Gather::Action(k) => folded(f, k, cfg.default, es, x),
        Gather::Count => x == counted(cfg.default, es.len()),
    }
}

/// `fresh` holds, for each signal of `m`, its value for the instant when it
/// was emitted in the instant, and `None` when it was not.
pub open spec fn fresh_ok<F: Fn(usize, Value) -> Value>(
    f: F,
    m: RuntimeModel,
    fresh: Seq<Option<Value>>,
) -> bool {
    &&& fresh.len() == m.configs.len()
    &&& forall|i: int|
        0 <= i < fresh.len() ==> (#[trigger] fresh[i] is Some <==> emissions_of(
            m.emitted,
            i as usize,
        ).len() > 0)
    &&& forall|i: int|
        0 <= i < fresh.len() ==> match #[trigger] fresh[i] {
            Some(x) => gathered(f, m.configs[i], emissions_of(m.emitted, i as usize), x),
            None => true,
        }
}

/// The threads of `ws` whose signal has a fresh value, with what they pass on.
pub open spec fn resumed(ws: Seq<Waiter>, fresh: Seq<Option<Value>>) -> Seq<(usize, Value)>
    decreases ws.len(),
{
    if ws.len() == 0 {
        Seq::empty()
    } else {
        let rest = resumed(ws.drop_last(), fresh);
        let w = ws.last();
        match fresh[w.signal as int] {
            Some(x) => rest.push((w.next, resume_output(x, w.carried))),
            None => rest,
        }
    }
}

/// The waiters of `ws` whose signal has no fresh value.
pub open spec fn still_waiting(ws: Seq<Waiter>, fresh: Seq<Option<Value>>) -> Seq<Waiter>
    decreases ws.len(),
{
    if ws.len() == 0 {
        Seq::empty()
    } else {
        let rest = still_waiting(ws.drop_last(), fresh);
        let w = ws.last();
        match fresh[w.signal as int] {
            Some(x) => rest,
            None => rest.push(w),
        }
    }
}

/// The end of an instant, given the fresh values of the signals: the signals
/// emitted get their new value, the threads waiting for them and the paused
/// threads are the next instant's threads, and the emissions are forgotten.
pub open spec fn close_spec(m: RuntimeModel, fresh: Seq<Option<Value>>) -> RuntimeModel {
    RuntimeModel {
        pres: Seq::new(
            m.pres.len(),
            |i: int|
                match fresh[i] {
                    Some(x) => x,
                    None => m.pres[i],
                },
        ),
        current: m.next + resumed(m.waiting, fresh),
        next: Seq::empty(),
        waiting: still_waiting(m.waiting, fresh),
        emitted: Seq::empty(),
        ..m
    }
}

/// One thread runs: the last one of `m.current` is taken off and its node
/// reacts to its input; a user action's result is one that `f` may return.
pub open spec fn step_rel<F: Fn(usize, Value) -> Value>(
    f: F,
    m: RuntimeModel,
    r: Result<(), Fault>,
    m2: RuntimeModel,
) -> bool {
    let (n, v) = m.current.last();
    let rest = m.pop_current();
    match rest.nodes[n as int] {
        Node::Act { action, next } => r is Ok && exists|out: Value|
            #![trigger call_ensures(f, (action, v), out)]
            call_ensures(f, (action, v), out) && m2 == rest.run_now(next, out),
        _ => match react_spec(rest, n, v) {
            Ok(m3) => r is Ok && m2 == m3,
            Err(e) => r == Err::<(), Fault>(e) && m2 == rest,
        },
    }
}

/// `trace` is a run of threads, one step after another, without a fault.
pub open spec fn runs<F: Fn(usize, Value) -> Value>(f: F, trace: Seq<RuntimeModel>) -> bool {
    &&& trace.len() > 0
    &&& forall|i: int|
        #![trigger trace[i]]
        0 <= i < trace.len() - 1 ==> trace[i].current.len() > 0 && step_rel(
            f,
            trace[i],
            Ok(()),
            trace[i + 1],
        )
}


/// Every resumed thread runs a node below `len`, and every waiter left waits
/// at a node below `len` for a signal below `nsig`, when all of `ws` do.
pub proof fn lemma_resumed_bounds(ws: Seq<Waiter>, fresh: Seq<Option<Value>>, len: nat, nsig: nat)
    requires
        forall|i: int| 0 <= i < ws.len() ==> #[trigger] ws[i].next < len && ws[i].signal < nsig,
    ensures
        forall|i: int|
            0 <= i < resumed(ws, fresh).len() ==> #[trigger] resumed(ws, fresh)[i].0 < len,
        forall|i: int|
            0 <= i < still_waiting(ws, fresh).len() ==> #[trigger] still_waiting(ws, fresh)[i].next
                < len && still_waiting(ws, fresh)[i].signal < nsig,
    decreases ws.len(),
{
    if ws.len() > 0 {
        let init = ws.drop_last();
        assert forall|i: int| 0 <= i < init.len() implies #[trigger] init[i].next < len
            && init[i].signal < nsig by {
            assert(init[i] == ws[i]);
        }
        lemma_resumed_bounds(init, fresh, len, nsig);
        let w = ws.last();
        assert(w == ws[ws.len() - 1]);
        assert(w.next < len && w.signal < nsig);
        let r0 = resumed(init, fresh);
        let s0 = still_waiting(init, fresh);
        let r = resumed(ws, fresh);
        let st = still_waiting(ws, fresh);
        assert forall|i: int| 0 <= i < r.len() implies #[trigger] r[i].0 < len by {
            if i < r0.len() {
                assert(r[i] == r0[i]);
            }
        }
        assert forall|i: int| 0 <= i < st.len() implies #[trigger] st[i].next < len
            && st[i].signal < nsig by {
            if i < s0.len() {
                assert(st[i] == s0[i]);
            }
        }
    }
}

/// The end of an instant keeps the invariant.
pub proof fn lemma_close_wf(m: RuntimeModel, fresh: Seq<Option<Value>>)
    requires
        m.wf(),
        fresh.len() == m.configs.len(),
    ensures
        close_spec(m, fresh).wf(),
{
    lemma_resumed_bounds(m.waiting, fresh, m.nodes.len(), m.configs.len());
    let c = close_spec(m, fresh);
    assert forall|i: int| 0 <= i < c.current.len() implies #[trigger] c.current[i].0 < c.nodes.len() by {
        if i >= m.next.len() {
            assert(c.current[i] == resumed(m.waiting, fresh)[i - m.next.len()]);
        }
    }
}


/// One instant takes the runtime from `m` to `m2`: its threads run, one step
/// after another, until none is left, then the instant closes with fresh
/// signal values combined by `f`.
#[verifier::opaque]
pub open spec fn instant_rel<F: Fn(usize, Value) -> Value>(
    f: F,
    m: RuntimeModel,
    m2: RuntimeModel,
) -> bool {
    exists|trace: Seq<RuntimeModel>, fresh: Seq<Option<Value>>|
        #![trigger runs(f, trace), fresh_ok(f, trace.last(), fresh)]
        runs(f, trace) && trace[0] == m && trace.last().current.len() == 0 && fresh_ok(
            f,
            trace.last(),
            fresh,
        ) && m2 == close_spec(trace.last(), fresh)
}


/// An instant started in `m` stops with the fault `e` in state `m2`: its
/// threads ran, one step after another, and then either the step counter ran
/// out (`u64::MAX` steps were run and threads were left) or a step faulted.
pub open spec fn instant_fails<F: Fn(usize, Value) -> Value>(
    f: F,
    m: RuntimeModel,
    e: Fault,
    m2: RuntimeModel,
) -> bool {
    exists|trace: Seq<RuntimeModel>|
        #![trigger runs(f, trace)]
        runs(f, trace) && trace[0] == m && trace.last().current.len() > 0 && ((e
            == Fault::Overrun && trace.len() == u64::MAX + 1 && m2 == trace.last()) || (e
            matches Fault::Mismatch(_) && step_rel(f, trace.last(), Err(e), m2)))
}


/// Each instant of `states` takes one state to the next and leaves threads
/// to run.
pub open spec fn instant_chain<F: Fn(usize, Value) -> Value>(
    f: F,
    states: Seq<RuntimeModel>,
) -> bool {
    forall|i: int|
        #![trigger states[i]]
        0 <= i < states.len() - 1 ==> instant_rel(f, states[i], states[i + 1]) && states[i
            + 1].current.len() > 0
}

/// Each instant of `states` takes one state to the next, and all but the
/// last leave threads to run.
pub open spec fn instant_chain_ending<F: Fn(usize, Value) -> Value>(
    f: F,
    states: Seq<RuntimeModel>,
) -> bool {
    forall|i: int|
        #![trigger states[i]]
        0 <= i < states.len() - 1 ==> instant_rel(f, states[i], states[i + 1]) && (i + 1
            < states.len() - 1 ==> states[i + 1].current.len() > 0)
}

/// A chain of instants extended by one more instant.
pub proof fn lemma_chain_push<F: Fn(usize, Value) -> Value>(
    f: F,
    states: Seq<RuntimeModel>,
    x: RuntimeModel,
)
    requires
        states.len() >= 1,
        instant_chain(f, states),
        instant_rel(f, states.last(), x),
    ensures
        instant_chain_ending(f, states.push(x)),
        x.current.len() > 0 ==> instant_chain(f, states.push(x)),
{
    let s2 = states.push(x);
    assert forall|i: int|
        #![trigger s2[i]]
        0 <= i < s2.len() - 1 implies instant_rel(f, s2[i], s2[i + 1]) && (i + 1 < s2.len() - 1
        ==> s2[i + 1].current.len() > 0) by {
        if i < states.len() - 1 {
            assert(s2[i] == states[i] && s2[i + 1] == states[i + 1]);
            assert(instant_rel(f, states[i], states[i + 1]) && states[i + 1].current.len() > 0);
        } else {
            assert(s2[i] == states.last() && s2[i + 1] == x);
        }
    }
    assert(instant_chain_ending(f, s2));
    if x.current.len() > 0 {
        assert forall|i: int|
            #![trigger s2[i]]
            0 <= i < s2.len() - 1 implies instant_rel(f, s2[i], s2[i + 1]) && s2[i
            + 1].current.len() > 0 by {
            if i < states.len() - 1 {
                assert(s2[i] == states[i] && s2[i + 1] == states[i + 1]);
                assert(instant_rel(f, states[i], states[i + 1]) && states[i + 1].current.len() > 0);
            } else {
                assert(s2[i] == states.last() && s2[i + 1] == x);
            }
        }
    }
}

} // verus!
