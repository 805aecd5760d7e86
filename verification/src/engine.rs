use vstd::prelude::*;
use crate::value::Value;
use crate::process::Process;
use crate::graph::{Graph, Node, extends, implements, size};
use crate::emission::{decode_await, decode_emit};
use crate::model::{
    RuntimeModel, SignalConfig, Gather, Waiter, Fault, gathered, count_step, counted, react_spec, lemma_react_wf, resume_output, fresh_ok,
    close_spec, step_rel, runs, emissions_of, folded, resumed, still_waiting,
    lemma_close_wf, instant_rel, instant_fails, instant_chain, instant_chain_ending,
    lemma_chain_push,
};

verus! {

/// A runtime: a compiled program, the state of its joins and signals, and the
/// threads to run.
pub struct Runtime {
    graph: Graph,
    slots: Vec<(Option<Value>, Option<Value>)>,
    arrived: Vec<usize>,
    configs: Vec<SignalConfig>,
    pres: Vec<Value>,
    current: Vec<(usize, Value)>,
    next: Vec<(usize, Value)>,
    waiting: Vec<Waiter>,
    emitted: Vec<(usize, Value)>,
    result: Option<Value>,
}

impl View for Runtime {
    type V = RuntimeModel;

    closed spec fn view(&self) -> RuntimeModel {
        RuntimeModel {
            nodes: self.graph.nodes@,
            slots: self.slots@,
            arrived: self.arrived@,
            configs: self.configs@,
            pres: self.pres@,
            current: self.current@,
            next: self.next@,
            waiting: self.waiting@,
            emitted: self.emitted@,
            result: self.result,
        }
    }
}

impl Waiter {
    /// A copy of the waiter.
    pub fn duplicate(&self) -> (r: Waiter)
        ensures
            r == *self,
    {
        Waiter {
            signal: self.signal,
            carried: match &self.carried {
                Some(w) => Some(w.duplicate()),
                None => None,
            },
            next: self.next,
        }
    }
}

/// One emission on a counting signal.
fn count_one(v: Value) -> (r: Value)
    ensures
        r == count_step(v),
{
    match v {
        Value::Int(a) => if a < i64::MAX {
            Value::Int(a + 1)
        } else {
            Value::Int(a)
        },
        _ => v,
    }
}

/// What a resumed waiter passes on.
fn make_output(value: Value, carried: Option<Value>) -> (r: Value)
    ensures
        r == resume_output(value, carried),
{
    match carried {
        None => value,
        Some(w) => Value::Pair(Box::new(value), Box::new(w)),
    }
}


/// Extends the join state to `n` nodes with empty slots and no arrival.
fn grow_state(slots: &mut Vec<(Option<Value>, Option<Value>)>, arrived: &mut Vec<usize>, n: usize)
    requires
        old(slots)@.len() == old(arrived)@.len(),
        old(slots)@.len() <= n,
        forall|i: int| 0 <= i < old(arrived)@.len() ==> #[trigger] old(arrived)@[i] < usize::MAX,
    ensures
        final(slots)@.len() == n,
        final(arrived)@.len() == n,
        final(slots)@.subrange(0, old(slots)@.len() as int) == old(slots)@,
        final(arrived)@.subrange(0, old(arrived)@.len() as int) == old(arrived)@,
        forall|i: int| old(slots)@.len() <= i < n ==> #[trigger] final(slots)@[i] == (
        None::<Value>,
        None::<Value>,
        ),
        forall|i: int| old(arrived)@.len() <= i < n ==> #[trigger] final(arrived)@[i] == 0,
        forall|i: int| 0 <= i < n ==> #[trigger] final(arrived)@[i] < usize::MAX,
{
    let ghost len0 = slots@.len();
    while slots.len() < n
        invariant
            slots@.len() == arrived@.len(),
            len0 <= slots@.len() <= n,
            len0 == old(slots)@.len(),
            slots@.subrange(0, len0 as int) == old(slots)@,
            arrived@.subrange(0, len0 as int) == old(arrived)@,
            forall|i: int| len0 <= i < slots@.len() ==> #[trigger] slots@[i] == (
            None::<Value>,
            None::<Value>,
            ),
            forall|i: int| len0 <= i < arrived@.len() ==> #[trigger] arrived@[i] == 0,
            forall|i: int| 0 <= i < arrived@.len() ==> #[trigger] arrived@[i] < usize::MAX,
        decreases n - slots@.len(),
    {
        slots.push((None, None));
        arrived.push(0);
        assert(slots@.subrange(0, len0 as int) =~= old(slots)@);
        assert(arrived@.subrange(0, len0 as int) =~= old(arrived)@);
    }
}

impl Runtime {
    /// A runtime with no program, no signal and no thread.
    pub fn new() -> (rt: Runtime)
        ensures
            rt@.wf(),
            rt@.nodes.len() == 0,
            rt@.configs.len() == 0,
            rt@.current.len() == 0,
            rt@.next.len() == 0,
            rt@.waiting.len() == 0,
            rt@.emitted.len() == 0,
            rt@.result is None,
    {
        Runtime {
            graph: Graph::new(),
            slots: Vec::new(),
            arrived: Vec::new(),
            configs: Vec::new(),
            pres: Vec::new(),
            current: Vec::new(),
            next: Vec::new(),
            waiting: Vec::new(),
            emitted: Vec::new(),
            result: None,
        }
    }

    /// Adds a signal whose value at an instant combines, from `default`, the
    /// values emitted on it with the user action `gather`; returns its number.
    pub fn new_mc(&mut self, default: Value, gather: usize) -> (s: usize)
        requires
            old(self)@.wf(),
        ensures
            s == old(self)@.configs.len(),
            final(self)@ == (RuntimeModel {
                configs: old(self)@.configs.push(SignalConfig { default, gather: Gather::Action(gather) }),
                pres: old(self)@.pres.push(default),
                ..old(self)@
            }),
            final(self)@.wf(),
    {
        let s = self.configs.len();
        let d = default.duplicate();
        self.configs.push(SignalConfig { default, gather: Gather::Action(gather) });
        self.pres.push(d);
        proof {
            assert(self@ =~= RuntimeModel {
                configs: old(self)@.configs.push(SignalConfig { default, gather: Gather::Action(gather) }),
                pres: old(self)@.pres.push(default),
                ..old(self)@
            });
        }
        s
    }

    /// Adds a pure signal, whose value is always `()`; returns its number.
    pub fn new_pure(&mut self) -> (s: usize)
        requires
            old(self)@.wf(),
        ensures
            s == old(self)@.configs.len(),
            final(self)@ == (RuntimeModel {
                configs: old(self)@.configs.push(SignalConfig { default: Value::Unit, gather: Gather::Pure }),
                pres: old(self)@.pres.push(Value::Unit),
                ..old(self)@
            }),
            final(self)@.wf(),
    {
        let s = self.configs.len();
        self.configs.push(SignalConfig { default: Value::Unit, gather: Gather::Pure });
        self.pres.push(Value::Unit);
        proof {
            assert(self@ =~= RuntimeModel {
                configs: old(self)@.configs.push(SignalConfig { default: Value::Unit, gather: Gather::Pure }),
                pres: old(self)@.pres.push(Value::Unit),
                ..old(self)@
            });
        }
        s
    }

    /// Adds a counting signal: its value at an instant is the number of
    /// emissions on it in the instant; returns its number.
    pub fn new_counter(&mut self) -> (s: usize)
        requires
            old(self)@.wf(),
        ensures
            s == old(self)@.configs.len(),
            final(self)@ == (RuntimeModel {
                configs: old(self)@.configs.push(SignalConfig { default: Value::Int(0), gather: Gather::Count }),
                pres: old(self)@.pres.push(Value::Int(0)),
                ..old(self)@
            }),
            final(self)@.wf(),
    {
        let s = self.configs.len();
        self.configs.push(SignalConfig { default: Value::Int(0), gather: Gather::Count });
        self.pres.push(Value::Int(0));
        proof {
            assert(self@ =~= RuntimeModel {
                configs: old(self)@.configs.push(SignalConfig { default: Value::Int(0), gather: Gather::Count }),
                pres: old(self)@.pres.push(Value::Int(0)),
                ..old(self)@
            });
        }
        s
    }

    /// Compiles `p` after the program and starts it, on `()`, in the current
    /// instant; when it ends its result becomes the runtime's result.
    /// Returns the node at which `p` starts.
    pub fn spawn(&mut self, p: Process) -> (entry: usize)
        requires
            old(self)@.wf(),
            old(self)@.nodes.len() + size(p) + 1 < usize::MAX,
        ensures
            final(self)@.wf(),
            extends(old(self)@.nodes, final(self)@.nodes),
            final(self)@.nodes.len() == old(self)@.nodes.len() + size(p) + 1,
            final(self)@.nodes[old(self)@.nodes.len() as int] == Node::Finish,
            implements(final(self)@.nodes, p, entry, old(self)@.nodes.len() as usize),
            final(self)@.current == old(self)@.current.push((entry, Value::Unit)),
            final(self)@.slots.subrange(0, old(self)@.slots.len() as int) == old(self)@.slots,
            final(self)@.arrived.subrange(0, old(self)@.arrived.len() as int) == old(self)@.arrived,
            forall|i: int|
                old(self)@.slots.len() <= i < final(self)@.slots.len() ==> #[trigger] final(self)@.slots[i]
                    == (None::<Value>, None::<Value>),
            forall|i: int|
                old(self)@.arrived.len() <= i < final(self)@.arrived.len() ==> #[trigger] final(self)@.arrived[i]
                    == 0,
            final(self)@.configs == old(self)@.configs,
            final(self)@.pres == old(self)@.pres,
            final(self)@.next == old(self)@.next,
            final(self)@.waiting == old(self)@.waiting,
            final(self)@.emitted == old(self)@.emitted,
            final(self)@.result == old(self)@.result,
    {
        let fin = self.graph.add(Node::Finish);
        let ghost g1 = self.graph.nodes@;
        let entry = p.compile(&mut self.graph, fin);

        grow_state(&mut self.slots, &mut self.arrived, self.graph.nodes.len());
        self.current.push((entry, Value::Unit));
        proof {
            let m = self@;
            let o = old(self)@;
            assert(forall|i: int| 0 <= i < o.current.len() ==> #[trigger] o.current[i].0 < o.nodes.len());
            assert forall|i: int| 0 <= i < m.current.len() implies #[trigger] m.current[i].0 < m.nodes.len() by {
                if i < o.current.len() {
                    assert(m.current[i] == o.current[i]);
                }
            }
            assert forall|i: int| 0 <= i < m.next.len() implies #[trigger] m.next[i].0 < m.nodes.len() by {
                assert(m.next[i] == o.next[i]);
            }
            assert forall|i: int| 0 <= i < m.waiting.len() implies #[trigger] m.waiting[i].next < m.nodes.len() && m.waiting[i].signal < m.configs.len() by {
                assert(m.waiting[i] == o.waiting[i]);
            }
            assert forall|i: int| 0 <= i < m.emitted.len() implies #[trigger] m.emitted[i].0 < m.configs.len() by {
                assert(m.emitted[i] == o.emitted[i]);
            }
        }
        entry
    }

    /// The reaction of node `n`, which is no user action, to the input `v`.
    fn react(&mut self, n: usize, v: Value) -> (r: Result<(), Fault>)
        requires
            old(self)@.wf(),
            n < old(self)@.nodes.len(),
            !(old(self)@.nodes[n as int] is Act),
        ensures
            match react_spec(old(self)@, n, v) {
                Ok(m) => r is Ok && final(self)@ == m,
                Err(e) => r == Err::<(), Fault>(e) && final(self)@ == old(self)@,
            },
            final(self)@.wf(),
            final(self)@.nodes == old(self)@.nodes,
            final(self)@.configs == old(self)@.configs,
    {
        proof {
            lemma_react_wf(self@, n, v);
            assert(crate::graph::node_ok(self@.nodes[n as int], self@.nodes.len()));
        }
        let ghost o = self@;
        let nconf = self.configs.len();
        match &self.graph.nodes[n] {
            Node::Hole => Ok(()),
            Node::Finish => {
                self.result = Some(v);
                assert(self@ =~= RuntimeModel { result: Some(v), ..o });
                Ok(())
            },
            Node::Act { .. } => Ok(()),
            Node::Pause { next } => {
                self.next.push((*next, v));
                assert(self@ =~= o.run_later(*next, v));
                Ok(())
            },
            Node::Choice { if_true, if_false } => match v {
                Value::True(x) => {
                    self.current.push((*if_true, *x));
                    assert(self@ =~= o.run_now(*if_true, *x));
                    Ok(())
                },
                Value::False(x) => {
                    self.current.push((*if_false, *x));
                    assert(self@ =~= o.run_now(*if_false, *x));
                    Ok(())
                },
                _ => Err(Fault::Mismatch(n)),
            },
            Node::LoopTest { body, exit } => match v {
                Value::True(x) => {
                    self.current.push((*body, *x));
                    assert(self@ =~= o.run_now(*body, *x));
                    Ok(())
                },
                Value::False(x) => {
                    self.current.push((*exit, *x));
                    assert(self@ =~= o.run_now(*exit, *x));
                    Ok(())
                },
                _ => Err(Fault::Mismatch(n)),
            },
            Node::Fork { left, right } => match v {
                Value::Pair(a, b) => {
                    self.current.push((*right, *b));
                    self.current.push((*left, *a));
                    assert(self@ =~= o.run_now(*right, *b).run_now(*left, *a));
                    Ok(())
                },
                _ => Err(Fault::Mismatch(n)),
            },
            Node::Join { slot, left_side, next } => {
                let slot = *slot;
                let next = *next;
                if *left_side {
                    let other = match &self.slots[slot].1 {
                        Some(x) => Some(x.duplicate()),
                        None => None,
                    };
                    match other {
                        Some(rv) => {
                            self.slots.set(slot, (None, None));
                            self.current.push((next, Value::Pair(Box::new(v), Box::new(rv))));
                            assert(self@ =~= o.set_slot(slot, (None, None)).run_now(
                                next,
                                Value::Pair(Box::new(v), Box::new(rv)),
                            ));
                        },
                        None => {
                            self.slots.set(slot, (Some(v), None));
                            assert(self@ =~= o.set_slot(slot, (Some(v), None)));
                        },
                    }
                } else {
                    let other = match &self.slots[slot].0 {
                        Some(x) => Some(x.duplicate()),
                        None => None,
                    };
                    match other {
                        Some(lv) => {
                            self.slots.set(slot, (None, None));
                            self.current.push((next, Value::Pair(Box::new(lv), Box::new(v))));
                            assert(self@ =~= o.set_slot(slot, (None, None)).run_now(
                                next,
                                Value::Pair(Box::new(lv), Box::new(v)),
                            ));
                        },
                        None => {
                            self.slots.set(slot, (None, Some(v)));
                            assert(self@ =~= o.set_slot(slot, (None, Some(v))));
                        },
                    }
                }
                Ok(())
            },
            Node::BigFork { dests } => {
                let mut i: usize = 0;
                while i < dests.len()
                    invariant
                        i <= dests@.len(),
                        self.current@ == o.current + Seq::new(i as nat, |j: int| (dests@[j], v)),
                        self.graph.nodes@ == o.nodes,
                        self.slots@ == o.slots,
                        self.arrived@ == o.arrived,
                        self.configs@ == o.configs,
                        self.pres@ == o.pres,
                        self.next@ == o.next,
                        self.waiting@ == o.waiting,
                        self.emitted@ == o.emitted,
                        self.result == o.result,
                    decreases dests@.len() - i,
                {
                    self.current.push((dests[i], v.duplicate()));
                    assert(self.current@ =~= o.current + Seq::new((i + 1) as nat, |j: int| (dests@[j], v)));
                    i = i + 1;
                }
                assert(self@ =~= RuntimeModel {
                    current: o.current + Seq::new(dests@.len(), |j: int| (dests@[j], v)),
                    ..o
                });
                Ok(())
            },
            Node::BigJoin { size, next } => {
                let a = self.arrived[n];
                if a + 1 >= *size {
                    self.arrived.set(n, 0);
                    self.current.push((*next, Value::Unit));
                    assert(self@ =~= o.set_arrived(n, 0).run_now(*next, Value::Unit));
                } else {
                    self.arrived.set(n, a + 1);
                    assert(self@ =~= o.set_arrived(n, (a + 1) as usize));
                }
                Ok(())
            },
            Node::Emit { kind, next } => match decode_emit(kind, v) {
                Some((es, out)) => {
                    let mut i: usize = 0;
                    let mut ok = true;
                    while i < es.len()
                        invariant
                            i <= es@.len(),
                            nconf == o.configs.len(),
                            ok == (forall|j: int| 0 <= j < i ==> #[trigger] es@[j].0 < nconf),
                        decreases es@.len() - i,
                    {
                        if es[i].0 >= nconf {
                            ok = false;
                        }
                        i = i + 1;
                    }
                    if ok {
                        let mut es = es;
                        let ghost esv = es@;
                        self.emitted.append(&mut es);
                        self.current.push((*next, out));
                        assert(self@ =~= RuntimeModel { emitted: o.emitted + esv, ..o }.run_now(
                            *next,
                            out,
                        ));
                        Ok(())
                    } else {
                        Err(Fault::Mismatch(n))
                    }
                },
                None => Err(Fault::Mismatch(n)),
            },
            Node::Await { kind, next } => match decode_await(kind, v) {
                Some((s, carried)) => {
                    if s < nconf {
                        let w = Waiter { signal: s, carried, next: *next };
                        self.waiting.push(w);
                        assert(self@ =~= RuntimeModel {
                            waiting: o.waiting.push(Waiter { signal: s, carried, next: *next }),
                            ..o
                        });
                        Ok(())
                    } else {
                        Err(Fault::Mismatch(n))
                    }
                },
                None => Err(Fault::Mismatch(n)),
            },
            Node::Pre { signal, next } => {
                if *signal < nconf {
                    let pv = self.pres[*signal].duplicate();
                    self.current.push((*next, Value::Pair(Box::new(v), Box::new(pv))));
                    assert(self@ =~= o.run_now(*next, Value::Pair(Box::new(v), Box::new(pv))));
                    Ok(())
                } else {
                    Err(Fault::Mismatch(n))
                }
            },
        }
    }

    /// Runs the last thread of the current instant: a user action is applied
    /// with `f`, any other node reacts.
    fn step<F: Fn(usize, Value) -> Value>(&mut self, f: &F) -> (r: Result<(), Fault>)
        requires
            old(self)@.wf(),
            old(self)@.current.len() > 0,
            forall|k: usize, x: Value| call_requires(*f, (k, x)),
        ensures
            final(self)@.wf(),
            step_rel(*f, old(self)@, r, final(self)@),
            final(self)@.nodes == old(self)@.nodes,
            final(self)@.configs == old(self)@.configs,
    {
        let (n, v) = self.current.pop().unwrap();
        let ghost rest = self@;
        proof {
            assert(rest =~= old(self)@.pop_current());
            assert(crate::graph::node_ok(rest.nodes[n as int], rest.nodes.len()));
        }
        let act: Option<(usize, usize)> = match &self.graph.nodes[n] {
            Node::Act { action, next } => Some((*action, *next)),
            _ => None,
        };
        match act {
            Some((action, next)) => {
                let out = f(action, v);
                self.current.push((next, out));
                assert(self@ =~= rest.run_now(next, out));
                Ok(())
            },
            None => self.react(n, v),
        }
    }

    /// The fresh value, for this instant, of each signal emitted in it.
    fn gather_all<F: Fn(usize, Value) -> Value>(&self, f: &F) -> (fresh: Vec<Option<Value>>)
        requires
            self@.wf(),
            forall|k: usize, x: Value| call_requires(*f, (k, x)),
        ensures
            fresh_ok(*f, self@, fresh@),
    {
        let nsig = self.configs.len();
        let mut fresh: Vec<Option<Value>> = Vec::new();
        let mut i: usize = 0;
        while i < nsig
            invariant
                i <= nsig,
                nsig == self@.configs.len(),
                fresh@.len() == i,
                forall|j: int| 0 <= j < i ==> #[trigger] fresh@[j] is None,
            decreases nsig - i,
        {
            fresh.push(None);
            i = i + 1;
        }
        let ghost es = self@.emitted;
        let mut j: usize = 0;
        proof {
            assert forall|s: int| 0 <= s < nsig implies #[trigger] emissions_of(es.take(0), s as usize).len()
                == 0 by {
                assert(es.take(0).len() == 0);
            }
        }
        while j < self.emitted.len()
            invariant
                self@.wf(),
                es == self@.emitted,
                j <= es.len(),
                nsig == self@.configs.len(),
                fresh@.len() == nsig,
                forall|k: usize, x: Value| call_requires(*f, (k, x)),
                forall|s: int|
                    0 <= s < nsig ==> (#[trigger] fresh@[s] is Some <==> emissions_of(
                        es.take(j as int),
                        s as usize,
                    ).len() > 0),
                forall|s: int|
                    0 <= s < nsig ==> match #[trigger] fresh@[s] {
                        Some(x) => gathered(
                            *f,
                            self@.configs[s],
                            emissions_of(es.take(j as int), s as usize),
                            x,
                        ),
                        None => true,
                    },
            decreases es.len() - j,
        {
            let s = self.emitted[j].0;
            proof {
                assert(es[j as int].0 < nsig);
            }
            let ghost x = es[j as int].1;
            let ghost before = emissions_of(es.take(j as int), s);
            let cur = match &fresh[s] {
                Some(a) => a.duplicate(),
                None => self.configs[s].default.duplicate(),
            };
            let newv = match self.configs[s].gather {
                Gather::Action(k) => f(
                    k,
                    Value::Pair(Box::new(self.emitted[j].1.duplicate()), Box::new(cur)),
                ),
                Gather::Pure => Value::Unit,
                Gather::Count => count_one(cur),
            };
            let ghost oldfresh = fresh@;
            fresh.set(s, Some(newv));
            proof {
                assert(es.take(j + 1).drop_last() =~= es.take(j as int));
                assert(es.take(j + 1).last() == es[j as int]);
                assert forall|t: int| 0 <= t < nsig implies (#[trigger] fresh@[t] is Some
                    <==> emissions_of(es.take(j + 1), t as usize).len() > 0) && match fresh@[t] {
                    Some(y) => gathered(
                        *f,
                        self@.configs[t],
                        emissions_of(es.take(j + 1), t as usize),
                        y,
                    ),
                    None => true,
                } by {
                    if t == s as int {
                        let now = emissions_of(es.take(j + 1), s);
                        assert(now == before.push(x));
                        assert(now.drop_last() =~= before);
                        if before.len() == 0 {
                            assert(cur == self@.configs[t].default);
                        }
                        if let Gather::Action(k) = self@.configs[t].gather {
                            assert(folded(*f, k, self@.configs[t].default, before, cur));
                            assert(call_ensures(
                                *f,
                                (k, Value::Pair(Box::new(now.last()), Box::new(cur))),
                                newv,
                            ));
                        }
                    } else {
                        assert(fresh@[t] == oldfresh[t]);
                    }
                }
            }
            j = j + 1;
        }
        proof {
            assert(es.take(es.len() as int) =~= es);
        }
        fresh
    }

    /// Ends the instant with the given fresh signal values.
    fn close(&mut self, fresh: Vec<Option<Value>>)
        requires
            old(self)@.wf(),
            old(self)@.current.len() == 0,
            fresh@.len() == old(self)@.configs.len(),
        ensures
            final(self)@ == close_spec(old(self)@, fresh@),
            final(self)@.wf(),
    {
        let ghost o = self@;
        let nsig = self.configs.len();
        let mut i: usize = 0;
        while i < nsig
            invariant
                i <= nsig,
                nsig == o.configs.len(),
                fresh@.len() == nsig,
                self@ == (RuntimeModel { pres: self@.pres, ..o }),
                self@.pres.len() == nsig,
                forall|t: int|
                    0 <= t < nsig ==> #[trigger] self@.pres[t] == if t < i {
                        match fresh@[t] {
                            Some(x) => x,
                            None => o.pres[t],
                        }
                    } else {
                        o.pres[t]
                    },
            decreases nsig - i,
        {
            match &fresh[i] {
                Some(x) => {
                    let y = x.duplicate();
                    self.pres.set(i, y);
                },
                None => {},
            }
            i = i + 1;
        }
        let mut back: Vec<(usize, Value)> = Vec::new();
        let mut still: Vec<Waiter> = Vec::new();
        let nw = self.waiting.len();
        let mut k: usize = 0;
        while k < nw
            invariant
                k <= nw,
                nw == o.waiting.len(),
                self.waiting@ == o.waiting,
                fresh@.len() == o.configs.len(),
                o.wf(),
                back@ == resumed(o.waiting.take(k as int), fresh@),
                still@ == still_waiting(o.waiting.take(k as int), fresh@),
            decreases nw - k,
        {
            let w = &self.waiting[k];
            proof {
                assert(o.waiting[k as int].next < o.nodes.len());
                assert(o.waiting[k as int].signal < o.configs.len());
                assert(o.waiting.take(k + 1).drop_last() =~= o.waiting.take(k as int));
                assert(o.waiting.take(k + 1).last() == o.waiting[k as int]);
            }
            match &fresh[w.signal] {
                Some(x) => {
                    let c = match &w.carried {
                        Some(c) => Some(c.duplicate()),
                        None => None,
                    };
                    back.push((w.next, make_output(x.duplicate(), c)));
                },
                None => {
                    still.push(w.duplicate());
                },
            }
            k = k + 1;
        }
        proof {
            assert(o.waiting.take(nw as int) =~= o.waiting);
        }
        std::mem::swap(&mut self.current, &mut self.next);
        self.current.append(&mut back);
        self.waiting = still;
        self.emitted = Vec::new();
        proof {
            let c = close_spec(o, fresh@);
            assert(self@.pres =~= c.pres);
            assert(self@.current =~= c.current);
            assert(self@ =~= c);
            lemma_close_wf(o, fresh@);
        }
    }

    /// Runs one instant: every thread of the instant runs until it ends,
    /// pauses or waits, applying user actions with `f`; then each signal
    /// emitted gets its value for the instant, combined with `f`, the threads
    /// waiting for it are resumed, and the paused and resumed threads become
    /// the next instant's threads.  Returns whether the next instant has
    /// threads to run.
    pub fn instant<F: Fn(usize, Value) -> Value>(&mut self, f: &F) -> (r: Result<bool, Fault>)
        requires
            old(self)@.wf(),
            forall|k: usize, x: Value| call_requires(*f, (k, x)),
        ensures
            final(self)@.wf(),
            final(self)@.nodes == old(self)@.nodes,
            final(self)@.configs == old(self)@.configs,
            r matches Ok(more) ==> more == (final(self)@.current.len() > 0) && instant_rel(
                *f,
                old(self)@,
                final(self)@,
            ),
            r matches Err(e) ==> instant_fails(*f, old(self)@, e, final(self)@),
    {
        let ghost mut trace: Seq<RuntimeModel> = seq![self@];
        let mut count: u64 = 0;
        while self.current.len() > 0
            invariant
                self@.wf(),
                forall|k: usize, x: Value| call_requires(*f, (k, x)),
                runs(*f, trace),
                trace[0] == old(self)@,
                trace.last() == self@,
                trace.len() == count + 1,
                self@.nodes == old(self)@.nodes,
                self@.configs == old(self)@.configs,
            decreases u64::MAX - count,
        {
            if count == u64::MAX {
                assert(runs(*f, trace));
                return Err(Fault::Overrun);
            }
            let ghost before = self@;
            match self.step(f) {
                Err(e) => {
                    proof {
                        assert(runs(*f, trace));
                        if let Fault::Overrun = e {
                            let (n, v) = before.current.last();
                            let rest = before.pop_current();
                            assert(!(rest.nodes[n as int] is Act));
                            assert(react_spec(rest, n, v) == Err::<RuntimeModel, Fault>(e));
                        }
                    }
                    return Err(e);
                },
                Ok(()) => {
                    proof {
                        assert(runs(*f, trace));
                        let t2 = trace.push(self@);
                        assert forall|i: int| 0 <= i < t2.len() - 1 implies #[trigger] t2[i].current.len() > 0
                            && step_rel(*f, t2[i], Ok(()), t2[i + 1]) by {
                            if i < trace.len() - 1 {
                                assert(t2[i] == trace[i] && t2[i + 1] == trace[i + 1]);
                                assert(trace[i].current.len() > 0 && step_rel(
                                    *f,
                                    trace[i],
                                    Ok(()),
                                    trace[i + 1],
                                ));
                            } else {
                                assert(t2[i] == before && t2[i + 1] == self@);
                            }
                        }
                        trace = t2;
                    }
                },
            }
            count = count + 1;
        }
        let fresh = self.gather_all(f);
        let ghost mid = self@;
        let ghost fv = fresh@;
        self.close(fresh);
        proof {
            reveal(instant_rel);
            assert(runs(*f, trace) && fresh_ok(*f, trace.last(), fv));
        }
        Ok(self.current.len() > 0)
    }

    /// Runs instants until one leaves no thread to run in the next.
    pub fn execute<F: Fn(usize, Value) -> Value>(&mut self, f: &F) -> (r: Result<(), Fault>)
        requires
            old(self)@.wf(),
            forall|k: usize, x: Value| call_requires(*f, (k, x)),
        ensures
            final(self)@.wf(),
            final(self)@.nodes == old(self)@.nodes,
            final(self)@.configs == old(self)@.configs,
            r matches Err(e) ==> exists|states: Seq<RuntimeModel>|
                #![trigger states.last()]
                states.len() >= 1 && states[0] == old(self)@ && instant_chain(*f, states) && ((e
                    == Fault::Overrun && states.len() == u64::MAX + 1 && final(self)@
                    == states.last()) || instant_fails(*f, states.last(), e, final(self)@)),
            r is Ok ==> final(self)@.current.len() == 0 && exists|states: Seq<RuntimeModel>|
                #![trigger states.last()]
                states.len() >= 2 && states[0] == old(self)@ && states.last() == final(self)@
                    && instant_chain_ending(*f, states),
    {
        let mut count: u64 = 0;
        let ghost mut states: Seq<RuntimeModel> = seq![self@];
        loop
            invariant
                self@.wf(),
                forall|k: usize, x: Value| call_requires(*f, (k, x)),
                self@.nodes == old(self)@.nodes,
                self@.configs == old(self)@.configs,
                states.len() >= 1,
                states.len() == count + 1,
                states[0] == old(self)@,
                states.last() == self@,
                instant_chain(*f, states),
            decreases u64::MAX - count,
        {
            if count == u64::MAX {
                return Err(Fault::Overrun);
            }
            match self.instant(f) {
                Err(e) => {
                    return Err(e);
                },
                Ok(more) => {
                    proof {
                        lemma_chain_push(*f, states, self@);
                        let s2 = states.push(self@);
                        assert(s2.last() == self@);
                        assert(s2[0] == old(self)@);
                        states = s2;
                    }
                    if !more {
                        return Ok(());
                    }
                },
            }
            count = count + 1;
        }
    }

    /// The result of the last spawned process that ended.
    pub fn result(&self) -> (r: Option<Value>)
        ensures
            r == self@.result,
    {
        match &self.result {
            Some(v) => Some(v.duplicate()),
            None => None,
        }
    }

    /// The value that signal `s` had at the end of the last instant in which
    /// it was emitted (its default value if it never was); `None` when there
    /// is no such signal.
    pub fn pre(&self, s: usize) -> (r: Option<Value>)
        ensures
            r == (if s < self@.pres.len() {
                Some(self@.pres[s as int])
            } else {
                None
            }),
    {
        if s < self.pres.len() {
            Some(self.pres[s].duplicate())
        } else {
            None
        }
    }

    /// The number of threads waiting for a signal.
    pub fn waiting_count(&self) -> (n: usize)
        ensures
            n == self@.waiting.len(),
    {
        self.waiting.len()
    }

    /// The number of nodes of the compiled program.
    pub fn node_count(&self) -> (n: usize)
        ensures
            n == self@.nodes.len(),
    {
        self.graph.nodes.len()
    }

    /// The number of signals.
    pub fn signal_count(&self) -> (n: usize)
        ensures
            n == self@.configs.len(),
    {
        self.configs.len()
    }

    /// The number of threads that run at the next instant.
    pub fn runnable_count(&self) -> (n: usize)
        ensures
            n == self@.current.len(),
    {
        self.current.len()
    }
}

} // verus!
