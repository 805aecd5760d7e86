use std::cell::Cell;

use reactivers2::engine::Runtime;
use pr::{
    act, await_d, await_d_in, await_s, await_s_in, big_join, emit_d, emit_d_in,
    emit_d_vec, emit_d_vec_in, emit_s, emit_s_in, emit_vec_s, emit_vec_s_in, emit_vec_vs,
    emit_vs, looping, pause, pre, Process,
};
use reactivers2::process as pr;
use reactivers2::value::Value;

/// The gather action number used by the signals of these tests.
const MUL: usize = 1000;

fn num(v: &Value) -> i64 {
    match v {
        Value::Int(i) => *i,
        other => panic!("not an integer: {:?}", other),
    }
}

fn parts(v: Value) -> (Value, Value) {
    match v {
        Value::Pair(a, b) => (*a, *b),
        other => panic!("not a pair: {:?}", other),
    }
}

/// `*v *= e`, the gather of the signals of these tests.
fn mul_gather(v: Value) -> Value {
    let (e, acc) = parts(v);
    Value::Int(num(&acc) * num(&e))
}

fn seqs(mut ps: Vec<Process>) -> Process {
    let mut p = ps.pop().unwrap();
    while let Some(q) = ps.pop() {
        p = pr::sequence(q, p);
    }
    p
}

fn run(p: Process, f: &dyn Fn(usize, Value) -> Value) {
    let mut r = Runtime::new();
    r.spawn(p);
    r.execute(&f).unwrap();
}

#[test]
fn instant_action_no_macro() {
    let i = Cell::new(0);
    {
        let mut r = Runtime::new();
        r.spawn(act(0));
        r.execute(&|_k: usize, _v: Value| {
            i.set(i.get() + 42);
            Value::Unit
        })
        .unwrap();
    }
    assert_eq!(i.get(), 42);
}

#[test]
fn instant_action() {
    let i = Cell::new(0);
    run(act(0), &|_k, _v| {
        i.set(i.get() + 42);
        Value::Unit
    });
    assert_eq!(i.get(), 42);
}

#[test]
fn sequence() {
    let i = Cell::new(0);
    run(pr::sequence(act(0), act(1)), &|k, v| match k {
        0 => Value::Int(42),
        _ => {
            i.set(num(&v));
            Value::Unit
        }
    });
    assert_eq!(i.get(), 42);
}

#[test]
fn pauset() {
    let i = Cell::new(0);
    let f = |k: usize, v: Value| match k {
        0 => Value::Int(42),
        _ => {
            i.set(num(&v));
            Value::Unit
        }
    };
    {
        let mut r = Runtime::new();
        r.spawn(seqs(vec![act(0), pause(), act(1)]));
        r.instant(&f).unwrap();
        assert_eq!(i.get(), 0);
        r.instant(&f).unwrap();
    }
    assert_eq!(i.get(), 42);
}

#[test]
fn choice() {
    let i = Cell::new(0);
    run(pr::sequence(act(0), pr::choice(act(1), act(2))), &|k, v| match k {
        0 => Value::True(Box::new(Value::Int(42))),
        1 => {
            i.set(num(&v));
            Value::Unit
        }
        _ => unreachable!(),
    });
    assert_eq!(i.get(), 42);
}

#[test]
fn choice_pause() {
    let i = Cell::new(0);
    run(
        seqs(vec![act(0), pause(), pr::choice(pr::sequence(pause(), act(1)), act(2))]),
        &|k, v| match k {
            0 => Value::True(Box::new(Value::Int(42))),
            1 => {
                i.set(num(&v));
                Value::Unit
            }
            _ => unreachable!(),
        },
    );
    assert_eq!(i.get(), 42);
}

#[test]
fn loop_test() {
    let checked = Cell::new(false);
    run(
        seqs(vec![act(0), looping(pr::sequence(act(1), pause())), act(2)]),
        &|k, v| match k {
            0 => Value::Int(0),
            1 => {
                let i = num(&v);
                if i < 42 {
                    Value::True(Box::new(Value::Int(i + 1)))
                } else {
                    Value::False(Box::new(Value::Int(i)))
                }
            }
            _ => {
                assert_eq!(num(&v), 42);
                checked.set(true);
                Value::Unit
            }
        },
    );
    assert!(checked.get());
}

/// Runs `p` with one multiplying signal of default `init`, made before `p` by
/// `make`; `act(1)` stores its input in the returned cell.
fn run_with_signals(
    defaults: &[i64],
    make: &dyn Fn(&[usize]) -> Process,
    first: &dyn Fn(&[usize]) -> Value,
    last: &dyn Fn(Value) -> i64,
) -> i64 {
    let value = Cell::new(0);
    {
        let mut r = Runtime::new();
        let signals: Vec<usize> = defaults.iter().map(|d| r.new_mc(Value::Int(*d), MUL)).collect();
        r.spawn(make(&signals));
        r.execute(&|k: usize, v: Value| match k {
            MUL => mul_gather(v),
            0 => first(&signals),
            _ => {
                value.set(last(v));
                Value::Unit
            }
        })
        .unwrap();
    }
    value.get()
}

#[test]
fn emit_d_test() {
    let value = run_with_signals(
        &[21],
        &|s| seqs(vec![act(0), emit_d(), pause(), pre(s[0]), act(1)]),
        &|s| Value::pair(Value::Signal(s[0]), Value::Int(2)),
        &|v| num(&parts(v).1),
    );
    assert_eq!(value, 42);
}

#[test]
fn emit_d_in_test() {
    let value = run_with_signals(
        &[7],
        &|s| seqs(vec![act(0), emit_d_in(), pause(), pre(s[0]), act(1)]),
        &|s| Value::pair(Value::pair(Value::Signal(s[0]), Value::Int(2)), Value::Int(3)),
        &|v| {
            let (val, p) = parts(v);
            num(&val) * num(&p)
        },
    );
    assert_eq!(value, 42);
}

#[test]
fn emit_d_vec_test() {
    let value = run_with_signals(
        &[7],
        &|s| seqs(vec![act(0), emit_d_vec(), pause(), pre(s[0]), act(1)]),
        &|s| {
            Value::list(vec![
                Value::pair(Value::Signal(s[0]), Value::Int(2)),
                Value::pair(Value::Signal(s[0]), Value::Int(3)),
            ])
        },
        &|v| num(&parts(v).1),
    );
    assert_eq!(value, 42);
}

#[test]
fn emit_d_vec_in_test() {
    let value = run_with_signals(
        &[1],
        &|s| seqs(vec![act(0), emit_d_vec_in(), pause(), pre(s[0]), act(1)]),
        &|s| {
            Value::pair(
                Value::list(vec![
                    Value::pair(Value::Signal(s[0]), Value::Int(2)),
                    Value::pair(Value::Signal(s[0]), Value::Int(3)),
                ]),
                Value::Int(7),
            )
        },
        &|v| {
            let (val, p) = parts(v);
            num(&val) * num(&p)
        },
    );
    assert_eq!(value, 42);
}

#[test]
fn emit_s_test() {
    let value = run_with_signals(
        &[2],
        &|s| seqs(vec![act(0), emit_s(s[0]), pause(), pre(s[0]), act(1)]),
        &|_s| Value::Int(21),
        &|v| num(&parts(v).1),
    );
    assert_eq!(value, 42);
}

#[test]
fn emit_s_in_test() {
    let value = run_with_signals(
        &[2],
        &|s| seqs(vec![act(0), emit_s_in(s[0]), pause(), pre(s[0]), act(1)]),
        &|_s| Value::pair(Value::Int(7), Value::Int(3)),
        &|v| {
            let (val, p) = parts(v);
            num(&val) * num(&p)
        },
    );
    assert_eq!(value, 42);
}

#[test]
fn emit_vec_s_test() {
    let value = run_with_signals(
        &[1, 1],
        &|s| seqs(vec![act(0), emit_vec_s(vec![s[0], s[1]]), pause(), pre(s[0]), pre(s[1]), act(1)]),
        &|_s| Value::list(vec![Value::Int(2), Value::Int(14)]),
        &|v| {
            let (inner, p2) = parts(v);
            let (_, p1) = parts(inner);
            7 * num(&p1) + 2 * num(&p2)
        },
    );
    assert_eq!(value, 42);
}

#[test]
fn emit_vec_s_in_test() {
    let value = run_with_signals(
        &[2, 2],
        &|s| {
            seqs(vec![act(0), emit_vec_s_in(vec![s[0], s[1]]), pause(), pre(s[0]), pre(s[1]), act(1)])
        },
        &|_s| Value::pair(Value::list(vec![Value::Int(2), Value::Int(14)]), Value::Int(2)),
        &|v| {
            let (inner, p2) = parts(v);
            let (val, p1) = parts(inner);
            (7 * num(&p1) + 2 * num(&p2)) / num(&val)
        },
    );
    assert_eq!(value, 42);
}

#[test]
fn emit_vs_test() {
    let value = run_with_signals(
        &[2],
        &|s| seqs(vec![act(0), emit_vs(s[0], Value::Int(21)), pause(), pre(s[0]), act(1)]),
        &|_s| Value::Unit,
        &|v| num(&parts(v).1),
    );
    assert_eq!(value, 42);
}

#[test]
fn emit_vec_vs_test() {
    let value = run_with_signals(
        &[1, 1],
        &|s| {
            seqs(vec![
                act(0),
                emit_vec_vs(vec![(s[0], Value::Int(2)), (s[1], Value::Int(3))]),
                pause(),
                pre(s[0]),
                pre(s[1]),
                act(1),
            ])
        },
        &|_s| Value::Int(7),
        &|v| {
            let (inner, p2) = parts(v);
            let (val, p1) = parts(inner);
            num(&val) * num(&p1) * num(&p2)
        },
    );
    assert_eq!(value, 42);
}

/// Runs two instants of `make(signal)` with one multiplying signal of default
/// 2; `act(1)` stores in the cell what `last` makes of its input.  Returns the
/// cell after each instant.
fn two_instants(
    make: &dyn Fn(usize) -> Process,
    first: &dyn Fn(usize) -> Value,
    last: &dyn Fn(Value) -> i64,
) -> (i64, i64) {
    let value = Cell::new(0);
    let mut rt = Runtime::new();
    let signal = rt.new_mc(Value::Int(2), MUL);
    rt.spawn(make(signal));
    let f = |k: usize, v: Value| match k {
        MUL => mul_gather(v),
        0 => first(signal),
        _ => {
            value.set(last(v));
            Value::Unit
        }
    };
    rt.instant(&f).unwrap();
    let after_first = value.get();
    rt.instant(&f).unwrap();
    (after_first, value.get())
}

fn product(v: Value) -> i64 {
    let (a, b) = parts(v);
    num(&a) * num(&b)
}

#[test]
fn await_d_test() {
    let (a, b) = two_instants(
        &|s| seqs(vec![act(0), emit_vs(s, Value::Int(21)), await_d(), act(1)]),
        &|s| Value::Signal(s),
        &|v| num(&v),
    );
    assert_eq!(a, 0);
    assert_eq!(b, 42);
}

#[test]
fn non_await_d_test() {
    let (a, b) = two_instants(
        &|_s| seqs(vec![act(0), await_d(), act(1)]),
        &|s| Value::Signal(s),
        &|v| num(&v),
    );
    assert_eq!(a, 0);
    assert_eq!(b, 0);
}

#[test]
fn await_d_in_test() {
    let (a, b) = two_instants(
        &|s| seqs(vec![act(0), emit_vs(s, Value::Int(3)), await_d_in(), act(1)]),
        &|s| Value::pair(Value::Signal(s), Value::Int(7)),
        &product,
    );
    assert_eq!(a, 0);
    assert_eq!(b, 42);
}

#[test]
fn non_await_d_in_test() {
    let (a, b) = two_instants(
        &|_s| seqs(vec![act(0), await_d_in(), act(1)]),
        &|s| Value::pair(Value::Signal(s), Value::Int(7)),
        &product,
    );
    assert_eq!(a, 0);
    assert_eq!(b, 0);
}

#[test]
fn await_s_test() {
    let (a, b) = two_instants(
        &|s| seqs(vec![act(0), emit_vs(s, Value::Int(21)), await_s(s), act(1)]),
        &|_s| Value::Unit,
        &|v| num(&v),
    );
    assert_eq!(a, 0);
    assert_eq!(b, 42);
}

#[test]
fn non_await_s_test() {
    let (a, b) = two_instants(
        &|s| seqs(vec![act(0), await_s(s), act(1)]),
        &|_s| Value::Unit,
        &|v| num(&v),
    );
    assert_eq!(a, 0);
    assert_eq!(b, 0);
}

#[test]
fn await_s_in_test() {
    let (a, b) = two_instants(
        &|s| seqs(vec![act(0), emit_vs(s, Value::Int(3)), await_s_in(s), act(1)]),
        &|_s| Value::Int(7),
        &product,
    );
    assert_eq!(a, 0);
    assert_eq!(b, 42);
}

#[test]
fn non_await_s_in_test() {
    let (a, b) = two_instants(
        &|s| seqs(vec![act(0), await_s_in(s), act(1)]),
        &|_s| Value::Int(7),
        &product,
    );
    assert_eq!(a, 0);
    assert_eq!(b, 0);
}

/// `loop { |i| if i < 21 { True(i + 1) } else { False(i) }; pause() }`,
/// with the counting step as action 1.
fn count_to_21() -> Process {
    looping(pr::sequence(act(1), pause()))
}

/// The actions of the parallel tests: 0 starts with `(0, 0)`, 1 counts to
/// 21, 2 adds the pair, 3 checks 42, 4 returns 21.
fn par_actions(checked: &Cell<bool>, k: usize, v: Value) -> Value {
    match k {
        0 => Value::pair(Value::Int(0), Value::Int(0)),
        1 => {
            let i = num(&v);
            if i < 21 {
                Value::True(Box::new(Value::Int(i + 1)))
            } else {
                Value::False(Box::new(Value::Int(i)))
            }
        }
        2 => {
            let (a, b) = parts(v);
            Value::Int(num(&a) + num(&b))
        }
        3 => {
            assert_eq!(num(&v), 42);
            checked.set(true);
            Value::Unit
        }
        _ => Value::Int(21),
    }
}

fn run_par(middle: Process) {
    let checked = Cell::new(false);
    run(seqs(vec![act(0), middle, act(2), pause(), act(3)]), &|k, v| par_actions(&checked, k, v));
    assert!(checked.get());
}

#[test]
fn par() {
    run_par(pr::par(count_to_21(), count_to_21()));
}

#[test]
fn par_half_im() {
    run_par(pr::par(count_to_21(), act(4)));
}

#[test]
fn par_im() {
    run_par(pr::par(act(4), act(4)));
}

#[test]
fn big_par() {
    let value = Cell::new(-3);
    {
        let mut processes = vec![];
        for i in 0..10 {
            processes.push(pr::sequence(act(10 + i), pause()));
        }
        run(big_join(processes), &|k, _v| {
            value.set(value.get() + (k as i64 - 10));
            Value::Unit
        });
    }
    assert_eq!(value.get(), 42);
}
