use std::cell::Cell;

use reactivers2::dot::{DotItem, Mark, Port, Shape};
use reactivers2::engine::Runtime;
use reactivers2::life::{life_rule, Board, LifeAction};
use reactivers2::dot::dot_text;
use reactivers2::model::Fault;
use reactivers2::process::{
    act, await_d, await_s, big_join, emit_d, emit_s, emit_vs, looping, pause, pre, Par, BigPar,
    Process,
};
use reactivers2::process as pr;
use reactivers2::value::Value;

fn num(v: &Value) -> i64 {
    match v {
        Value::Int(i) => *i,
        other => panic!("not an integer: {:?}", other),
    }
}

fn chain(mut ps: Vec<Process>) -> Process {
    let mut p = ps.pop().unwrap();
    while let Some(q) = ps.pop() {
        p = pr::sequence(q, p);
    }
    p
}

fn ints(v: Value) -> Vec<i64> {
    match v {
        Value::Pair(a, b) => {
            let mut l = ints(*a);
            l.extend(ints(*b));
            l
        }
        Value::Int(i) => vec![i],
        other => panic!("unexpected {:?}", other),
    }
}

#[test]
fn result_of_a_single_action() {
    let mut rt = Runtime::new();
    rt.spawn(act(7));
    let more = rt.instant(&|k: usize, _v: Value| Value::Int(k as i64 * 6)).unwrap();
    assert!(!more);
    assert_eq!(rt.result(), Some(Value::Int(42)));
}

#[test]
fn pause_carries_the_value_to_the_next_instant() {
    let mut rt = Runtime::new();
    rt.spawn(chain(vec![act(0), pause(), act(1)]));
    let seen = Cell::new(0);
    let f = |k: usize, v: Value| match k {
        0 => Value::Int(5),
        _ => {
            seen.set(num(&v));
            v
        }
    };
    assert_eq!(rt.instant(&f), Ok(true));
    assert_eq!(seen.get(), 0);
    assert_eq!(rt.result(), None);
    assert_eq!(rt.runnable_count(), 1);
    assert_eq!(rt.instant(&f), Ok(false));
    assert_eq!(seen.get(), 5);
    assert_eq!(rt.result(), Some(Value::Int(5)));
}

#[test]
fn choice_takes_the_false_branch() {
    let mut rt = Runtime::new();
    rt.spawn(pr::sequence(act(0), pr::choice(act(1), act(2))));
    rt.execute(&|k: usize, v: Value| match k {
        0 => Value::False(Box::new(Value::Int(3))),
        1 => unreachable!(),
        _ => Value::Int(num(&v) * 2),
    })
    .unwrap();
    assert_eq!(rt.result(), Some(Value::Int(6)));
}

#[test]
fn choice_on_a_plain_value_is_a_mismatch() {
    let mut rt = Runtime::new();
    rt.spawn(pr::sequence(act(0), pr::choice(act(1), act(2))));
    let r = rt.execute(&|_k: usize, _v: Value| Value::Int(1));
    assert!(matches!(r, Err(Fault::Mismatch(_))));
}

#[test]
fn loop_on_a_plain_value_is_a_mismatch() {
    let mut rt = Runtime::new();
    rt.spawn(looping(act(0)));
    let r = rt.execute(&|_k: usize, _v: Value| Value::Unit);
    assert!(matches!(r, Err(Fault::Mismatch(_))));
}

#[test]
fn loop_runs_until_false() {
    let mut rt = Runtime::new();
    rt.spawn(pr::sequence(act(0), looping(act(1))));
    rt.execute(&|k: usize, v: Value| match k {
        0 => Value::Int(0),
        _ => {
            let i = num(&v);
            if i < 10 {
                Value::True(Box::new(Value::Int(i + 1)))
            } else {
                Value::False(Box::new(Value::Int(i)))
            }
        }
    })
    .unwrap();
    assert_eq!(rt.result(), Some(Value::Int(10)));
}

#[test]
fn par_pairs_results_whichever_side_ends_first() {
    // The left side ends two instants after the right one.
    let mut rt = Runtime::new();
    rt.spawn(pr::sequence(
        act(0),
        pr::par(chain(vec![pause(), pause(), act(1)]), act(2)),
    ));
    rt.execute(&|k: usize, _v: Value| match k {
        0 => Value::pair(Value::Unit, Value::Unit),
        1 => Value::Int(1),
        _ => Value::Int(2),
    })
    .unwrap();
    assert_eq!(ints(rt.result().unwrap()), vec![1, 2]);
}

#[test]
fn par_on_a_plain_value_is_a_mismatch() {
    let mut rt = Runtime::new();
    rt.spawn(pr::par(act(0), act(1)));
    assert!(matches!(rt.execute(&|_k: usize, v: Value| v), Err(Fault::Mismatch(_))));
}

#[test]
fn par_join_can_be_reused_by_a_loop() {
    let mut rt = Runtime::new();
    rt.spawn(pr::sequence(
        act(0),
        looping(chain(vec![act(1), pr::par(act(2), act(3)), act(4)])),
    ));
    let rounds = Cell::new(0);
    rt.execute(&|k: usize, v: Value| match k {
        0 => Value::Int(0),
        1 => Value::pair(v, Value::Int(1)),
        2 => v,
        3 => v,
        _ => {
            rounds.set(rounds.get() + 1);
            let l = ints(v);
            let i = l[0] + l[1];
            if i < 3 {
                Value::True(Box::new(Value::Int(i)))
            } else {
                Value::False(Box::new(Value::Int(i)))
            }
        }
    })
    .unwrap();
    assert_eq!(rounds.get(), 3);
    assert_eq!(rt.result(), Some(Value::Int(3)));
}

#[test]
fn big_join_goes_on_once_after_every_branch() {
    let count = Cell::new(0);
    let mut rt = Runtime::new();
    let branches = vec![pause(), chain(vec![pause(), pause()]), act(1)];
    rt.spawn(pr::sequence(big_join(branches), act(2)));
    rt.execute(&|k: usize, _v: Value| {
        if k == 2 {
            count.set(count.get() + 1);
        }
        Value::Unit
    })
    .unwrap();
    assert_eq!(count.get(), 1);
    assert_eq!(rt.result(), Some(Value::Unit));
}

#[test]
fn big_join_of_nothing_never_goes_on() {
    let mut rt = Runtime::new();
    rt.spawn(big_join(vec![]));
    rt.execute(&|_k: usize, v: Value| v).unwrap();
    assert_eq!(rt.result(), None);
}

#[test]
fn gather_combines_emissions_in_order() {
    let mut rt = Runtime::new();
    let s = rt.new_mc(Value::Int(0), 100);
    rt.spawn(chain(vec![
        emit_vs(s, Value::Int(1)),
        emit_vs(s, Value::Int(2)),
        emit_vs(s, Value::Int(3)),
        pause(),
        pre(s),
    ]));
    rt.execute(&|k: usize, v: Value| match (k, v) {
        (100, Value::Pair(e, acc)) => Value::Int(num(&acc) * 10 + num(&e)),
        (_, v) => v,
    })
    .unwrap();
    assert_eq!(rt.pre(s), Some(Value::Int(123)));
    match rt.result() {
        Some(Value::Pair(_, p)) => assert_eq!(*p, Value::Int(123)),
        other => panic!("unexpected {:?}", other),
    }
}

#[test]
fn pre_keeps_the_last_value_across_silent_instants() {
    let mut rt = Runtime::new();
    let s = rt.new_mc(Value::Int(2), 100);
    rt.spawn(chain(vec![emit_vs(s, Value::Int(5)), pause(), pause(), pause(), pre(s)]));
    rt.execute(&|k: usize, v: Value| match (k, v) {
        (100, Value::Pair(e, acc)) => Value::Int(num(&acc) * num(&e)),
        (_, v) => v,
    })
    .unwrap();
    match rt.result() {
        Some(Value::Pair(_, p)) => assert_eq!(*p, Value::Int(10)),
        other => panic!("unexpected {:?}", other),
    }
}

#[test]
fn pre_starts_at_the_default_value() {
    let mut rt = Runtime::new();
    let s = rt.new_mc(Value::Int(9), 100);
    assert_eq!(rt.pre(s), Some(Value::Int(9)));
    assert_eq!(rt.pre(s + 1), None);
    let p = rt.new_pure();
    assert_eq!(rt.pre(p), Some(Value::Unit));
    assert_eq!(rt.signal_count(), 2);
}

#[test]
fn pre_of_an_unknown_signal_is_a_mismatch() {
    let mut rt = Runtime::new();
    rt.spawn(pre(3));
    assert!(matches!(rt.execute(&|_k: usize, v: Value| v), Err(Fault::Mismatch(_))));
}

#[test]
fn emit_on_an_unknown_signal_is_a_mismatch() {
    let mut rt = Runtime::new();
    rt.spawn(pr::sequence(act(0), emit_d()));
    let r = rt.execute(&|_k: usize, _v: Value| Value::pair(Value::Signal(4), Value::Int(1)));
    assert!(matches!(r, Err(Fault::Mismatch(_))));
    let mut rt = Runtime::new();
    rt.spawn(emit_s(0));
    assert!(matches!(rt.execute(&|_k: usize, v: Value| v), Err(Fault::Mismatch(_))));
}

#[test]
fn await_of_a_non_signal_is_a_mismatch() {
    let mut rt = Runtime::new();
    rt.spawn(await_d());
    assert!(matches!(rt.execute(&|_k: usize, v: Value| v), Err(Fault::Mismatch(_))));
}

#[test]
fn await_resumes_only_after_an_emission() {
    let resumed = Cell::new(false);
    let mut rt = Runtime::new();
    let s = rt.new_pure();
    rt.spawn(pr::sequence(
        act(9),
        pr::par(pr::sequence(await_s(s), act(1)), chain(vec![pause(), pause(), emit_s(s)])),
    ));
    let f = |k: usize, v: Value| match k {
        9 => Value::pair(Value::Unit, Value::Unit),
        _ => {
            resumed.set(true);
            v
        }
    };
    assert_eq!(rt.instant(&f), Ok(true));
    assert_eq!(rt.waiting_count(), 1);
    assert_eq!(rt.instant(&f), Ok(true));
    assert!(!resumed.get());
    // The emission happens in this instant; the waiter goes on at the next.
    assert_eq!(rt.instant(&f), Ok(true));
    assert!(!resumed.get());
    assert_eq!(rt.waiting_count(), 0);
    assert_eq!(rt.instant(&f), Ok(false));
    assert!(resumed.get());
}

#[test]
fn spawn_compiles_one_node_per_step() {
    let mut rt = Runtime::new();
    rt.spawn(pr::par(act(0), act(1)));
    // Finish, two joins, two actions and the fork.
    assert_eq!(rt.node_count(), 6);
    rt.spawn(big_join(vec![act(0), act(1), act(2)]));
    // Finish, the join, three actions and the fork.
    assert_eq!(rt.node_count(), 12);
    rt.spawn(looping(pause()));
    // Finish, the loop test and the pause.
    assert_eq!(rt.node_count(), 15);
}

#[test]
fn list_and_duplicate() {
    let l = Value::list(vec![Value::Int(1), Value::Int(2)]);
    assert_eq!(
        l,
        Value::Cons(
            Box::new(Value::Int(1)),
            Box::new(Value::Cons(Box::new(Value::Int(2)), Box::new(Value::Nil)))
        )
    );
    assert_eq!(l.duplicate(), l);
    assert_eq!(Value::list(vec![]), Value::Nil);
}

#[test]
fn par_drawing_numbers_sides_first() {
    let p = Par(Box::new(act(3)), Box::new(pause()));
    let mut cur = 10;
    let mut out = Vec::new();
    let (b, e) = p.dot(&mut cur, &mut out);
    assert_eq!((b, e, cur), (12, 13, 14));
    assert_eq!(
        out,
        vec![
            DotItem::Node { id: 10, shape: Shape::Box, mark: Mark::Act(3) },
            DotItem::Node { id: 11, shape: Shape::Box, mark: Mark::Pause },
            DotItem::Node { id: 12, shape: Shape::Triangle, mark: Mark::Blank },
            DotItem::Edge { from: 12, from_port: Port::SouthWest, to: 10, to_port: Port::North },
            DotItem::Edge { from: 12, from_port: Port::SouthEast, to: 11, to_port: Port::North },
            DotItem::Node { id: 13, shape: Shape::InvTriangle, mark: Mark::Blank },
            DotItem::Edge { from: 10, from_port: Port::South, to: 13, to_port: Port::NorthWest },
            DotItem::Edge { from: 11, from_port: Port::South, to: 13, to_port: Port::NorthEast },
        ]
    );
}

#[test]
fn big_par_drawing_is_one_box() {
    let p = BigPar(vec![act(0), act(1)]);
    let mut cur = 4;
    let mut out = Vec::new();
    assert_eq!(p.dot(&mut cur, &mut out), (4, 4));
    assert_eq!(cur, 5);
    assert_eq!(out, vec![DotItem::Node { id: 4, shape: Shape::Box, mark: Mark::BigPar }]);
}

#[test]
fn life_rule_cases() {
    assert!(life_rule(3, false));
    assert!(life_rule(3, true));
    assert!(life_rule(2, true));
    assert!(!life_rule(2, false));
    assert!(!life_rule(4, true));
    assert!(!life_rule(1, true));
}

#[test]
fn board_neighbours_wrap_around() {
    let mut rt = Runtime::new();
    let b = Board::new(&mut rt, 4, 3);
    assert_eq!(rt.signal_count(), 12);
    assert_eq!(b.signals[2][3], 11);
    assert_eq!(b.signals.len(), 4);
    assert!(b.signals[3].is_empty());
    assert_eq!(rt.pre(11), Some(Value::Int(0)));
    assert_eq!(b.neighbours(0, 0), vec![11, 8, 9, 3, 1, 7, 4, 5]);
    assert_eq!(b.neighbours(1, 2), vec![1, 2, 3, 5, 7, 9, 10, 11]);
}

#[test]
fn board_render_and_reset() {
    let mut rt = Runtime::new();
    let mut b = Board::new(&mut rt, 3, 2);
    b.set_alive(0, 1);
    b.set_alive(1, 2);
    assert!(b.is_alive(0, 1));
    assert!(!b.is_alive(0, 0));
    let text: String = b.render().into_iter().collect();
    assert_eq!(text, " + \n  +\n");
    b.reset();
    let text: String = b.render().into_iter().collect();
    assert_eq!(text, "   \n   \n");
}

#[test]
fn seeded_row_grows_after_two_instants() {
    const STOP: usize = 0;
    const RULE: usize = 2;
    let (w, h) = (5usize, 5usize);
    let birth = RULE + w * h;
    let mut rt = Runtime::new();
    let board = Board::new(&mut rt, w, h);
    let seed = || {
        reactivers2::process::emit_vec_vs(vec![
            (board.signals[2][1], Value::Unit),
            (board.signals[2][2], Value::Unit),
            (board.signals[2][3], Value::Unit),
        ])
    };
    let program = chain(vec![seed(), seed(), seed(), board.cells_process(RULE, birth, STOP)]);
    rt.spawn(program);
    let board = std::cell::RefCell::new(board);
    let f = |k: usize, v: Value| board.borrow_mut().react(k, v, RULE, birth, STOP);
    for _ in 0..3 {
        rt.instant(&f).unwrap();
    }
    let text: String = board.borrow().render().into_iter().collect();
    assert_eq!(text, "     \n  +  \n +++ \n  +  \n     \n");
}

#[test]
fn counter_counts_emissions_of_an_instant() {
    let mut rt = Runtime::new();
    let s = rt.new_counter();
    rt.spawn(chain(vec![
        emit_vs(s, Value::Unit),
        emit_vs(s, Value::Int(7)),
        emit_vs(s, Value::Unit),
        pause(),
        emit_vs(s, Value::Unit),
        pause(),
        pre(s),
    ]));
    rt.execute(&|_k: usize, v: Value| v).unwrap();
    match rt.result() {
        Some(Value::Pair(_, p)) => assert_eq!(*p, Value::Int(1)),
        other => panic!("unexpected {:?}", other),
    }
}

#[test]
fn par_drawing_text_matches_the_dot_lines() {
    let p = Par(Box::new(act(3)), Box::new(pause()));
    let mut cur = 0;
    let mut out = Vec::new();
    p.dot(&mut cur, &mut out);
    let text: String = dot_text(&out).into_iter().collect();
    assert_eq!(
        text,
        "0 [shape = box, label = \"act 3\"]\n\
         1 [shape = box, label = \"pause\"]\n\
         2 [shape = triangle, label = \"\"]\n\
         2:sw -> 0:n [label = \"\"]\n\
         2:se -> 1:n [label = \"\"]\n\
         3 [shape= invtriangle, label = \"\"]\n\
         0:s -> 3:nw [label = \"\"]\n\
         1:s -> 3:ne [label = \"\"]\n"
    );
    let mut out = Vec::new();
    let mut cur = 120;
    BigPar(vec![]).dot(&mut cur, &mut out);
    let text: String = dot_text(&out).into_iter().collect();
    assert_eq!(text, "120 [shape = box, label= \"BigPar\"];\n");
}

#[test]
fn board_actions_are_classified_and_applied() {
    let mut rt = Runtime::new();
    let mut b = Board::new(&mut rt, 3, 2);
    // stop 0, rules 1..7, births 7..13
    assert_eq!(b.action(0, &Value::Unit, 1, 7, 0), LifeAction::Stop);
    assert_eq!(b.action(8, &Value::Unit, 1, 7, 0), LifeAction::Birth { row: 0, col: 1 });
    let counted = Value::pair(Value::Int(3), Value::Unit);
    assert_eq!(b.action(6, &counted, 1, 7, 0), LifeAction::Rule { row: 1, col: 2, count: 3 });
    assert_eq!(b.action(6, &Value::Unit, 1, 7, 0), LifeAction::Unknown);
    assert_eq!(b.action(13, &Value::Unit, 1, 7, 0), LifeAction::Unknown);
    assert_eq!(b.react(6, counted, 1, 7, 0), Value::True(Box::new(Value::Unit)));
    assert_eq!(
        b.react(6, Value::pair(Value::Int(2), Value::Unit), 1, 7, 0),
        Value::False(Box::new(Value::Unit))
    );
    assert_eq!(b.react(12, Value::Unit, 1, 7, 0), Value::False(Box::new(Value::Unit)));
    assert!(b.is_alive(1, 2));
    assert_eq!(
        b.react(6, Value::pair(Value::Int(2), Value::Unit), 1, 7, 0),
        Value::True(Box::new(Value::Unit))
    );
}
