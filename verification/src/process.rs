use vstd::prelude::*;
use crate::value::Value;

verus! {

/// How an emitting step finds the signals and the values to emit in the
/// value it receives, and what it passes on.
#[derive(Debug)]
pub enum EmitKind {
    /// Receives `(signal, v)`: emits `v` on `signal`, passes on `()`.
    Dynamic,
    /// Receives `((signal, v), w)`: emits `v` on `signal`, passes on `w`.
    DynamicIn,
    /// Receives a list of `(signal, v)`: emits each, passes on `()`.
    DynamicVec,
    /// Receives `(list of (signal, v), w)`: emits each, passes on `w`.
    DynamicVecIn,
    /// Receives `v`: emits `v` on the given signal, passes on `()`.
    Static(usize),
    /// Receives `(v, w)`: emits `v` on the given signal, passes on `w`.
    StaticIn(usize),
    /// Receives a list of values, one for each given signal, in order: emits
    /// them, passes on `()`.
    StaticVec(Vec<usize>),
    /// Receives `(list of values, w)`: emits as `StaticVec`, passes on `w`.
    StaticVecIn(Vec<usize>),
    /// Receives `w`: emits the given value on the given signal, passes on `w`.
    Constant(usize, Value),
    /// Receives `w`: emits each given value on its signal, passes on `w`.
    ConstantVec(Vec<(usize, Value)>),
}

/// How an awaiting step finds the signal it waits for, and what it passes on
/// once the signal was emitted.
#[derive(Debug)]
pub enum AwaitKind {
    /// Receives `signal`; passes on the signal's value.
    Dynamic,
    /// Receives `(signal, w)`; passes on `(value, w)`.
    DynamicIn,
    /// Receives anything; passes on the given signal's value.
    Static(usize),
    /// Receives `w`; passes on `(value, w)`.
    StaticIn(usize),
}

/// A reactive process: it receives a value, runs over one or more instants
/// and passes on a value.
#[derive(Debug)]
pub enum Process {
    /// Applies the user action with the given number to the value.
    Act(usize),
    /// Passes the value on at the next instant.
    Pause,
    /// Runs the first process, then the second on its result.
    Sequence(Box<Process>, Box<Process>),
    /// On `True(v)` runs the first process on `v`, on `False(v)` the second.
    Choice(Box<Process>, Box<Process>),
    /// Runs the body; while it ends with `True(v)` runs it again on `v`; when
    /// it ends with `False(v)`, passes on `v`.
    Loop(Box<Process>),
    /// Parallel composition of two processes.
    Par(Par),
    /// Parallel composition of many processes.
    BigPar(BigPar),
    /// Emits on signals.
    Emit(EmitKind),
    /// Waits for a signal.
    Await(AwaitKind),
    /// Receives `w`, passes on `(w, v)` where `v` is the value that the given
    /// signal had at the end of the last instant in which it was emitted.
    Pre(usize),
}

/// Two processes that run side by side.  On `(a, b)` the first runs on `a`
/// and the second on `b`; when both have ended the pair of their results is
/// passed on.
#[derive(Debug)]
pub struct Par(pub Box<Process>, pub Box<Process>);

/// Any number of processes that run side by side, each on a copy of the value
/// received; when all have ended, `()` is passed on.
#[derive(Debug)]
pub struct BigPar(pub Vec<Process>);

/// A step that applies the user action with number `action`.
pub fn act(action: usize) -> (p: Process)
    ensures
        p == Process::Act(action),
{
    Process::Act(action)
}

/// A step that passes its value on at the next instant.
pub fn pause() -> (p: Process)
    ensures
        p == Process::Pause,
{
    Process::Pause
}

/// `first` followed by `second`.
pub fn sequence(first: Process, second: Process) -> (p: Process)
    ensures
        p == Process::Sequence(Box::new(first), Box::new(second)),
{
    Process::Sequence(Box::new(first), Box::new(second))
}

/// A choice between `if_true` and `if_false`.
pub fn choice(if_true: Process, if_false: Process) -> (p: Process)
    ensures
        p == Process::Choice(Box::new(if_true), Box::new(if_false)),
{
    Process::Choice(Box::new(if_true), Box::new(if_false))
}

/// A loop over `body`.
pub fn looping(body: Process) -> (p: Process)
    ensures
        p == Process::Loop(Box::new(body)),
{
    Process::Loop(Box::new(body))
}

/// `left` and `right` side by side.
pub fn par(left: Process, right: Process) -> (p: Process)
    ensures
        p == Process::Par(Par(Box::new(left), Box::new(right))),
{
    Process::Par(Par(Box::new(left), Box::new(right)))
}

/// All of `processes` side by side.
pub fn big_join(processes: Vec<Process>) -> (p: Process)
    ensures
        p == Process::BigPar(BigPar(processes)),
{
    Process::BigPar(BigPar(processes))
}

/// Emits `v` on `signal`, receiving `(signal, v)`.
pub fn emit_d() -> (p: Process)
    ensures
        p == Process::Emit(EmitKind::Dynamic),
{
    Process::Emit(EmitKind::Dynamic)
}

/// Emits `v` on `signal`, receiving `((signal, v), w)`.
pub fn emit_d_in() -> (p: Process)
    ensures
        p == Process::Emit(EmitKind::DynamicIn),
{
    Process::Emit(EmitKind::DynamicIn)
}

/// Emits each `(signal, v)` of the list received.
pub fn emit_d_vec() -> (p: Process)
    ensures
        p == Process::Emit(EmitKind::DynamicVec),
{
    Process::Emit(EmitKind::DynamicVec)
}

/// Emits each `(signal, v)` of the list in `(list, w)`, passes on `w`.
pub fn emit_d_vec_in() -> (p: Process)
    ensures
        p == Process::Emit(EmitKind::DynamicVecIn),
{
    Process::Emit(EmitKind::DynamicVecIn)
}

/// Emits the value received on `signal`.
pub fn emit_s(signal: usize) -> (p: Process)
    ensures
        p == Process::Emit(EmitKind::Static(signal)),
{
    Process::Emit(EmitKind::Static(signal))
}

/// Emits `v` on `signal`, receiving `(v, w)`, and passes on `w`.
pub fn emit_s_in(signal: usize) -> (p: Process)
    ensures
        p == Process::Emit(EmitKind::StaticIn(signal)),
{
    Process::Emit(EmitKind::StaticIn(signal))
}

/// Emits the values of the list received on `signals`, one each.
pub fn emit_vec_s(signals: Vec<usize>) -> (p: Process)
    ensures
        p == Process::Emit(EmitKind::StaticVec(signals)),
{
    Process::Emit(EmitKind::StaticVec(signals))
}

/// Emits the values of the list in `(list, w)` on `signals`, passes on `w`.
pub fn emit_vec_s_in(signals: Vec<usize>) -> (p: Process)
    ensures
        p == Process::Emit(EmitKind::StaticVecIn(signals)),
{
    Process::Emit(EmitKind::StaticVecIn(signals))
}

/// Emits `v` on `signal` and passes on what it received.
pub fn emit_vs(signal: usize, v: Value) -> (p: Process)
    ensures
        p == Process::Emit(EmitKind::Constant(signal, v)),
{
    Process::Emit(EmitKind::Constant(signal, v))
}

/// Emits each `(signal, v)` of `emissions` and passes on what it received.
pub fn emit_vec_vs(emissions: Vec<(usize, Value)>) -> (p: Process)
    ensures
        p == Process::Emit(EmitKind::ConstantVec(emissions)),
{
    Process::Emit(EmitKind::ConstantVec(emissions))
}

/// Waits for the signal received.
pub fn await_d() -> (p: Process)
    ensures
        p == Process::Await(AwaitKind::Dynamic),
{
    Process::Await(AwaitKind::Dynamic)
}

/// Waits for the signal in `(signal, w)`.
pub fn await_d_in() -> (p: Process)
    ensures
        p == Process::Await(AwaitKind::DynamicIn),
{
    Process::Await(AwaitKind::DynamicIn)
}

/// Waits for `signal`.
pub fn await_s(signal: usize) -> (p: Process)
    ensures
        p == Process::Await(AwaitKind::Static(signal)),
{
    Process::Await(AwaitKind::Static(signal))
}

/// Waits for `signal`, keeping the value received.
pub fn await_s_in(signal: usize) -> (p: Process)
    ensures
        p == Process::Await(AwaitKind::StaticIn(signal)),
{
    Process::Await(AwaitKind::StaticIn(signal))
}

/// Reads the last value of `signal`, keeping the value received.
pub fn pre(signal: usize) -> (p: Process)
    ensures
        p == Process::Pre(signal),
{
    Process::Pre(signal)
}

} // verus!
