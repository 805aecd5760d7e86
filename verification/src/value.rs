use vstd::prelude::*;

verus! {

/// The values that flow between the steps of a process.
#[derive(Debug, PartialEq, Eq)]
pub enum Value {
    Unit,
    Int(i64),
    Pair(Box<Value>, Box<Value>),
    /// The "continue" / "then" case of a choice or a loop body.
    True(Box<Value>),
    /// The "stop" / "else" case of a choice or a loop body.
    False(Box<Value>),
    /// A reference to a signal of the runtime, by its number.
    Signal(usize),
    /// The empty list.
    Nil,
    /// A list cell: head and tail.
    Cons(Box<Value>, Box<Value>),
}

impl Value {
    /// A copy of the value.
    pub fn duplicate(&self) -> (r: Value)
        ensures
            r == *self,
        decreases self,
    {
        match self {
            Value::Unit => Value::Unit,
            Value::Int(i) => Value::Int(*i),
            Value::Pair(a, b) => Value::Pair(Box::new(a.duplicate()), Box::new(b.duplicate())),
            Value::True(a) => Value::True(Box::new(a.duplicate())),
            Value::False(a) => Value::False(Box::new(a.duplicate())),
            Value::Signal(s) => Value::Signal(*s),
            Value::Nil => Value::Nil,
            Value::Cons(a, b) => Value::Cons(Box::new(a.duplicate()), Box::new(b.duplicate())),
        }
    }
}


/// The list holding `items`, in order.
pub open spec fn list_spec(items: Seq<Value>) -> Value
    decreases items.len(),
{
    if items.len() == 0 {
        Value::Nil
    } else {
        Value::Cons(Box::new(items[0]), Box::new(list_spec(items.drop_first())))
    }
}

impl Value {
    /// The pair `(a, b)`.
    pub fn pair(a: Value, b: Value) -> (r: Value)
        ensures
            r == Value::Pair(Box::new(a), Box::new(b)),
    {
        Value::Pair(Box::new(a), Box::new(b))
    }

    /// The list holding `items`, in order.
    pub fn list(items: Vec<Value>) -> (r: Value)
        ensures
            r == list_spec(items@),
    {
        let ghost all = items@;
        let mut items = items;
        let mut r = Value::Nil;
        proof {
            assert(all.subrange(all.len() as int, all.len() as int).len() == 0);
        }
        while items.len() > 0
            invariant
                items@ == all.subrange(0, items@.len() as int),
                items@.len() <= all.len(),
                r == list_spec(all.subrange(items@.len() as int, all.len() as int)),
            decreases items@.len(),
        {
            let i = items.len() - 1;
            let x = items.pop().unwrap();
            proof {
                let rest = all.subrange(i as int, all.len() as int);
                assert(rest.drop_first() =~= all.subrange(i + 1, all.len() as int));
                assert(rest[0] == x);
                assert(items@ =~= all.subrange(0, i as int));
            }
            r = Value::Cons(Box::new(x), Box::new(r));
        }
        r
    }
}

} // verus!
