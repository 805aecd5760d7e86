use vstd::prelude::*;
use vstd::string::*;
use crate::process::{BigPar, Par, Process};

verus! {

/// The shape of a drawn node.
#[derive(Debug, PartialEq, Eq)]
pub enum Shape {
    Triangle,
    InvTriangle,
    Box,
    Diamond,
    Circle,
}

/// A side of a drawn node where an edge starts or ends.
#[derive(Debug, PartialEq, Eq)]
pub enum Port {
    North,
    South,
    SouthWest,
    SouthEast,
    NorthWest,
    NorthEast,
}

/// What a drawn node is labelled with.
#[derive(Debug, PartialEq, Eq)]
pub enum Mark {
    Blank,
    BigPar,
    Act(usize),
    Pause,
    Emit,
    Await,
    Pre(usize),
    Choice,
    Loop,
}

/// One line of a drawing of a process in the DOT language.
#[derive(Debug, PartialEq, Eq)]
pub enum DotItem {
    Node { id: usize, shape: Shape, mark: Mark },
    Edge { from: usize, from_port: Port, to: usize, to_port: Port },
}

/// A drawing: its lines, its first and last node, and the next free number.
pub struct Drawing {
    pub items: Seq<DotItem>,
    pub begin: nat,
    pub end: nat,
    pub next: nat,
}

/// The number of nodes drawn for `p`.
pub open spec fn dot_count(p: Process) -> nat
    decreases p,
{
    match p {
        Process::Sequence(a, b) => dot_count(*a) + dot_count(*b),
        Process::Choice(a, b) => 2 + dot_count(*a) + dot_count(*b),
        Process::Loop(b) => 1 + dot_count(*b),
        Process::Par(Par(a, b)) => 2 + dot_count(*a) + dot_count(*b),
        _ => 1,
    }
}

/// The mark of a process drawn as one box.
pub open spec fn leaf_mark(p: Process) -> Mark {
    match p {
        Process::Act(k) => Mark::Act(k),
        Process::Pause => Mark::Pause,
        Process::Emit(_) => Mark::Emit,
        Process::Await(_) => Mark::Await,
        Process::Pre(s) => Mark::Pre(s),
        Process::BigPar(_) => Mark::BigPar,
        _ => Mark::Blank,
    }
}

/// The lines that join two drawings side by side: a `top` node above their
/// first nodes and a `bottom` node below their last nodes.
pub open spec fn fork_items(
    top: nat,
    top_shape: Shape,
    top_mark: Mark,
    dp: Drawing,
    dq: Drawing,
) -> Seq<DotItem> {
    seq![
        DotItem::Node { id: top as usize, shape: top_shape, mark: top_mark },
        DotItem::Edge { from: top as usize, from_port: Port::SouthWest, to: dp.begin as usize, to_port: Port::North },
        DotItem::Edge { from: top as usize, from_port: Port::SouthEast, to: dq.begin as usize, to_port: Port::North },
        DotItem::Node { id: (top + 1) as usize, shape: Shape::InvTriangle, mark: Mark::Blank },
        DotItem::Edge { from: dp.end as usize, from_port: Port::South, to: (top + 1) as usize, to_port: Port::NorthWest },
        DotItem::Edge { from: dq.end as usize, from_port: Port::South, to: (top + 1) as usize, to_port: Port::NorthEast },
    ]
}

/// The drawing of `p` with its nodes numbered from `cur`.
pub open spec fn drawing(p: Process, cur: nat) -> Drawing
    decreases p,
{
    match p {
        Process::Sequence(a, b) => {
            let da = drawing(*a, cur);
            let db = drawing(*b, da.next);
            Drawing {
                items: da.items + db.items + seq![
                    DotItem::Edge { from: da.end as usize, from_port: Port::South, to: db.begin as usize, to_port: Port::North },
                ],
                begin: da.begin,
                end: db.end,
                next: db.next,
            }
        },
        Process::Choice(a, b) => {
            let da = drawing(*a, cur);
            let db = drawing(*b, da.next);
            Drawing {
                items: da.items + db.items + fork_items(db.next, Shape::Diamond, Mark::Choice, da, db),
                begin: db.next,
                end: db.next + 1,
                next: db.next + 2,
            }
        },
        Process::Loop(b) => {
            let db = drawing(*b, cur);
            let l = db.next;
            Drawing {
                items: db.items + seq![
                    DotItem::Node { id: l as usize, shape: Shape::Circle, mark: Mark::Loop },
                    DotItem::Edge { from: l as usize, from_port: Port::South, to: db.begin as usize, to_port: Port::North },
                    DotItem::Edge { from: db.end as usize, from_port: Port::South, to: l as usize, to_port: Port::North },
                ],
                begin: l,
                end: l,
                next: l + 1,
            }
        },
        Process::Par(Par(a, b)) => {
            let da = drawing(*a, cur);
            let db = drawing(*b, da.next);
            Drawing {
                items: da.items + db.items + fork_items(db.next, Shape::Triangle, Mark::Blank, da, db),
                begin: db.next,
                end: db.next + 1,
                next: db.next + 2,
            }
        },
        _ => Drawing {
            items: seq![DotItem::Node { id: cur as usize, shape: Shape::Box, mark: leaf_mark(p) }],
            begin: cur,
            end: cur,
            next: cur + 1,
        },
    }
}

/// A drawing numbers exactly `dot_count(p)` nodes, from `cur` on, and its
/// first and last node are among them.
pub proof fn lemma_drawing_numbers(p: Process, cur: nat)
    ensures
        drawing(p, cur).next == cur + dot_count(p),
        cur <= drawing(p, cur).begin < drawing(p, cur).next,
        cur <= drawing(p, cur).end < drawing(p, cur).next,
    decreases p,
{
    match p {
        Process::Sequence(a, b) => {
            lemma_drawing_numbers(*a, cur);
            lemma_drawing_numbers(*b, drawing(*a, cur).next);
        },
        Process::Choice(a, b) => {
            lemma_drawing_numbers(*a, cur);
            lemma_drawing_numbers(*b, drawing(*a, cur).next);
        },
        Process::Loop(b) => {
            lemma_drawing_numbers(*b, cur);
        },
        Process::Par(Par(a, b)) => {
            lemma_drawing_numbers(*a, cur);
            lemma_drawing_numbers(*b, drawing(*a, cur).next);
        },
        _ => {},
    }
}

fn push_fork(
    out: &mut Vec<DotItem>,
    top: usize,
    top_shape: Shape,
    top_mark: Mark,
    bp: usize,
    ep: usize,
    bq: usize,
    eq: usize,
)
    requires
        top < usize::MAX,
    ensures
        final(out)@ == old(out)@ + fork_items(
            top as nat,
            top_shape,
            top_mark,
            Drawing { items: Seq::empty(), begin: bp as nat, end: ep as nat, next: 0 },
            Drawing { items: Seq::empty(), begin: bq as nat, end: eq as nat, next: 0 },
        ),
{
    let ghost o = out@;
    out.push(DotItem::Node { id: top, shape: top_shape, mark: top_mark });
    out.push(DotItem::Edge { from: top, from_port: Port::SouthWest, to: bp, to_port: Port::North });
    out.push(DotItem::Edge { from: top, from_port: Port::SouthEast, to: bq, to_port: Port::North });
    out.push(DotItem::Node { id: top + 1, shape: Shape::InvTriangle, mark: Mark::Blank });
    out.push(DotItem::Edge { from: ep, from_port: Port::South, to: top + 1, to_port: Port::NorthWest });
    out.push(DotItem::Edge { from: eq, from_port: Port::South, to: top + 1, to_port: Port::NorthEast });
    proof {
        let d1 = Drawing { items: Seq::empty(), begin: bp as nat, end: ep as nat, next: 0 };
        let d2 = Drawing { items: Seq::empty(), begin: bq as nat, end: eq as nat, next: 0 };
        assert(out@ =~= o + fork_items(top as nat, top_shape, top_mark, d1, d2));
    }
}

impl Process {
    /// Draws the process, numbering its nodes from `*cur` on and advancing
    /// `*cur` past them; appends the lines to `out` and returns the first and
    /// the last node.
    pub fn dot(&self, cur: &mut usize, out: &mut Vec<DotItem>) -> (r: (usize, usize))
        requires
            *old(cur) + dot_count(*self) <= usize::MAX,
        ensures
            ({
                let d = drawing(*self, *old(cur) as nat);
                &&& final(out)@ == old(out)@ + d.items
                &&& r.0 == d.begin
                &&& r.1 == d.end
                &&& *final(cur) == d.next
            }),
        decreases self,
    {
        proof {
            lemma_drawing_numbers(*self, *cur as nat);
        }
        let ghost c0 = *cur as nat;
        let ghost o = out@;
        match self {
            Process::Sequence(a, b) => {
                proof {
                    lemma_drawing_numbers(**a, c0);
                }
                let (ba, ea) = a.dot(cur, out);
                let (bb, eb) = b.dot(cur, out);
                out.push(DotItem::Edge { from: ea, from_port: Port::South, to: bb, to_port: Port::North });
                proof {
                    let da = drawing(**a, c0);
                    let db = drawing(**b, da.next);
                    assert(out@ =~= o + drawing(*self, c0).items);
                }
                (ba, eb)
            },
            Process::Choice(a, b) => {
                proof {
                    lemma_drawing_numbers(**a, c0);
                }
                let (ba, ea) = a.dot(cur, out);
                let (bb, eb) = b.dot(cur, out);
                let top = *cur;
                push_fork(out, top, Shape::Diamond, Mark::Choice, ba, ea, bb, eb);
                *cur = top + 2;
                proof {
                    assert(out@ =~= o + drawing(*self, c0).items);
                }
                (top, top + 1)
            },
            Process::Loop(b) => {
                let (bb, eb) = b.dot(cur, out);
                let l = *cur;
                out.push(DotItem::Node { id: l, shape: Shape::Circle, mark: Mark::Loop });
                out.push(DotItem::Edge { from: l, from_port: Port::South, to: bb, to_port: Port::North });
                out.push(DotItem::Edge { from: eb, from_port: Port::South, to: l, to_port: Port::North });
                *cur = l + 1;
                proof {
                    assert(out@ =~= o + drawing(*self, c0).items);
                }
                (l, l)
            },
            Process::Par(p) => p.dot(cur, out),
            Process::BigPar(p) => p.dot(cur, out),
            _ => {
                let n = *cur;
                let mark = match self {
                    Process::Act(k) => Mark::Act(*k),
                    Process::Pause => Mark::Pause,
                    Process::Emit(_) => Mark::Emit,
                    Process::Await(_) => Mark::Await,
                    Process::Pre(s) => Mark::Pre(*s),
                    _ => Mark::Blank,
                };
                out.push(DotItem::Node { id: n, shape: Shape::Box, mark });
                *cur = n + 1;
                proof {
                    assert(out@ =~= o + drawing(*self, c0).items);
                }
                (n, n)
            },
        }
    }
}

impl Par {
    /// Draws both sides, then a triangle above them and an inverted triangle
    /// below them, numbered after both sides; returns these two nodes.
    pub fn dot(&self, cur: &mut usize, out: &mut Vec<DotItem>) -> (r: (usize, usize))
        requires
            *old(cur) + dot_count(Process::Par(*self)) <= usize::MAX,
        ensures
            ({
                let d = drawing(Process::Par(*self), *old(cur) as nat);
                &&& final(out)@ == old(out)@ + d.items
                &&& r.0 == d.begin
                &&& r.1 == d.end
                &&& *final(cur) == d.next
            }),
        decreases self,
    {
        let ghost c0 = *cur as nat;
        let ghost o = out@;
        proof {
            lemma_drawing_numbers(*self.0, c0);
            lemma_drawing_numbers(*self.1, drawing(*self.0, c0).next);
        }
        let (begp, endp) = self.0.dot(cur, out);
        let (begq, endq) = self.1.dot(cur, out);
        let numbeg = *cur;
        push_fork(out, numbeg, Shape::Triangle, Mark::Blank, begp, endp, begq, endq);
        *cur = numbeg + 2;
        proof {
            assert(out@ =~= o + drawing(Process::Par(*self), c0).items);
        }
        (numbeg, numbeg + 1)
    }
}

impl BigPar {
    /// Draws the composition as one box labelled `BigPar`; returns it as both
    /// the first and the last node.
    pub fn dot(&self, cur: &mut usize, out: &mut Vec<DotItem>) -> (r: (usize, usize))
        requires
            *old(cur) < usize::MAX,
        ensures
            ({
                let d = drawing(Process::BigPar(*self), *old(cur) as nat);
                &&& final(out)@ == old(out)@ + d.items
                &&& r.0 == d.begin
                &&& r.1 == d.end
                &&& *final(cur) == d.next
            }),
    {
        let num = *cur;
        *cur = num + 1;
        let ghost o = out@;
        out.push(DotItem::Node { id: num, shape: Shape::Box, mark: Mark::BigPar });
        assert(out@ =~= o + drawing(Process::BigPar(*self), num as nat).items);
        (num, num)
    }
}


/// The character of a decimal digit.
pub open spec fn digit_char(d: nat) -> char {
    if d == 0 { '0' } else if d == 1 { '1' } else if d == 2 { '2' } else if d == 3 { '3' }
    else if d == 4 { '4' } else if d == 5 { '5' } else if d == 6 { '6' } else if d == 7 { '7' }
    else if d == 8 { '8' } else { '9' }
}

/// The decimal digits of `n`.
pub open spec fn digits(n: nat) -> Seq<char>
    decreases n,
{
    if n < 10 {
        seq![digit_char(n)]
    } else {
        digits(n / 10).push(digit_char(n % 10))
    }
}

/// The DOT name of a shape.
pub open spec fn shape_text(s: Shape) -> Seq<char> {
    match s {
        Shape::Triangle => "triangle"@,
        Shape::InvTriangle => "invtriangle"@,
        Shape::Box => "box"@,
        Shape::Diamond => "diamond"@,
        Shape::Circle => "circle"@,
    }
}

/// The DOT name of a port.
pub open spec fn port_text(p: Port) -> Seq<char> {
    match p {
        Port::North => "n"@,
        Port::South => "s"@,
        Port::SouthWest => "sw"@,
        Port::SouthEast => "se"@,
        Port::NorthWest => "nw"@,
        Port::NorthEast => "ne"@,
    }
}

/// The label of a mark.
pub open spec fn mark_text(m: Mark) -> Seq<char> {
    match m {
        Mark::Blank => Seq::empty(),
        Mark::BigPar => "BigPar"@,
        Mark::Act(k) => "act "@ + digits(k as nat),
        Mark::Pause => "pause"@,
        Mark::Emit => "emit"@,
        Mark::Await => "await"@,
        Mark::Pre(s) => "pre "@ + digits(s as nat),
        Mark::Choice => "choice"@,
        Mark::Loop => "loop"@,
    }
}

/// The DOT line of an item, as the drawings of `Par` and `BigPar` print it:
/// a node `id [shape = s, label = "l"]` (written `shape= ` for the inverted
/// triangle, and `label= "BigPar"];` for a `BigPar`), or an edge
/// `from:p -> to:q [label = ""]` (edges carry no type names).
pub open spec fn item_text(item: DotItem) -> Seq<char> {
    match item {
        DotItem::Node { id, shape, mark } => digits(id as nat) + (if shape == Shape::InvTriangle {
            " [shape= "@
        } else {
            " [shape = "@
        }) + shape_text(shape) + (if mark == Mark::BigPar {
            ", label= \""@
        } else {
            ", label = \""@
        }) + mark_text(mark) + (if mark == Mark::BigPar {
            "\"];\n"@
        } else {
            "\"]\n"@
        }),
        DotItem::Edge { from, from_port, to, to_port } => digits(from as nat) + ":"@ + port_text(
            from_port,
        ) + " -> "@ + digits(to as nat) + ":"@ + port_text(to_port) + " [label = \"\"]\n"@,
    }
}

/// The DOT lines of `items`, in order.
pub open spec fn items_text(items: Seq<DotItem>) -> Seq<char>
    decreases items.len(),
{
    if items.len() == 0 {
        Seq::empty()
    } else {
        items_text(items.drop_last()) + item_text(items.last())
    }
}

fn push_str(out: &mut Vec<char>, s: &str)
    ensures
        final(out)@ == old(out)@ + s@,
{
    let n = s.unicode_len();
    let mut i: usize = 0;
    while i < n
        invariant
            n == s@.len(),
            i <= n,
            out@ == old(out)@ + s@.take(i as int),
        decreases n - i,
    {
        out.push(s.get_char(i));
        assert(s@.take(i + 1) =~= s@.take(i as int).push(s@[i as int]));
        i = i + 1;
    }
    assert(s@.take(n as int) =~= s@);
}

fn digit(d: usize) -> (c: char)
    requires
        d < 10,
    ensures
        c == digit_char(d as nat),
{
    if d == 0 { '0' } else if d == 1 { '1' } else if d == 2 { '2' } else if d == 3 { '3' }
    else if d == 4 { '4' } else if d == 5 { '5' } else if d == 6 { '6' } else if d == 7 { '7' }
    else if d == 8 { '8' } else { '9' }
}

fn push_num(out: &mut Vec<char>, n: usize)
    ensures
        final(out)@ == old(out)@ + digits(n as nat),
    decreases n,
{
    if n < 10 {
        out.push(digit(n));
        assert(out@ =~= old(out)@ + digits(n as nat));
    } else {
        push_num(out, n / 10);
        out.push(digit(n % 10));
        assert(out@ =~= old(out)@ + digits(n as nat));
    }
}

fn push_shape(out: &mut Vec<char>, s: &Shape)
    ensures
        final(out)@ == old(out)@ + shape_text(*s),
{
    match s {
        Shape::Triangle => push_str(out, "triangle"),
        Shape::InvTriangle => push_str(out, "invtriangle"),
        Shape::Box => push_str(out, "box"),
        Shape::Diamond => push_str(out, "diamond"),
        Shape::Circle => push_str(out, "circle"),
    }
}

fn push_port(out: &mut Vec<char>, p: &Port)
    ensures
        final(out)@ == old(out)@ + port_text(*p),
{
    match p {
        Port::North => push_str(out, "n"),
        Port::South => push_str(out, "s"),
        Port::SouthWest => push_str(out, "sw"),
        Port::SouthEast => push_str(out, "se"),
        Port::NorthWest => push_str(out, "nw"),
        Port::NorthEast => push_str(out, "ne"),
    }
}

fn push_mark(out: &mut Vec<char>, m: &Mark)
    ensures
        final(out)@ == old(out)@ + mark_text(*m),
{
    let ghost o = out@;
    match m {
        Mark::Blank => {
            assert(out@ =~= o + mark_text(*m));
        },
        Mark::BigPar => push_str(out, "BigPar"),
        Mark::Act(k) => {
            push_str(out, "act ");
            push_num(out, *k);
            assert(out@ =~= o + mark_text(*m));
        },
        Mark::Pause => push_str(out, "pause"),
        Mark::Emit => push_str(out, "emit"),
        Mark::Await => push_str(out, "await"),
        Mark::Pre(s) => {
            push_str(out, "pre ");
            push_num(out, *s);
            assert(out@ =~= o + mark_text(*m));
        },
        Mark::Choice => push_str(out, "choice"),
        Mark::Loop => push_str(out, "loop"),
    }
}

/// Appends the DOT line of `item`.
fn push_item(out: &mut Vec<char>, item: &DotItem)
    ensures
        final(out)@ == old(out)@ + item_text(*item),
{
    let ghost o = out@;
    match item {
        DotItem::Node { id, shape, mark } => {
            push_num(out, *id);
            match shape {
                Shape::InvTriangle => push_str(out, " [shape= "),
                _ => push_str(out, " [shape = "),
            }
            push_shape(out, shape);
            match mark {
                Mark::BigPar => push_str(out, ", label= \""),
                _ => push_str(out, ", label = \""),
            }
            push_mark(out, mark);
            match mark {
                Mark::BigPar => push_str(out, "\"];\n"),
                _ => push_str(out, "\"]\n"),
            }
        },
        DotItem::Edge { from, from_port, to, to_port } => {
            push_num(out, *from);
            push_str(out, ":");
            push_port(out, from_port);
            push_str(out, " -> ");
            push_num(out, *to);
            push_str(out, ":");
            push_port(out, to_port);
            push_str(out, " [label = \"\"]\n");
        },
    }
    assert(out@ =~= o + item_text(*item));
}

/// The DOT text of a drawing: one line per item, in order.
pub fn dot_text(items: &Vec<DotItem>) -> (r: Vec<char>)
    ensures
        r@ == items_text(items@),
{
    let mut out: Vec<char> = Vec::new();
    let mut i: usize = 0;
    while i < items.len()
        invariant
            i <= items@.len(),
            out@ == items_text(items@.take(i as int)),
        decreases items@.len() - i,
    {
        push_item(&mut out, &items[i]);
        assert(items@.take(i + 1).drop_last() =~= items@.take(i as int));
        i = i + 1;
    }
    assert(items@.take(items@.len() as int) =~= items@);
    out
}

} // verus!
