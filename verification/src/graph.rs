use vstd::prelude::*;
use crate::process::{AwaitKind, BigPar, EmitKind, Par, Process};

verus! {

/// One node of a compiled process.  Each node names, by index, the node(s)
/// that run after it.
#[derive(Debug)]
pub enum Node {
    /// A node reserved during compilation and not yet filled in.
    Hole,
    /// The end of a spawned process: its result becomes the runtime's result.
    Finish,
    Act { action: usize, next: usize },
    Pause { next: usize },
    Choice { if_true: usize, if_false: usize },
    LoopTest { body: usize, exit: usize },
    Fork { left: usize, right: usize },
    /// The end of one side of a parallel composition.  Both sides of one
    /// composition share the join slot `slot`.
    Join { slot: usize, left_side: bool, next: usize },
    BigFork { dests: Vec<usize> },
    /// The end of one branch of a `BigPar` with `size` branches.
    BigJoin { size: usize, next: usize },
    Emit { kind: EmitKind, next: usize },
    Await { kind: AwaitKind, next: usize },
    Pre { signal: usize, next: usize },
}

/// A compiled program: nodes, addressed by their index.
pub struct Graph {
    pub nodes: Vec<Node>,
}

/// Every index that node `n` names is below `len`.
pub open spec fn node_ok(n: Node, len: nat) -> bool {
    match n {
        Node::Hole => true,
        Node::Finish => true,
        Node::Act { action, next } => next < len,
        Node::Pause { next } => next < len,
        Node::Choice { if_true, if_false } => if_true < len && if_false < len,
        Node::LoopTest { body, exit } => body < len && exit < len,
        Node::Fork { left, right } => left < len && right < len,
        Node::Join { slot, left_side, next } => slot < len && next < len,
        Node::BigFork { dests } => forall|i: int| 0 <= i < dests@.len() ==> dests@[i] < len,
        Node::BigJoin { size, next } => next < len,
        Node::Emit { kind, next } => next < len,
        Node::Await { kind, next } => next < len,
        Node::Pre { signal, next } => next < len,
    }
}

/// A join node at index `k` is the left side of a join, whose slot is
/// `k` itself, or the right side, which follows the left side.
pub open spec fn join_at(n: Node, k: int) -> bool {
    match n {
        Node::Join { slot, left_side, next } => if left_side {
            slot == k
        } else {
            slot + 1 == k
        },
        _ => true,
    }
}

/// Every node of `nodes` names only nodes of `nodes`, and the join nodes come
/// in pairs as `join_at` says.
pub open spec fn nodes_wf(nodes: Seq<Node>) -> bool {
    &&& forall|i: int| 0 <= i < nodes.len() ==> #[trigger] node_ok(nodes[i], nodes.len())
    &&& forall|i: int| 0 <= i < nodes.len() ==> #[trigger] join_at(nodes[i], i)
}

/// In well-formed nodes, the slot of the join of `jl` and `jr` is used by
/// these two nodes alone.
pub proof fn lemma_slot_owners(nodes: Seq<Node>, jl: usize, jr: usize, next: usize, n: int)
    requires
        nodes_wf(nodes),
        jl < nodes.len(),
        jr < nodes.len(),
        nodes[jl as int] == (Node::Join { slot: jl, left_side: true, next }),
        nodes[jr as int] == (Node::Join { slot: jl, left_side: false, next }),
        0 <= n < nodes.len(),
        n != jl,
        n != jr,
    ensures
        !(nodes[n] matches Node::Join { slot, .. } && slot == jl),
{
    assert(join_at(nodes[jr as int], jr as int));
    assert(join_at(nodes[n], n));
}

/// `g2` keeps every node of `g1` that is filled in.
pub open spec fn agrees(g1: Seq<Node>, g2: Seq<Node>) -> bool {
    &&& g1.len() <= g2.len()
    &&& forall|i: int| 0 <= i < g1.len() && !(g1[i] is Hole) ==> #[trigger] g2[i] == g1[i]
}

/// `g2` keeps every node of `g1` and may add nodes after them.
pub open spec fn extends(g1: Seq<Node>, g2: Seq<Node>) -> bool {
    &&& g1.len() <= g2.len()
    &&& forall|i: int| 0 <= i < g1.len() ==> #[trigger] g2[i] == g1[i]
}

/// The nodes of `g` reached from `entry` run process `p` and then continue
/// at node `next`.
pub open spec fn implements(g: Seq<Node>, p: Process, entry: usize, next: usize) -> bool
    decreases p,
{
    &&& entry < g.len()
    &&& match p {
        Process::Act(k) => g[entry as int] == Node::Act { action: k, next },
        Process::Pause => g[entry as int] == Node::Pause { next },
        Process::Sequence(a, b) => exists|mid: usize|
            #![trigger g[mid as int]]
            !(g[mid as int] is Hole) && implements(g, *a, entry, mid) && implements(g, *b, mid, next),
        Process::Choice(a, b) => match g[entry as int] {
            Node::Choice { if_true, if_false } => implements(g, *a, if_true, next) && implements(
                g,
                *b,
                if_false,
                next,
            ),
            _ => false,
        },
        Process::Loop(b) => exists|test: usize|
            #![trigger g[test as int]]
            test < g.len() && g[test as int] == Node::LoopTest { body: entry, exit: next }
                && implements(g, *b, entry, test),
        Process::Par(Par(a, b)) => match g[entry as int] {
            Node::Fork { left, right } => exists|jl: usize, jr: usize|
                #![trigger g[jl as int], g[jr as int]]
                jl < g.len() && jr < g.len() && g[jl as int] == Node::Join {
                    slot: jl,
                    left_side: true,
                    next,
                } && g[jr as int] == Node::Join { slot: jl, left_side: false, next }
                    && implements(g, *a, left, jl) && implements(g, *b, right, jr),
            _ => false,
        },
        Process::BigPar(BigPar(ps)) => match g[entry as int] {
            Node::BigFork { dests } => dests@.len() == ps@.len() && exists|bj: usize|
                #![trigger g[bj as int]]
                bj < g.len() && g[bj as int] == Node::BigJoin { size: ps.len(), next }
                    && forall|i: int|
                    0 <= i < ps@.len() ==> implements(g, #[trigger] ps@[i], dests@[i], bj),
            _ => false,
        },
        Process::Emit(k) => g[entry as int] == Node::Emit { kind: k, next },
        Process::Await(k) => g[entry as int] == Node::Await { kind: k, next },
        Process::Pre(s) => g[entry as int] == Node::Pre { signal: s, next },
    }
}

/// Filling in holes and adding nodes keeps what the graph implements.
pub proof fn lemma_implements_frame(
    g1: Seq<Node>,
    g2: Seq<Node>,
    p: Process,
    entry: usize,
    next: usize,
)
    requires
        implements(g1, p, entry, next),
        agrees(g1, g2),
    ensures
        implements(g2, p, entry, next),
    decreases p,
{
    match p {
        Process::Act(k) => {},
        Process::Pause => {},
        Process::Sequence(a, b) => {
            let mid = choose|mid: usize|
                #![trigger g1[mid as int]]
                !(g1[mid as int] is Hole) && implements(g1, *a, entry, mid) && implements(
                    g1,
                    *b,
                    mid,
                    next,
                );
            lemma_implements_frame(g1, g2, *a, entry, mid);
            lemma_implements_frame(g1, g2, *b, mid, next);
            assert(g2[mid as int] == g1[mid as int]);
        },
        Process::Choice(a, b) => {
            if let Node::Choice { if_true, if_false } = g1[entry as int] {
                lemma_implements_frame(g1, g2, *a, if_true, next);
                lemma_implements_frame(g1, g2, *b, if_false, next);
            }
        },
        Process::Loop(b) => {
            let test = choose|test: usize|
                #![trigger g1[test as int]]
                test < g1.len() && g1[test as int] == Node::LoopTest { body: entry, exit: next }
                    && implements(g1, *b, entry, test);
            lemma_implements_frame(g1, g2, *b, entry, test);
            assert(g2[test as int] == g1[test as int]);
        },
        Process::Par(Par(a, b)) => {
            if let Node::Fork { left, right } = g1[entry as int] {
                let (jl, jr) = choose|jl: usize, jr: usize|
                    #![trigger g1[jl as int], g1[jr as int]]
                    jl < g1.len() && jr < g1.len() && g1[jl as int] == Node::Join {
                        slot: jl,
                        left_side: true,
                        next,
                    } && g1[jr as int] == Node::Join { slot: jl, left_side: false, next }
                        && implements(g1, *a, left, jl) && implements(g1, *b, right, jr);
                lemma_implements_frame(g1, g2, *a, left, jl);
                lemma_implements_frame(g1, g2, *b, right, jr);
                assert(g2[jl as int] == g1[jl as int]);
                assert(g2[jr as int] == g1[jr as int]);
            }
        },
        Process::BigPar(BigPar(ps)) => {
            if let Node::BigFork { dests } = g1[entry as int] {
                let bj = choose|bj: usize|
                    #![trigger g1[bj as int]]
                    bj < g1.len() && g1[bj as int] == Node::BigJoin {
                        size: ps.len(),
                        next,
                    } && forall|i: int|
                        0 <= i < ps@.len() ==> implements(g1, #[trigger] ps@[i], dests@[i], bj);
                assert forall|i: int| 0 <= i < ps@.len() implies implements(
                    g2,
                    #[trigger] ps@[i],
                    dests@[i],
                    bj,
                ) by {
                    assert(implements(g1, ps@[i], dests@[i], bj));
                    lemma_implements_frame(g1, g2, ps@[i], dests@[i], bj);
                }
                assert(g2[bj as int] == g1[bj as int]);
            }
        },
        Process::Emit(k) => {},
        Process::Await(k) => {},
        Process::Pre(s) => {},
    }
}


/// The number of nodes that compiling `p` adds.
pub open spec fn size(p: Process) -> nat
    decreases p,
{
    match p {
        Process::Sequence(a, b) => size(*a) + size(*b),
        Process::Choice(a, b) => 1 + size(*a) + size(*b),
        Process::Loop(b) => 1 + size(*b),
        Process::Par(Par(a, b)) => 3 + size(*a) + size(*b),
        Process::BigPar(BigPar(ps)) => 2 + sizes(ps@),
        _ => 1,
    }
}

/// The number of nodes that compiling all of `ps` adds.
pub open spec fn sizes(ps: Seq<Process>) -> nat
    decreases ps,
{
    if ps.len() == 0 {
        0
    } else {
        sizes(ps.subrange(0, ps.len() - 1)) + size(ps[ps.len() - 1])
    }
}

/// A prefix of a list of processes takes no more nodes than the list.
pub proof fn lemma_sizes_prefix(ps: Seq<Process>, i: int)
    requires
        0 <= i <= ps.len(),
    ensures
        sizes(ps.subrange(0, i)) <= sizes(ps),
    decreases ps.len() - i,
{
    if i < ps.len() {
        lemma_sizes_prefix(ps, i + 1);
        assert(ps.subrange(0, i + 1).subrange(0, i) =~= ps.subrange(0, i));
    } else {
        assert(ps.subrange(0, i) =~= ps);
    }
}

/// The entry node of an implemented process is filled in.
pub proof fn lemma_entry_filled(g: Seq<Node>, p: Process, entry: usize, next: usize)
    requires
        implements(g, p, entry, next),
    ensures
        !(g[entry as int] is Hole),
    decreases p,
{
    if let Process::Loop(b) = p {
        let test = choose|test: usize|
            #![trigger g[test as int]]
            test < g.len() && g[test as int] == Node::LoopTest { body: entry, exit: next }
                && implements(g, *b, entry, test);
        lemma_entry_filled(g, *b, entry, test);
    }
    if let Process::Sequence(a, b) = p {
        let mid = choose|mid: usize|
            #![trigger g[mid as int]]
            !(g[mid as int] is Hole) && implements(g, *a, entry, mid) && implements(
                g,
                *b,
                mid,
                next,
            );
        lemma_entry_filled(g, *a, entry, mid);
    }
}

impl Graph {
    /// An empty graph.
    pub fn new() -> (g: Graph)
        ensures
            g.nodes@ == Seq::<Node>::empty(),
    {
        Graph { nodes: Vec::new() }
    }

    /// Appends `n` and returns its index.
    pub fn add(&mut self, n: Node) -> (i: usize)
        requires
            nodes_wf(old(self).nodes@),
            node_ok(n, old(self).nodes@.len() + 1),
            join_at(n, old(self).nodes@.len() as int),
            old(self).nodes@.len() < usize::MAX,
        ensures
            final(self).nodes@ == old(self).nodes@.push(n),
            i == old(self).nodes@.len(),
            nodes_wf(final(self).nodes@),
    {
        let i = self.nodes.len();
        self.nodes.push(n);
        proof {
            let g = self.nodes@;
            assert forall|j: int| 0 <= j < g.len() implies #[trigger] node_ok(g[j], g.len()) by {
                if j < i {
                    assert(node_ok(old(self).nodes@[j], old(self).nodes@.len()));
                }
            }
            assert forall|j: int| 0 <= j < g.len() implies #[trigger] join_at(g[j], j) by {
                if j < i {
                    assert(join_at(old(self).nodes@[j], j));
                }
            }
        }
        i
    }

    /// Fills in the hole at index `i` with `n`.
    pub fn fill(&mut self, i: usize, n: Node)
        requires
            nodes_wf(old(self).nodes@),
            i < old(self).nodes@.len(),
            old(self).nodes@[i as int] is Hole,
            node_ok(n, old(self).nodes@.len()),
            join_at(n, i as int),
        ensures
            final(self).nodes@ == old(self).nodes@.update(i as int, n),
            nodes_wf(final(self).nodes@),
    {
        self.nodes.set(i, n);
        proof {
            let g = self.nodes@;
            assert forall|j: int| 0 <= j < g.len() implies #[trigger] node_ok(g[j], g.len()) by {
                if j != i {
                    assert(node_ok(old(self).nodes@[j], old(self).nodes@.len()));
                }
            }
            assert forall|j: int| 0 <= j < g.len() implies #[trigger] join_at(g[j], j) by {
                if j != i {
                    assert(join_at(old(self).nodes@[j], j));
                }
            }
        }
    }
}

impl Process {
    /// Compiles the process into `g`, to continue at node `next` when it
    /// ends, and returns the node at which it starts.
    pub fn compile(self, g: &mut Graph, next: usize) -> (entry: usize)
        requires
            nodes_wf(old(g).nodes@),
            next < old(g).nodes@.len(),
            old(g).nodes@.len() + size(self) < usize::MAX,
        ensures
            nodes_wf(final(g).nodes@),
            extends(old(g).nodes@, final(g).nodes@),
            final(g).nodes@.len() == old(g).nodes@.len() + size(self),
            implements(final(g).nodes@, self, entry, next),
            old(g).nodes@.len() <= entry,
        decreases self,
    {
        match self {
            Process::Act(k) => g.add(Node::Act { action: k, next }),
            Process::Pause => g.add(Node::Pause { next }),
            Process::Sequence(a, b) => {
                let mid = (*b).compile(g, next);
                let ghost g1 = g.nodes@;
                let entry = (*a).compile(g, mid);
                proof {
                    lemma_entry_filled(g1, *b, mid, next);
                    lemma_implements_frame(g1, g.nodes@, *b, mid, next);
                    assert(g.nodes@[mid as int] == g1[mid as int]);
                }
                entry
            },
            Process::Choice(a, b) => {
                let if_true = (*a).compile(g, next);
                let ghost g1 = g.nodes@;
                let if_false = (*b).compile(g, next);
                let ghost g2 = g.nodes@;
                let entry = g.add(Node::Choice { if_true, if_false });
                proof {
                    lemma_implements_frame(g1, g.nodes@, *a, if_true, next);
                    lemma_implements_frame(g2, g.nodes@, *b, if_false, next);
                }
                entry
            },
            Process::Loop(b) => {
                let test = g.add(Node::Hole);
                let body = (*b).compile(g, test);
                let ghost g1 = g.nodes@;
                g.fill(test, Node::LoopTest { body, exit: next });
                proof {
                    lemma_implements_frame(g1, g.nodes@, *b, body, test);
                    assert(g.nodes@[test as int] == Node::LoopTest { body, exit: next });
                }
                body
            },
            Process::Par(p) => p.compile(g, next),
            Process::BigPar(p) => p.compile(g, next),
            Process::Emit(k) => g.add(Node::Emit { kind: k, next }),
            Process::Await(k) => g.add(Node::Await { kind: k, next }),
            Process::Pre(s) => g.add(Node::Pre { signal: s, next }),
        }
    }
}

impl Par {
    /// Compiles both sides and the join of their results; returns the node
    /// that forks the received pair.
    pub fn compile(self, g: &mut Graph, next: usize) -> (entry: usize)
        requires
            nodes_wf(old(g).nodes@),
            next < old(g).nodes@.len(),
            old(g).nodes@.len() + size(Process::Par(self)) < usize::MAX,
        ensures
            nodes_wf(final(g).nodes@),
            extends(old(g).nodes@, final(g).nodes@),
            final(g).nodes@.len() == old(g).nodes@.len() + size(Process::Par(self)),
            implements(final(g).nodes@, Process::Par(self), entry, next),
            old(g).nodes@.len() <= entry,
        decreases self,
    {
        let ghost whole = self;
        let Par(a, b) = self;
        let jl = g.nodes.len();
        g.add(Node::Join { slot: jl, left_side: true, next });
        let jr = g.add(Node::Join { slot: jl, left_side: false, next });
        let left = (*a).compile(g, jl);
        let ghost g1 = g.nodes@;
        let right = (*b).compile(g, jr);
        let ghost g2 = g.nodes@;
        let entry = g.add(Node::Fork { left, right });
        proof {
            lemma_implements_frame(g1, g.nodes@, *a, left, jl);
            lemma_implements_frame(g2, g.nodes@, *b, right, jr);
            let gf = g.nodes@;
            assert(gf[jl as int] == Node::Join { slot: jl, left_side: true, next });
            assert(gf[jr as int] == Node::Join { slot: jl, left_side: false, next });
            assert(implements(gf, Process::Par(whole), entry, next));
        }
        entry
    }
}

impl BigPar {
    /// Compiles every branch, each to end at one shared join node; returns the
    /// node that starts all branches on copies of the received value.
    pub fn compile(self, g: &mut Graph, next: usize) -> (entry: usize)
        requires
            nodes_wf(old(g).nodes@),
            next < old(g).nodes@.len(),
            old(g).nodes@.len() + size(Process::BigPar(self)) < usize::MAX,
        ensures
            nodes_wf(final(g).nodes@),
            extends(old(g).nodes@, final(g).nodes@),
            final(g).nodes@.len() == old(g).nodes@.len() + size(Process::BigPar(self)),
            implements(final(g).nodes@, Process::BigPar(self), entry, next),
            old(g).nodes@.len() <= entry,
            final(g).nodes@[entry as int] matches Node::BigFork { dests } && (forall|i: int|
                0 <= i < dests@.len() ==> old(g).nodes@.len() <= #[trigger] dests@[i]) && (forall|
                i: int,
                j: int,
            | 0 <= i < j < dests@.len() ==> #[trigger] dests@[i] < #[trigger] dests@[j]),
        decreases self,
    {
        let ghost whole = self;
        let ghost g0 = g.nodes@;
        let BigPar(ps) = self;
        let ghost orig = ps@;
        let mut ps = ps;
        let n = ps.len();
        let bj = g.add(Node::BigJoin { size: n, next });
        let mut dests: Vec<usize> = Vec::new();
        let mut i: usize = 0;
        proof {
            lemma_sizes_prefix(orig, 0);
            assert(orig.subrange(0, 0) =~= Seq::<Process>::empty());
            assert(orig.subrange(0, n as int) =~= orig);
        }
        #[verifier::loop_isolation(false)]
        while i < n
            invariant
                i <= n,
                n == orig.len(),
                ps@ == orig.subrange(i as int, n as int),
                dests@.len() == i,
                bj == g0.len(),
                g0.len() + size(Process::BigPar(whole)) < usize::MAX,
                size(Process::BigPar(whole)) == 2 + sizes(orig),
                g.nodes@[bj as int] == (Node::BigJoin { size: n, next }),
                nodes_wf(g.nodes@),
                extends(g0, g.nodes@),
                g.nodes@.len() == g0.len() + 1 + sizes(orig.subrange(0, i as int)),
                forall|j: int|
                    0 <= j < i ==> implements(g.nodes@, #[trigger] orig[j], dests@[j], bj),
                forall|j: int| 0 <= j < i ==> #[trigger] dests@[j] < g.nodes@.len(),
                forall|j: int| 0 <= j < i ==> g0.len() < #[trigger] dests@[j],
                forall|j: int, k: int| 0 <= j < k < i ==> #[trigger] dests@[j] < #[trigger] dests@[k],
                whole.0@ == orig,
            decreases n - i,
        {
            let p = ps.remove(0);
            proof {
                assert(p == orig[i as int]);
            }
            proof {
                lemma_sizes_prefix(orig, i + 1);
                assert(orig.subrange(0, i + 1).subrange(0, i as int) =~= orig.subrange(
                    0,
                    i as int,
                ));
            }
            let ghost gb = g.nodes@;
            let d = p.compile(g, bj);
            proof {
                assert forall|j: int| 0 <= j < i implies implements(
                    g.nodes@,
                    #[trigger] orig[j],
                    dests@[j],
                    bj,
                ) by {
                    lemma_implements_frame(gb, g.nodes@, orig[j], dests@[j], bj);
                }
                assert(forall|j: int| 0 <= j < i ==> #[trigger] dests@[j] < g.nodes@.len());
                assert(forall|j: int| 0 <= j < i ==> #[trigger] dests@[j] < gb.len());
            }
            let ghost dold = dests@;
            dests.push(d);
            proof {
                assert forall|j: int, k: int| 0 <= j < k < i + 1 implies #[trigger] dests@[j]
                    < #[trigger] dests@[k] by {
                    assert(dests@[j] == dold[j]);
                    if k < i {
                        assert(dests@[k] == dold[k]);
                    }
                }
                assert forall|j: int| 0 <= j < i + 1 implies g0.len() < #[trigger] dests@[j] by {
                    if j < i {
                        assert(dests@[j] == dold[j]);
                    }
                }
            }
            i = i + 1;
        }
        proof {
            assert(orig.subrange(0, n as int) =~= orig);
        }
        let ghost ga = g.nodes@;
        let ghost dv = dests@;
        let entry = g.add(Node::BigFork { dests });
        proof {
            assert forall|j: int| 0 <= j < n implies implements(
                g.nodes@,
                #[trigger] orig[j],
                dv[j],
                bj,
            ) by {
                lemma_implements_frame(ga, g.nodes@, orig[j], dv[j], bj);
            }
            assert(g.nodes@[bj as int] == ga[bj as int]);
        }
        entry
    }
}

} // verus!
