use vstd::prelude::*;
use crate::value::Value;
use crate::process::{
    AwaitKind, EmitKind, Process, act, await_s_in, big_join, choice, emit_vec_vs, looping, sequence,
};
use crate::engine::Runtime;
use crate::model::{Gather, RuntimeModel, SignalConfig};

verus! {

/// A torus of cells for the game of life: each cell has a signal, on which
/// its neighbours emit when they are born, and a state.
pub struct Board {
    pub width: usize,
    pub height: usize,
    /// `signals[i][j]`: the signal of the cell in row `i`, column `j`.
    pub signals: Vec<Vec<usize>>,
    /// `data[i][j]`: whether the cell in row `i`, column `j` is alive.
    pub data: Vec<Vec<bool>>,
}

/// Whether a cell lives at the next step: it has three living neighbours, or
/// two and is alive.
pub open spec fn rule_spec(count: i64, alive: bool) -> bool {
    count == 3 || (count == 2 && alive)
}

/// Whether a cell lives at the next step.
pub fn life_rule(count: i64, alive: bool) -> (r: bool)
    ensures
        r == rule_spec(count, alive),
{
    count == 3 || (count == 2 && alive)
}

/// The row above row `i` (the last row above the first).
pub open spec fn before(i: nat, n: nat) -> nat {
    ((i + n - 1) as int % (n as int)) as nat
}

/// The row below row `i` (the first row below the last).
pub open spec fn after(i: nat, n: nat) -> nat {
    ((i + 1) as int % (n as int)) as nat
}

/// The character that shows a cell.
pub open spec fn cell_char(alive: bool) -> char {
    if alive {
        '+'
    } else {
        ' '
    }
}

/// The characters that show the rows `rows`, each ended by a newline.
pub open spec fn render_rows(rows: Seq<Seq<bool>>) -> Seq<char>
    decreases rows.len(),
{
    if rows.len() == 0 {
        Seq::empty()
    } else {
        render_rows(rows.drop_last()) + rows.last().map_values(|b: bool| cell_char(b)).push('\n')
    }
}

/// The process of one cell with signal `s` and neighbour signals `neigh`:
/// it waits for `s`, applies the rule action `rule` to `(count, ())`, and on
/// `True` emits on every neighbour and applies `birth`, else applies `stop`;
/// all in a loop.
pub open spec fn is_cell_process(
    p: Process,
    s: usize,
    neigh: Seq<usize>,
    rule: usize,
    birth: usize,
    stop: usize,
) -> bool {
    match p {
        Process::Loop(body) => match *body {
            Process::Sequence(w, rest) => *w == Process::Await(AwaitKind::StaticIn(s)) && match *rest {
                Process::Sequence(r, c) => *r == Process::Act(rule) && match *c {
                    Process::Choice(yes, no) => *no == Process::Act(stop) && match *yes {
                        Process::Sequence(e, b) => *b == Process::Act(birth) && match *e {
                            Process::Emit(EmitKind::ConstantVec(cs)) => cs@.len() == neigh.len()
                                && forall|k: int|
                                0 <= k < neigh.len() ==> #[trigger] cs@[k] == (neigh[k], Value::Unit),
                            _ => false,
                        },
                        _ => false,
                    },
                    _ => false,
                },
                _ => false,
            },
            _ => false,
        },
        _ => false,
    }
}


/// The row above row `i` of `n` rows.
fn wrap_before(i: usize, n: usize) -> (r: usize)
    requires
        i < n,
    ensures
        r == before(i as nat, n as nat),
        r < n,
{
    if i == 0 {
        assert(((0 + n - 1) as int % (n as int)) == n - 1) by (nonlinear_arith)
            requires
                n > 0,
        ;
        n - 1
    } else {
        assert(((i + n - 1) as int % (n as int)) == i - 1) by (nonlinear_arith)
            requires
                0 < i < n,
        ;
        i - 1
    }
}

/// The row below row `i` of `n` rows.
fn wrap_after(i: usize, n: usize) -> (r: usize)
    requires
        i < n,
    ensures
        r == after(i as nat, n as nat),
        r < n,
{
    if i + 1 == n {
        assert(((i + 1) as int % (n as int)) == 0) by (nonlinear_arith)
            requires
                i + 1 == n,
        ;
        0
    } else {
        assert(((i + 1) as int % (n as int)) == i + 1) by (nonlinear_arith)
            requires
                i + 1 < n,
        ;
        i + 1
    }
}

/// `m` with `n` more counting signals, each with default value 0.
pub open spec fn with_counters(m: RuntimeModel, n: nat) -> RuntimeModel {
    RuntimeModel {
        configs: m.configs + Seq::new(
            n,
            |k: int| SignalConfig { default: Value::Int(0), gather: Gather::Count },
        ),
        pres: m.pres + Seq::new(n, |k: int| Value::Int(0)),
        ..m
    }
}

impl Board {
    /// The invariant of a board: `height` rows of `width` cells and signals,
    /// and one more, empty, row of signals after them.
    pub open spec fn wf(&self) -> bool {
        &&& self.signals@.len() == self.height + 1
        &&& self.signals@[self.height as int]@.len() == 0
        &&& self.data@.len() == self.height
        &&& forall|i: int| 0 <= i < self.height ==> #[trigger] self.signals@[i]@.len() == self.width
        &&& forall|i: int| 0 <= i < self.height ==> #[trigger] self.data@[i]@.len() == self.width
    }

    /// The signal of cell `(i, j)`.
    pub open spec fn signal(&self, i: int, j: int) -> usize {
        self.signals@[i]@[j]
    }

    /// A board of `height` rows of `width` dead cells; the signal of each cell
    /// is a new counting signal of `rt`: its value at an instant is the number
    /// of emissions on it in the instant.  The signal rows end with an empty
    /// row.
    pub fn new(rt: &mut Runtime, width: usize, height: usize) -> (b: Board)
        requires
            old(rt)@.wf(),
            old(rt)@.configs.len() + width * height < usize::MAX,
        ensures
            b.wf(),
            b.width == width,
            b.height == height,
            final(rt)@.wf(),
            final(rt)@.configs.len() == old(rt)@.configs.len() + width * height,
            final(rt)@.configs.subrange(0, old(rt)@.configs.len() as int) == old(rt)@.configs,
            forall|k: int|
                old(rt)@.configs.len() <= k < final(rt)@.configs.len() ==> #[trigger] final(rt)@.configs[k] == (SignalConfig { default: Value::Int(0), gather: Gather::Count }),
            forall|i: int, j: int|
                0 <= i < height && 0 <= j < width ==> #[trigger] b.signal(i, j) == old(rt)@.configs.len() + i * width + j,
            forall|i: int, j: int|
                0 <= i < height && 0 <= j < width ==> !#[trigger] b.data@[i]@[j],
            final(rt)@ == with_counters(old(rt)@, (width * height) as nat),
    {
        let ghost base = old(rt)@.configs.len();
        let mut signals: Vec<Vec<usize>> = Vec::new();
        let mut data: Vec<Vec<bool>> = Vec::new();
        let mut i: usize = 0;
        while i < height
            invariant
                i <= height,
                rt@.wf(),
                base == old(rt)@.configs.len(),
                base + width * height < usize::MAX,
                rt@.configs.len() == base + i * width,
                rt@.configs.subrange(0, base as int) == old(rt)@.configs,
                forall|k: int|
                    base <= k < rt@.configs.len() ==> #[trigger] rt@.configs[k] == (SignalConfig {
                        default: Value::Int(0),
                        gather: Gather::Count,
                    }),
                signals@.len() == i,
                data@.len() == i,
                forall|r: int| 0 <= r < i ==> #[trigger] signals@[r]@.len() == width,
                forall|r: int| 0 <= r < i ==> #[trigger] data@[r]@.len() == width,
                forall|r: int, c: int|
                    0 <= r < i && 0 <= c < width ==> #[trigger] signals@[r]@[c] == base + r * width
                        + c,
                forall|r: int, c: int| 0 <= r < i && 0 <= c < width ==> !#[trigger] data@[r]@[c],
                rt@ == with_counters(old(rt)@, (i * width) as nat),
            decreases height - i,
        {
            proof {
                assert((i + 1) * width <= width * height) by (nonlinear_arith)
                    requires
                        i < height,
                ;
                assert((i + 1) * width == i * width + width) by (nonlinear_arith);
            }
            let mut row: Vec<usize> = Vec::new();
            let mut cells: Vec<bool> = Vec::new();
            let mut j: usize = 0;
            while j < width
                invariant
                    j <= width,
                    i < height,
                    rt@.wf(),
                    base == old(rt)@.configs.len(),
                    base + width * height < usize::MAX,
                    (i + 1) * width <= width * height,
                    (i + 1) * width == i * width + width,
                    rt@.configs.len() == base + i * width + j,
                    rt@.configs.subrange(0, base as int) == old(rt)@.configs,
                    forall|k: int|
                        base <= k < rt@.configs.len() ==> #[trigger] rt@.configs[k] == (
                        SignalConfig { default: Value::Int(0), gather: Gather::Count }),
                    row@.len() == j,
                    cells@.len() == j,
                    forall|c: int| 0 <= c < j ==> #[trigger] row@[c] == base + i * width + c,
                    forall|c: int| 0 <= c < j ==> !#[trigger] cells@[c],
                    rt@ == with_counters(old(rt)@, (i * width + j) as nat),
                decreases width - j,
            {
                let ghost before_cfg = rt@.configs;
                let ghost prev = rt@;
                let s = rt.new_counter();
                proof {
                    let c = (i * width + j) as nat;
                    assert(rt@.configs =~= with_counters(old(rt)@, c + 1).configs);
                    assert(rt@.pres =~= with_counters(old(rt)@, c + 1).pres);
                    assert(rt@ =~= with_counters(old(rt)@, c + 1));
                    assert(rt@.configs.subrange(0, base as int) =~= before_cfg.subrange(0, base as int));
                }
                row.push(s);
                cells.push(false);
                j = j + 1;
            }
            signals.push(row);
            data.push(cells);
            i = i + 1;
        }
        proof {
            assert(height * width == width * height) by (nonlinear_arith);
        }
        signals.push(Vec::new());
        Board { width, height, signals, data }
    }

    /// Makes every cell dead.
    pub fn reset(&mut self)
        requires
            old(self).wf(),
        ensures
            final(self).wf(),
            final(self).width == old(self).width,
            final(self).height == old(self).height,
            final(self).signals@ == old(self).signals@,
            forall|i: int, j: int|
                0 <= i < final(self).height && 0 <= j < final(self).width ==> !#[trigger] final(self).data@[i]@[j],
    {
        let mut i: usize = 0;
        while i < self.height
            invariant
                i <= self.height,
                self.wf(),
                self.width == old(self).width,
                self.height == old(self).height,
                self.signals@ == old(self).signals@,
                forall|r: int, c: int|
                    0 <= r < i && 0 <= c < self.width ==> !#[trigger] self.data@[r]@[c],
            decreases self.height - i,
        {
            let mut row: Vec<bool> = Vec::new();
            let mut j: usize = 0;
            while j < self.width
                invariant
                    j <= self.width,
                    row@.len() == j,
                    forall|c: int| 0 <= c < j ==> !#[trigger] row@[c],
                decreases self.width - j,
            {
                row.push(false);
                j = j + 1;
            }
            let ghost old_data = self.data@;
            self.data.set(i, row);
            proof {
                assert forall|r: int| 0 <= r < self.height implies #[trigger] self.data@[r]@.len()
                    == self.width by {
                    if r != i {
                        assert(self.data@[r] == old_data[r]);
                    }
                }
                assert forall|r: int, c: int|
                    0 <= r < i + 1 && 0 <= c < self.width implies !#[trigger] self.data@[r]@[c] by {
                    if r != i {
                        assert(self.data@[r] == old_data[r]);
                    }
                }
            }
            i = i + 1;
        }
    }

    /// Whether cell `(i, j)` is alive.
    pub fn is_alive(&self, i: usize, j: usize) -> (r: bool)
        requires
            self.wf(),
            i < self.height,
            j < self.width,
        ensures
            r == self.data@[i as int]@[j as int],
    {
        self.data[i][j]
    }

    /// Makes cell `(i, j)` alive.
    pub fn set_alive(&mut self, i: usize, j: usize)
        requires
            old(self).wf(),
            i < old(self).height,
            j < old(self).width,
        ensures
            final(self).wf(),
            final(self).width == old(self).width,
            final(self).height == old(self).height,
            final(self).signals@ == old(self).signals@,
            final(self).data@.len() == old(self).data@.len(),
            forall|r: int, c: int|
                0 <= r < final(self).height && 0 <= c < final(self).width ==> #[trigger] final(self).data@[r]@[c] == if r == i && c == j {
                    true
                } else {
                    old(self).data@[r]@[c]
                },
    {
        let mut row: Vec<bool> = Vec::new();
        let mut c: usize = 0;
        while c < self.width
            invariant
                self.wf(),
                i < self.height,
                c <= self.width,
                row@.len() == c,
                forall|k: int| 0 <= k < c ==> #[trigger] row@[k] == if k == j {
                    true
                } else {
                    self.data@[i as int]@[k]
                },
            decreases self.width - c,
        {
            if c == j {
                row.push(true);
            } else {
                row.push(self.data[i][c]);
            }
            c = c + 1;
        }
        let ghost old_data = self.data@;
        self.data.set(i, row);
        proof {
            assert forall|r: int| 0 <= r < self.height implies #[trigger] self.data@[r]@.len()
                == self.width by {
                if r != i {
                    assert(self.data@[r] == old_data[r]);
                }
            }
            assert forall|r: int, c: int|
                0 <= r < self.height && 0 <= c < self.width implies #[trigger] self.data@[r]@[c]
                == if r == i && c == j {
                true
            } else {
                old(self).data@[r]@[c]
            } by {
                if r != i {
                    assert(self.data@[r] == old_data[r]);
                }
            }
        }
    }

    /// The board as text: one line per row, `+` for a living cell and a space
    /// for a dead one.
    pub fn render(&self) -> (r: Vec<char>)
        requires
            self.wf(),
        ensures
            r@ == render_rows(self.data@.map_values(|row: Vec<bool>| row@)),
    {
        let ghost rows = self.data@.map_values(|row: Vec<bool>| row@);
        let mut out: Vec<char> = Vec::new();
        let mut i: usize = 0;
        while i < self.height
            invariant
                self.wf(),
                i <= self.height,
                rows == self.data@.map_values(|row: Vec<bool>| row@),
                out@ == render_rows(rows.take(i as int)),
            decreases self.height - i,
        {
            let ghost before = out@;
            let ghost line = rows[i as int];
            let mut j: usize = 0;
            while j < self.width
                invariant
                    self.wf(),
                    i < self.height,
                    j <= self.width,
                    line == self.data@[i as int]@,
                    out@ == before + line.take(j as int).map_values(|b: bool| cell_char(b)),
                decreases self.width - j,
            {
                if self.data[i][j] {
                    out.push('+');
                } else {
                    out.push(' ');
                }
                assert(line.take(j + 1).map_values(|b: bool| cell_char(b)) =~= line.take(
                    j as int,
                ).map_values(|b: bool| cell_char(b)).push(cell_char(line[j as int])));
                j = j + 1;
            }
            out.push('\n');
            proof {
                assert(line.take(self.width as int) =~= line);
                assert(rows.take(i + 1).drop_last() =~= rows.take(i as int));
                assert(rows.take(i + 1).last() == line);
            }
            i = i + 1;
        }
        proof {
            assert(rows.take(self.height as int) =~= rows);
        }
        out
    }

    /// The signals of the eight neighbours of cell `(i, j)` on the torus: the
    /// row above (left, middle, right), the same row (left, right), the row
    /// below (left, middle, right).
    pub fn neighbours(&self, i: usize, j: usize) -> (r: Vec<usize>)
        requires
            self.wf(),
            i < self.height,
            j < self.width,
        ensures
            ({
                let (h, w) = (self.height as nat, self.width as nat);
                let (up, down) = (before(i as nat, h) as int, after(i as nat, h) as int);
                let (left, right) = (before(j as nat, w) as int, after(j as nat, w) as int);
                r@ == seq![
                    self.signal(up, left),
                    self.signal(up, j as int),
                    self.signal(up, right),
                    self.signal(i as int, left),
                    self.signal(i as int, right),
                    self.signal(down, left),
                    self.signal(down, j as int),
                    self.signal(down, right),
                ]
            }),
    {
        let h = self.height;
        let w = self.width;
        let up = wrap_before(i, h);
        let down = wrap_after(i, h);
        let left = wrap_before(j, w);
        let right = wrap_after(j, w);
        let r = vec![
            self.signals[up][left],
            self.signals[up][j],
            self.signals[up][right],
            self.signals[i][left],
            self.signals[i][right],
            self.signals[down][left],
            self.signals[down][j],
            self.signals[down][right],
        ];
        r
    }

    /// The process of cell `(i, j)` (see `is_cell_process`), with the user
    /// actions `rule`, `birth` and `stop`.
    pub fn cell_process(&self, i: usize, j: usize, rule: usize, birth: usize, stop: usize) -> (p:
        Process)
        requires
            self.wf(),
            i < self.height,
            j < self.width,
        ensures
            ({
                let (h, w) = (self.height as nat, self.width as nat);
                let (up, down) = (before(i as nat, h) as int, after(i as nat, h) as int);
                let (left, right) = (before(j as nat, w) as int, after(j as nat, w) as int);
                is_cell_process(
                    p,
                    self.signal(i as int, j as int),
                    seq![
                        self.signal(up, left),
                        self.signal(up, j as int),
                        self.signal(up, right),
                        self.signal(i as int, left),
                        self.signal(i as int, right),
                        self.signal(down, left),
                        self.signal(down, j as int),
                        self.signal(down, right),
                    ],
                    rule,
                    birth,
                    stop,
                )
            }),
    {
        let neigh = self.neighbours(i, j);
        let mut cs: Vec<(usize, Value)> = Vec::new();
        let mut k: usize = 0;
        while k < neigh.len()
            invariant
                k <= neigh@.len(),
                cs@.len() == k,
                forall|t: int| 0 <= t < k ==> #[trigger] cs@[t] == (neigh@[t], Value::Unit),
            decreases neigh@.len() - k,
        {
            cs.push((neigh[k], Value::Unit));
            k = k + 1;
        }
        looping(
            sequence(
                await_s_in(self.signals[i][j]),
                sequence(
                    act(rule),
                    choice(sequence(emit_vec_vs(cs), act(birth)), act(stop)),
                ),
            ),
        )
    }

    /// All cells side by side, in row-major order: cell `(i, j)`, the
    /// `k = i * width + j`-th, with the user actions `rule_base + k`,
    /// `birth_base + k` and `stop`.
    pub fn cells_process(&self, rule_base: usize, birth_base: usize, stop: usize) -> (p: Process)
        requires
            self.wf(),
            rule_base + self.width * self.height <= usize::MAX,
            birth_base + self.width * self.height <= usize::MAX,
        ensures
            p matches Process::BigPar(bp) && bp.0@.len() == self.width * self.height && forall|
                i: int,
                j: int,
            |
                #![trigger self.signal(i, j)]
                0 <= i < self.height && 0 <= j < self.width ==> {
                    let k = i * self.width + j;
                    let (h, w) = (self.height as nat, self.width as nat);
                    let (up, down) = (before(i as nat, h) as int, after(i as nat, h) as int);
                    let (left, right) = (before(j as nat, w) as int, after(j as nat, w) as int);
                    is_cell_process(
                        bp.0@[k],
                        self.signal(i, j),
                        seq![
                            self.signal(up, left),
                            self.signal(up, j),
                            self.signal(up, right),
                            self.signal(i, left),
                            self.signal(i, right),
                            self.signal(down, left),
                            self.signal(down, j),
                            self.signal(down, right),
                        ],
                        (rule_base + k) as usize,
                        (birth_base + k) as usize,
                        stop,
                    )
                },
    {
        let mut ps: Vec<Process> = Vec::new();
        let mut i: usize = 0;
        let ghost (h, w) = (self.height as nat, self.width as nat);
        while i < self.height
            invariant
                self.wf(),
                (h, w) == (self.height as nat, self.width as nat),
                i <= self.height,
                rule_base + self.width * self.height <= usize::MAX,
                birth_base + self.width * self.height <= usize::MAX,
                ps@.len() == i * self.width,
                forall|r: int, c: int|
                    #![trigger self.signal(r, c)]
                    0 <= r < i && 0 <= c < self.width ==> {
                        let k = r * self.width + c;
                        let (up, down) = (before(r as nat, h) as int, after(r as nat, h) as int);
                        let (left, right) = (before(c as nat, w) as int, after(c as nat, w) as int);
                        is_cell_process(
                            ps@[k],
                            self.signal(r, c),
                            seq![
                                self.signal(up, left),
                                self.signal(up, c),
                                self.signal(up, right),
                                self.signal(r, left),
                                self.signal(r, right),
                                self.signal(down, left),
                                self.signal(down, c),
                                self.signal(down, right),
                            ],
                            (rule_base + k) as usize,
                            (birth_base + k) as usize,
                            stop,
                        )
                    },
            decreases self.height - i,
        {
            let mut j: usize = 0;
            proof {
                assert((i + 1) * self.width <= self.width * self.height) by (nonlinear_arith)
                    requires
                        i < self.height,
                ;
                assert((i + 1) * self.width == i * self.width + self.width) by (nonlinear_arith);
            }
            while j < self.width
                invariant
                    self.wf(),
                    (h, w) == (self.height as nat, self.width as nat),
                    i < self.height,
                    j <= self.width,
                    rule_base + self.width * self.height <= usize::MAX,
                    birth_base + self.width * self.height <= usize::MAX,
                    (i + 1) * self.width <= self.width * self.height,
                    (i + 1) * self.width == i * self.width + self.width,
                    ps@.len() == i * self.width + j,
                    forall|r: int, c: int|
                        #![trigger self.signal(r, c)]
                        0 <= r <= i && 0 <= c < self.width && (r < i || c < j) ==> {
                            let k = r * self.width + c;
                            let (up, down) = (before(r as nat, h) as int, after(r as nat, h) as int);
                            let (left, right) = (
                                before(c as nat, w) as int,
                                after(c as nat, w) as int,
                            );
                            is_cell_process(
                                ps@[k],
                                self.signal(r, c),
                                seq![
                                    self.signal(up, left),
                                    self.signal(up, c),
                                    self.signal(up, right),
                                    self.signal(r, left),
                                    self.signal(r, right),
                                    self.signal(down, left),
                                    self.signal(down, c),
                                    self.signal(down, right),
                                ],
                                (rule_base + k) as usize,
                                (birth_base + k) as usize,
                                stop,
                            )
                        },
                decreases self.width - j,
            {
                let k = i * self.width + j;
                let p = self.cell_process(i, j, rule_base + k, birth_base + k, stop);
                let ghost old_ps = ps@;
                ps.push(p);
                proof {
                    assert forall|r: int, c: int|
                        #![trigger self.signal(r, c)]
                        0 <= r <= i && 0 <= c < self.width && (r < i || c < j + 1) implies {
                        let k2 = r * self.width + c;
                        let (up, down) = (before(r as nat, h) as int, after(r as nat, h) as int);
                        let (left, right) = (before(c as nat, w) as int, after(c as nat, w) as int);
                        is_cell_process(
                            ps@[k2],
                            self.signal(r, c),
                            seq![
                                self.signal(up, left),
                                self.signal(up, c),
                                self.signal(up, right),
                                self.signal(r, left),
                                self.signal(r, right),
                                self.signal(down, left),
                                self.signal(down, c),
                                self.signal(down, right),
                            ],
                            (rule_base + k2) as usize,
                            (birth_base + k2) as usize,
                            stop,
                        )
                    } by {
                        let k2 = r * self.width + c;
                        if r < i {
                            assert(r * self.width + c < i * self.width) by (nonlinear_arith)
                                requires
                                    r < i,
                                    c < self.width,
                            ;
                            assert(ps@[k2] == old_ps[k2]);
                        } else if c < j {
                            assert(ps@[k2] == old_ps[k2]);
                        } else {
                            assert(k2 == k);
                        }
                    }
                }
                j = j + 1;
            }
            i = i + 1;
        }
        proof {
            assert(self.height * self.width == self.width * self.height) by (nonlinear_arith);
        }
        big_join(ps)
    }
}


/// What the user action `action` of a board's cell processes is, as
/// numbered by `cells_process`.
#[derive(Debug, PartialEq, Eq)]
pub enum LifeAction {
    /// The action that ends a cell's loop.
    Stop,
    /// The rule of cell `(row, col)`, which received `(count, _)`.
    Rule { row: usize, col: usize, count: i64 },
    /// The birth of cell `(row, col)`.
    Birth { row: usize, col: usize },
    /// No action of the board, or a rule that did not receive a count.
    Unknown,
}

/// The value a loop body passes on to end its loop.
pub open spec fn stop_value() -> Value {
    Value::False(Box::new(Value::Unit))
}

impl Board {
    /// What `action`, applied to `v`, is among the actions of `cells_process`
    /// with the numbers `rule_base`, `birth_base` and `stop`: `stop` first,
    /// then a birth, then a rule.
    pub open spec fn action_spec(
        &self,
        action: usize,
        v: Value,
        rule_base: usize,
        birth_base: usize,
        stop: usize,
    ) -> LifeAction {
        let n = self.width * self.height;
        if action == stop {
            LifeAction::Stop
        } else if birth_base <= action < birth_base + n {
            let k = action - birth_base;
            LifeAction::Birth { row: (k / self.width as int) as usize, col: (k % self.width as int) as usize }
        } else if rule_base <= action < rule_base + n {
            let k = action - rule_base;
            match v {
                Value::Pair(c, _) => match *c {
                    Value::Int(count) => LifeAction::Rule {
                        row: (k / self.width as int) as usize,
                        col: (k % self.width as int) as usize,
                        count,
                    },
                    _ => LifeAction::Unknown,
                },
                _ => LifeAction::Unknown,
            }
        } else {
            LifeAction::Unknown
        }
    }

    /// Classifies `action` applied to `v` (see `action_spec`).
    pub fn action(
        &self,
        action: usize,
        v: &Value,
        rule_base: usize,
        birth_base: usize,
        stop: usize,
    ) -> (r: LifeAction)
        requires
            self.wf(),
        ensures
            r == self.action_spec(action, *v, rule_base, birth_base, stop),
            r matches LifeAction::Rule { row, col, .. } ==> row < self.height && col < self.width,
            r matches LifeAction::Birth { row, col } ==> row < self.height && col < self.width,
    {
        let w = self.width;
        let h = self.height;
        if action == stop {
            return LifeAction::Stop;
        }
        proof {
            if birth_base <= action {
                lemma_index_range((action - birth_base) as usize, w, h);
            }
            if rule_base <= action {
                lemma_index_range((action - rule_base) as usize, w, h);
            }
        }
        if birth_base <= action && w > 0 && (action - birth_base) / w < h {
            let k = action - birth_base;
            proof {
                lemma_cell_index(k, w, h);
            }
            return LifeAction::Birth { row: k / w, col: k % w };
        }
        if rule_base <= action && w > 0 && (action - rule_base) / w < h {
            let k = action - rule_base;
            proof {
                lemma_cell_index(k, w, h);
            }
            match v {
                Value::Pair(c, _) => match &**c {
                    Value::Int(count) => {
                        return LifeAction::Rule { row: k / w, col: k % w, count: *count };
                    },
                    _ => {
                        return LifeAction::Unknown;
                    },
                },
                _ => {
                    return LifeAction::Unknown;
                },
            }
        }
        LifeAction::Unknown
    }

    /// Applies the user action `action` of the cell processes (numbered as in
    /// `cells_process`) to `v`: a rule answers `True(())` when the cell is to
    /// be born and `False(())` otherwise; a birth makes its cell alive and
    /// answers `False(())`, as does the stop action; anything else answers
    /// `()` and changes nothing.
    pub fn react(
        &mut self,
        action: usize,
        v: Value,
        rule_base: usize,
        birth_base: usize,
        stop: usize,
    ) -> (r: Value)
        requires
            old(self).wf(),
        ensures
            final(self).wf(),
            final(self).width == old(self).width,
            final(self).height == old(self).height,
            final(self).signals@ == old(self).signals@,
            match old(self).action_spec(action, v, rule_base, birth_base, stop) {
                LifeAction::Stop => r == stop_value() && final(self).data@ == old(self).data@,
                LifeAction::Rule { row, col, count } => r == (if rule_spec(
                    count,
                    old(self).data@[row as int]@[col as int],
                ) {
                    Value::True(Box::new(Value::Unit))
                } else {
                    stop_value()
                }) && final(self).data@ == old(self).data@,
                LifeAction::Birth { row, col } => r == stop_value() && forall|i: int, j: int|
                    0 <= i < final(self).height && 0 <= j < final(self).width ==> #[trigger] final(self).data@[i]@[j] == if i == row && j == col {
                        true
                    } else {
                        old(self).data@[i]@[j]
                    },
                LifeAction::Unknown => r == Value::Unit && final(self).data@ == old(self).data@,
            },
    {
        match self.action(action, &v, rule_base, birth_base, stop) {
            LifeAction::Stop => Value::False(Box::new(Value::Unit)),
            LifeAction::Rule { row, col, count } => {
                if life_rule(count, self.is_alive(row, col)) {
                    Value::True(Box::new(Value::Unit))
                } else {
                    Value::False(Box::new(Value::Unit))
                }
            },
            LifeAction::Birth { row, col } => {
                self.set_alive(row, col);
                Value::False(Box::new(Value::Unit))
            },
            LifeAction::Unknown => Value::Unit,
        }
    }
}

proof fn lemma_index_range(k: usize, w: usize, h: usize)
    ensures
        (w > 0 && k / w < h) <==> (k as int) < (w as int) * (h as int),
{
    if w > 0 {
        vstd::arithmetic::div_mod::lemma_fundamental_div_mod(k as int, w as int);
        let q = k as int / w as int;
        let r = k as int % w as int;
        assert(0 <= r < w);
        if q < h {
            assert((k as int) < (w as int) * (h as int)) by (nonlinear_arith)
                requires
                    k as int == w * q + r,
                    r < w,
                    q < h,
                    q >= 0,
            ;
        } else {
            assert((k as int) >= (w as int) * (h as int)) by (nonlinear_arith)
                requires
                    k as int == w * q + r,
                    r >= 0,
                    q >= h,
                    w > 0,
            ;
        }
    } else {
        assert((w as int) * (h as int) == 0) by (nonlinear_arith)
            requires
                w == 0,
        ;
    }
}

proof fn lemma_cell_index(k: usize, w: usize, h: usize)
    requires
        (k as int) < (w as int) * (h as int),
    ensures
        w > 0,
        k / w < h,
        k % w < w,
        k / w == k as int / w as int,
        k % w == k as int % w as int,
{
    assert(w > 0) by (nonlinear_arith)
        requires
            (k as int) < (w as int) * (h as int),
            k >= 0,
            h >= 0,
    ;
    assert(k / w < h) by (nonlinear_arith)
        requires
            (k as int) < (w as int) * (h as int),
            w > 0,
    ;
}

} // verus!
