use vstd::prelude::*;

use crate::grid::Grid;
use crate::grid::lemma_dims_small;
use crate::grid::lemma_mul_bound;
use crate::grid::lemma_row_major_bounds;
use crate::grid::MAX_DIM;

verus! {

/// A constraint over boolean edge variables, identified by their indices.
/// This is the whole language the engine needs: pseudo-boolean equalities for
/// clues, an even-count disjunction for vertices, and blocking clauses for
/// the refinement loop.
pub enum Constraint {
    /// Exactly `k` of the listed edge variables are true.
    ExactlyK { vars: Vec<usize>, k: usize },
    /// Either none or exactly two of the listed edge variables are true.
    ZeroOrTwo { vars: Vec<usize> },
    /// Not all of the listed edge variables are true at once.
    NotAll { vars: Vec<usize> },
}

/// The mathematical shape of a `Constraint`.
pub enum ConstraintModel {
    ExactlyK { vars: Seq<int>, k: int },
    ZeroOrTwo { vars: Seq<int> },
    NotAll { vars: Seq<int> },
}

/// Edge-variable indices of a `Vec<usize>`, as mathematical integers.
pub open spec fn ids(v: Seq<usize>) -> Seq<int> {
    v.map_values(|u: usize| u as int)
}

impl View for Constraint {
    type V = ConstraintModel;

    open spec fn view(&self) -> ConstraintModel {
        match self {
            Constraint::ExactlyK { vars, k } => ConstraintModel::ExactlyK {
                vars: ids(vars@),
                k: *k as int,
            },
            Constraint::ZeroOrTwo { vars } => ConstraintModel::ZeroOrTwo { vars: ids(vars@) },
            Constraint::NotAll { vars } => ConstraintModel::NotAll { vars: ids(vars@) },
        }
    }
}

/// The views of a whole constraint list.
pub open spec fn views(cs: Seq<Constraint>) -> Seq<ConstraintModel> {
    cs.map_values(|c: Constraint| c@)
}

/// How many of the listed variables an assignment sets to true.
pub open spec fn count_true(m: Seq<bool>, vars: Seq<int>) -> int
    decreases vars.len(),
{
    if vars.len() == 0 {
        0
    } else {
        count_true(m, vars.drop_last()) + if m[vars.last()] {
            1 as int
        } else {
            0 as int
        }
    }
}

pub proof fn lemma_count_true_bounds(m: Seq<bool>, vars: Seq<int>)
    ensures
        0 <= count_true(m, vars) <= vars.len(),
    decreases vars.len(),
{
    if vars.len() > 0 {
        lemma_count_true_bounds(m, vars.drop_last());
    }
}

impl ConstraintModel {
    pub open spec fn vars(self) -> Seq<int> {
        match self {
            ConstraintModel::ExactlyK { vars, .. } => vars,
            ConstraintModel::ZeroOrTwo { vars } => vars,
            ConstraintModel::NotAll { vars } => vars,
        }
    }

    /// Whether an assignment satisfies this constraint.
    pub open spec fn holds(self, m: Seq<bool>) -> bool {
        match self {
            ConstraintModel::ExactlyK { vars, k } => count_true(m, vars) == k,
            ConstraintModel::ZeroOrTwo { vars } => count_true(m, vars) == 0 || count_true(m, vars)
                == 2,
            ConstraintModel::NotAll { vars } => count_true(m, vars) < vars.len(),
        }
    }

    pub open spec fn in_range(self, n: int) -> bool {
        forall|i: int| 0 <= i < self.vars().len() ==> 0 <= #[trigger] self.vars()[i] < n
    }
}

/// Whether an assignment satisfies every constraint of a list.
pub open spec fn all_hold(cs: Seq<ConstraintModel>, m: Seq<bool>) -> bool {
    forall|i: int| 0 <= i < cs.len() ==> (#[trigger] cs[i]).holds(m)
}

pub open spec fn all_in_range(cs: Seq<ConstraintModel>, n: int) -> bool {
    forall|i: int| 0 <= i < cs.len() ==> (#[trigger] cs[i]).in_range(n)
}

/// Count the true entries among `vars` in the assignment `m`.
pub fn count_true_exec(m: &Vec<bool>, vars: &Vec<usize>) -> (n: usize)
    requires
        forall|i: int| 0 <= i < vars@.len() ==> #[trigger] vars@[i] < m@.len(),
    ensures
        n == count_true(m@, ids(vars@)),
{
    let mut n: usize = 0;
    let mut i: usize = 0;
    proof {
        assert(ids(vars@).take(0) =~= Seq::<int>::empty());
    }
    while i < vars.len()
        invariant
            i <= vars@.len(),
            forall|j: int| 0 <= j < vars@.len() ==> #[trigger] vars@[j] < m@.len(),
            n == count_true(m@, ids(vars@).take(i as int)),
            n <= i,
        decreases vars@.len() - i,
    {
        proof {
            assert(ids(vars@).take(i + 1).drop_last() =~= ids(vars@).take(i as int));
            assert(ids(vars@).take(i + 1).last() == vars@[i as int] as int);
        }
        if m[vars[i]] {
            n += 1;
        }
        i += 1;
    }
    proof {
        assert(ids(vars@).take(vars@.len() as int) =~= ids(vars@));
    }
    n
}

/// Bridge an `in_range` fact about a constraint's integer variable list to
/// the underlying `usize` list.
pub proof fn lemma_vars_fit(s: Seq<int>, v: Seq<usize>, n: int)
    requires
        s == ids(v),
        forall|i: int| 0 <= i < s.len() ==> 0 <= #[trigger] s[i] < n,
    ensures
        forall|i: int| 0 <= i < v.len() ==> #[trigger] v[i] < n,
{
    assert forall|i: int| 0 <= i < v.len() implies #[trigger] v[i] < n by {
        assert(ids(v)[i] == v[i] as int);
        assert(0 <= s[i] < n);
    }
}

impl Constraint {
    /// Evaluate this constraint under an assignment.
    pub fn holds_on(&self, m: &Vec<bool>) -> (r: bool)
        requires
            self@.in_range(m@.len() as int),
        ensures
            r == self@.holds(m@),
    {
        match self {
            Constraint::ExactlyK { vars, k } => {
                proof {
                    lemma_vars_fit(self@.vars(), vars@, m@.len() as int);
                }
                let n = count_true_exec(m, vars);
                n == *k
            },
            Constraint::ZeroOrTwo { vars } => {
                proof {
                    lemma_vars_fit(self@.vars(), vars@, m@.len() as int);
                }
                let n = count_true_exec(m, vars);
                n == 0 || n == 2
            },
            Constraint::NotAll { vars } => {
                proof {
                    lemma_vars_fit(self@.vars(), vars@, m@.len() as int);
                }
                let n = count_true_exec(m, vars);
                proof {
                    lemma_count_true_bounds(m@, ids(vars@));
                }
                n < vars.len()
            },
        }
    }
}

/// Evaluate a whole constraint list under an assignment.
pub fn all_hold_exec(cs: &Vec<Constraint>, m: &Vec<bool>) -> (r: bool)
    requires
        all_in_range(views(cs@), m@.len() as int),
    ensures
        r == all_hold(views(cs@), m@),
{
    let mut i: usize = 0;
    while i < cs.len()
        invariant
            i <= cs@.len(),
            all_in_range(views(cs@), m@.len() as int),
            forall|j: int| 0 <= j < i ==> (#[trigger] views(cs@)[j]).holds(m@),
        decreases cs@.len() - i,
    {
        proof {
            assert(views(cs@)[i as int] == cs@[i as int]@);
            assert(views(cs@)[i as int].in_range(m@.len() as int));
        }
        if !cs[i].holds_on(m) {
            proof {
                assert(!(views(cs@)[i as int]).holds(m@));
            }
            return false;
        }
        i += 1;
    }
    true
}

impl Grid {
    /// The four boundary edge variables of cell `(r, c)`, in the order the
    /// clue-degree constraint lists them.
    pub open spec fn cell_edge_vars(self, r: int, c: int) -> Seq<int> {
        seq![
            self.top_id(r, c),
            self.left_id(r, c),
            self.top_id(r + 1, c),
            self.left_id(r, c + 1),
        ]
    }

    /// The 1 to 4 edge variables incident to vertex `(r, c)`, in the fixed
    /// order the parity constraint lists them.
    pub open spec fn vertex_edge_vars(self, r: int, c: int) -> Seq<int> {
        (if r < self.height {
            seq![self.left_id(r, c)]
        } else {
            Seq::<int>::empty()
        }) + (if r > 0 {
            seq![self.left_id(r - 1, c)]
        } else {
            Seq::<int>::empty()
        }) + (if c < self.width {
            seq![self.top_id(r, c)]
        } else {
            Seq::<int>::empty()
        }) + (if c > 0 {
            seq![self.top_id(r, c - 1)]
        } else {
            Seq::<int>::empty()
        })
    }
}

pub proof fn lemma_cell_vars_in_range(g: Grid, r: int, c: int)
    requires
        g.wf(),
        0 <= r < g.height,
        0 <= c < g.width,
    ensures
        forall|i: int|
            0 <= i < g.cell_edge_vars(r, c).len() ==> 0 <= #[trigger] g.cell_edge_vars(r, c)[i]
                < g.n_edges(),
        g.cell_edge_vars(r, c).len() == 4,
{
    lemma_row_major_bounds(r, c, g.height + 1, g.width as int);
    lemma_row_major_bounds(r + 1, c, g.height + 1, g.width as int);
    lemma_row_major_bounds(r, c, g.height as int, g.width + 1);
    lemma_row_major_bounds(r, c + 1, g.height as int, g.width + 1);
    lemma_dims_small(g.width as int, g.height as int);
}

pub proof fn lemma_vertex_vars_in_range(g: Grid, r: int, c: int)
    requires
        g.wf(),
        0 <= r <= g.height,
        0 <= c <= g.width,
    ensures
        forall|i: int|
            0 <= i < g.vertex_edge_vars(r, c).len() ==> 0 <= #[trigger] g.vertex_edge_vars(r, c)[i]
                < g.n_edges(),
        1 <= g.vertex_edge_vars(r, c).len() <= 4,
{
    if r < g.height {
        lemma_row_major_bounds(r, c, g.height as int, g.width + 1);
    }
    if r > 0 {
        lemma_row_major_bounds(r - 1, c, g.height as int, g.width + 1);
    }
    if c < g.width {
        lemma_row_major_bounds(r, c, g.height + 1, g.width as int);
    }
    if c > 0 {
        lemma_row_major_bounds(r, c - 1, g.height + 1, g.width as int);
    }
    lemma_dims_small(g.width as int, g.height as int);
}

/// The clue-degree constraints of the first `n` cells, in row-major order.
pub open spec fn clue_part(g: Grid, n: int) -> Seq<ConstraintModel>
    decreases n,
{
    if n <= 0 {
        Seq::empty()
    } else {
        clue_part(g, n - 1) + match g.clues@[n - 1] {
            Some(v) => seq![
                ConstraintModel::ExactlyK {
                    vars: g.cell_edge_vars((n - 1) / (g.width as int), (n - 1) % (g.width as int)),
                    k: v as int,
                },
            ],
            None => Seq::<ConstraintModel>::empty(),
        }
    }
}

/// The vertex-parity constraints of the first `n` vertices, in row-major order.
pub open spec fn parity_part(g: Grid, n: int) -> Seq<ConstraintModel>
    decreases n,
{
    if n <= 0 {
        Seq::empty()
    } else {
        parity_part(g, n - 1) + seq![
            ConstraintModel::ZeroOrTwo {
                vars: g.vertex_edge_vars(
                    (n - 1) / (g.width + 1 as int),
                    (n - 1) % (g.width + 1 as int),
                ),
            },
        ]
    }
}

/// The base model of a puzzle: every clue-degree constraint followed by every
/// vertex-parity constraint.
pub open spec fn encoding(g: Grid) -> Seq<ConstraintModel> {
    clue_part(g, g.width * g.height) + parity_part(g, (g.width + 1) * (g.height + 1))
}

impl Grid {
    /// Executable counterpart of `cell_edge_vars`.
    pub fn cell_vars(&self, r: usize, c: usize) -> (v: Vec<usize>)
        requires
            self.wf(),
            r < self.height,
            c < self.width,
        ensures
            ids(v@) == self.cell_edge_vars(r as int, c as int),
    {
        let mut v: Vec<usize> = Vec::new();
        v.push(self.top_index(r, c));
        v.push(self.left_index(r, c));
        v.push(self.top_index(r + 1, c));
        v.push(self.left_index(r, c + 1));
        proof {
            assert(ids(v@) =~= self.cell_edge_vars(r as int, c as int));
        }
        v
    }

    /// Executable counterpart of `vertex_edge_vars`.
    pub fn vertex_vars(&self, r: usize, c: usize) -> (v: Vec<usize>)
        requires
            self.wf(),
            r <= self.height,
            c <= self.width,
        ensures
            ids(v@) == self.vertex_edge_vars(r as int, c as int),
    {
        let mut v: Vec<usize> = Vec::new();
        if r < self.height {
            v.push(self.left_index(r, c));
        }
        if r > 0 {
            v.push(self.left_index(r - 1, c));
        }
        if c < self.width {
            v.push(self.top_index(r, c));
        }
        if c > 0 {
            v.push(self.top_index(r, c - 1));
        }
        proof {
            assert(ids(v@) =~= self.vertex_edge_vars(r as int, c as int));
        }
        v
    }
}

/// Build the base constraint set of a puzzle: one clue-degree constraint per
/// clued cell and one parity constraint per vertex.
pub fn encode(g: &Grid) -> (r: Vec<Constraint>)
    requires
        g.wf(),
    ensures
        views(r@) == encoding(*g),
{
    let w = g.width;
    let h = g.height;
    proof {
        lemma_mul_bound(w as int, h as int, MAX_DIM as int, MAX_DIM as int);
        lemma_mul_bound(w + 1 as int, h + 1 as int, MAX_DIM + 1 as int, MAX_DIM + 1 as int);
    }
    let mut out: Vec<Constraint> = Vec::new();
    let n_cells = w * h;
    let mut idx: usize = 0;
    proof {
        assert(views(out@) =~= clue_part(*g, 0));
    }
    while idx < n_cells
        invariant
            g.wf(),
            w == g.width,
            h == g.height,
            n_cells == w * h,
            idx <= n_cells,
            views(out@) == clue_part(*g, idx as int),
        decreases n_cells - idx,
    {
        let r = idx / w;
        let c = idx % w;
        proof {
            lemma_row_major_split(idx as int, w as int, h as int);
        }
        match g.clue_at(r, c) {
            Some(v) => {
                let vars = g.cell_vars(r, c);
                let ghost before = views(out@);
                out.push(Constraint::ExactlyK { vars, k: v as usize });
                proof {
                    assert(views(out@) =~= before + seq![
                        ConstraintModel::ExactlyK {
                            vars: g.cell_edge_vars(r as int, c as int),
                            k: v as int,
                        },
                    ]);
                }
            },
            None => {
                proof {
                    assert(views(out@) =~= clue_part(*g, idx as int) + Seq::<
                        ConstraintModel,
                    >::empty());
                }
            },
        }
        idx += 1;
    }
    let ghost clues_done = views(out@);
    let n_vertices = (w + 1) * (h + 1);
    let mut vdx: usize = 0;
    while vdx < n_vertices
        invariant
            g.wf(),
            w == g.width,
            h == g.height,
            n_vertices == (w + 1) * (h + 1),
            vdx <= n_vertices,
            clues_done == clue_part(*g, (w * h) as int),
            views(out@) == clues_done + parity_part(*g, vdx as int),
        decreases n_vertices - vdx,
    {
        let r = vdx / (w + 1);
        let c = vdx % (w + 1);
        proof {
            lemma_row_major_split(vdx as int, w + 1 as int, h + 1 as int);
        }
        let vars = g.vertex_vars(r, c);
        let ghost before = views(out@);
        out.push(Constraint::ZeroOrTwo { vars });
        proof {
            assert(views(out@) =~= before + seq![
                ConstraintModel::ZeroOrTwo { vars: g.vertex_edge_vars(r as int, c as int) },
            ]);
            assert(views(out@) =~= clues_done + parity_part(*g, vdx + 1 as int));
        }
        vdx += 1;
    }
    proof {
        assert(views(out@) =~= encoding(*g));
    }
    out
}

/// Splitting a row-major cell index into its row and column.
pub proof fn lemma_row_major_split(idx: int, cols: int, rows: int)
    requires
        0 < cols,
        0 <= idx < cols * rows,
    ensures
        0 <= idx / cols < rows,
        0 <= idx % cols < cols,
        (idx / cols) * cols + (idx % cols) == idx,
{
    assert(0 <= idx / cols < rows && 0 <= idx % cols < cols && (idx / cols) * cols + (idx % cols)
        == idx) by (nonlinear_arith)
        requires
            0 < cols,
            0 <= idx < cols * rows,
    ;
}

/// Multiplication of integers commutes; stated for terms Verus treats as
/// nonlinear.
pub proof fn lemma_mul_comm(a: int, b: int)
    ensures
        a * b == b * a,
{
    assert(a * b == b * a) by (nonlinear_arith);
}

/// Inverse of `lemma_row_major_split`: a row-major index decodes back to the
/// coordinates it was built from.
pub proof fn lemma_row_major_split_inverse(r: int, c: int, cols: int)
    requires
        0 <= r,
        0 <= c < cols,
    ensures
        (r * cols + c) / cols == r,
        (r * cols + c) % cols == c,
{
    assert((r * cols + c) / cols == r && (r * cols + c) % cols == c) by (nonlinear_arith)
        requires
            0 <= r,
            0 <= c < cols,
    ;
}

proof fn lemma_clue_part_contains(g: Grid, n: int, idx: int)
    requires
        g.wf(),
        0 <= idx < n,
        n <= g.width * g.height,
        g.clues@[idx] is Some,
    ensures
        clue_part(g, n).contains(
            ConstraintModel::ExactlyK {
                vars: g.cell_edge_vars(idx / (g.width as int), idx % (g.width as int)),
                k: g.clues@[idx]->Some_0 as int,
            },
        ),
    decreases n,
{
    let cm = ConstraintModel::ExactlyK {
        vars: g.cell_edge_vars(idx / (g.width as int), idx % (g.width as int)),
        k: g.clues@[idx]->Some_0 as int,
    };
    if idx == n - 1 {
        let prefix = clue_part(g, n - 1);
        assert(clue_part(g, n)[prefix.len() as int] == cm);
    } else {
        lemma_clue_part_contains(g, n - 1, idx);
        let prefix = clue_part(g, n - 1);
        let i = choose|i: int| 0 <= i < prefix.len() && prefix[i] == cm;
        assert(clue_part(g, n)[i] == cm);
    }
}

proof fn lemma_parity_part_contains(g: Grid, n: int, idx: int)
    requires
        g.wf(),
        0 <= idx < n,
        n <= (g.width + 1) * (g.height + 1),
    ensures
        parity_part(g, n).contains(
            ConstraintModel::ZeroOrTwo {
                vars: g.vertex_edge_vars(idx / (g.width + 1 as int), idx % (g.width + 1 as int)),
            },
        ),
    decreases n,
{
    let cm = ConstraintModel::ZeroOrTwo {
        vars: g.vertex_edge_vars(idx / (g.width + 1 as int), idx % (g.width + 1 as int)),
    };
    if idx == n - 1 {
        let prefix = parity_part(g, n - 1);
        assert(parity_part(g, n)[prefix.len() as int] == cm);
    } else {
        lemma_parity_part_contains(g, n - 1, idx);
        let prefix = parity_part(g, n - 1);
        let i = choose|i: int| 0 <= i < prefix.len() && prefix[i] == cm;
        assert(parity_part(g, n)[i] == cm);
    }
}

/// In every model satisfying the base encoding, a clued cell's four boundary
/// edges carry exactly as many true variables as the clue demands.
pub proof fn lemma_clue_degree(g: Grid, m: Seq<bool>, r: int, c: int)
    requires
        g.wf(),
        0 <= r < g.height,
        0 <= c < g.width,
        g.clue(r, c) is Some,
        all_hold(encoding(g), m),
    ensures
        count_true(m, g.cell_edge_vars(r, c)) == g.clue(r, c)->Some_0,
{
    let w = g.width as int;
    let h = g.height as int;
    let idx = r * w + c;
    lemma_row_major_bounds(r, c, h, w);
    lemma_mul_comm(h, w);
    lemma_row_major_split_inverse(r, c, w);
    lemma_clue_part_contains(g, w * h, idx);
    let cm = ConstraintModel::ExactlyK {
        vars: g.cell_edge_vars(r, c),
        k: g.clue(r, c)->Some_0 as int,
    };
    let cp = clue_part(g, w * h);
    assert(cp.contains(cm));
    let i = choose|i: int| 0 <= i < cp.len() && cp[i] == cm;
    assert(encoding(g)[i] == cm);
    assert(encoding(g)[i].holds(m));
}

/// In every model satisfying the base encoding, each vertex touches either
/// zero or two true edges, never one, three or four.
pub proof fn lemma_vertex_parity(g: Grid, m: Seq<bool>, r: int, c: int)
    requires
        g.wf(),
        0 <= r <= g.height,
        0 <= c <= g.width,
        all_hold(encoding(g), m),
    ensures
        count_true(m, g.vertex_edge_vars(r, c)) == 0 || count_true(m, g.vertex_edge_vars(r, c))
            == 2,
{
    let w = g.width as int;
    let h = g.height as int;
    let idx = r * (w + 1) + c;
    lemma_row_major_bounds(r, c, h + 1, w + 1);
    lemma_mul_comm(h + 1, w + 1);
    lemma_row_major_split_inverse(r, c, w + 1);
    lemma_parity_part_contains(g, (w + 1) * (h + 1), idx);
    let cm = ConstraintModel::ZeroOrTwo { vars: g.vertex_edge_vars(r, c) };
    let pp = parity_part(g, (w + 1) * (h + 1));
    assert(pp.contains(cm));
    let i = choose|i: int| 0 <= i < pp.len() && pp[i] == cm;
    let cp = clue_part(g, w * h);
    assert(encoding(g)[cp.len() + i] == cm);
    assert(encoding(g)[cp.len() + i].holds(m));
}

proof fn lemma_clue_part_in_range(g: Grid, n: int)
    requires
        g.wf(),
        0 <= n <= g.width * g.height,
    ensures
        all_in_range(clue_part(g, n), g.n_edges()),
    decreases n,
{
    if n > 0 {
        lemma_clue_part_in_range(g, n - 1);
        let prefix = clue_part(g, n - 1);
        let whole = clue_part(g, n);
        lemma_mul_comm(g.height as int, g.width as int);
        lemma_row_major_split(n - 1, g.width as int, g.height as int);
        if g.clues@[n - 1] is Some {
            lemma_cell_vars_in_range(
                g,
                (n - 1) / (g.width as int),
                (n - 1) % (g.width as int),
            );
        }
        assert forall|i: int| 0 <= i < whole.len() implies (#[trigger] whole[i]).in_range(
            g.n_edges(),
        ) by {
            if i < prefix.len() {
                assert(whole[i] == prefix[i]);
            }
        }
    }
}

proof fn lemma_parity_part_in_range(g: Grid, n: int)
    requires
        g.wf(),
        0 <= n <= (g.width + 1) * (g.height + 1),
    ensures
        all_in_range(parity_part(g, n), g.n_edges()),
    decreases n,
{
    if n > 0 {
        lemma_parity_part_in_range(g, n - 1);
        let prefix = parity_part(g, n - 1);
        let whole = parity_part(g, n);
        lemma_mul_comm(g.height + 1, g.width + 1);
        lemma_row_major_split(n - 1, g.width + 1 as int, g.height + 1 as int);
        lemma_vertex_vars_in_range(
            g,
            (n - 1) / (g.width + 1 as int),
            (n - 1) % (g.width + 1 as int),
        );
        assert forall|i: int| 0 <= i < whole.len() implies (#[trigger] whole[i]).in_range(
            g.n_edges(),
        ) by {
            if i < prefix.len() {
                assert(whole[i] == prefix[i]);
            }
        }
    }
}

/// Every variable the base encoding mentions is a real edge variable.
pub proof fn lemma_encoding_in_range(g: Grid)
    requires
        g.wf(),
    ensures
        all_in_range(encoding(g), g.n_edges()),
{
    lemma_clue_part_in_range(g, g.width * g.height);
    lemma_parity_part_in_range(g, (g.width + 1) * (g.height + 1));
    let cp = clue_part(g, g.width * g.height);
    let pp = parity_part(g, (g.width + 1) * (g.height + 1));
    assert forall|i: int| 0 <= i < encoding(g).len() implies (#[trigger] encoding(g)[i]).in_range(
        g.n_edges(),
    ) by {
        if i < cp.len() {
            assert(encoding(g)[i] == cp[i]);
        } else {
            assert(encoding(g)[i] == pp[i - cp.len()]);
        }
    }
}

} // verus!
