use vstd::prelude::*;

use crate::grid::Grid;
use crate::grid::SolveError;
use crate::encode::Constraint;
use crate::encode::ConstraintModel;
use crate::encode::all_hold;
use crate::encode::clue_part;
use crate::encode::encoding;
use crate::encode::lemma_vars_fit;
use crate::encode::parity_part;
use crate::encode::views;
use crate::extract::cycle_views;
use crate::extract::exact_partition;
use crate::extract::extraction;
use crate::extract::is_first_min;
use crate::extract::num_true;
use crate::refine::Outcome;
use crate::refine::Refinement;
use crate::refine::Verdict;
use crate::refine::verdict_check;

verus! {

#[verifier::external_type_specification]
#[verifier::external_body]
pub struct ExBool(z3::ast::Bool);

#[verifier::external_type_specification]
#[verifier::external_body]
pub struct ExSolver(z3::Solver);

#[verifier::external_type_specification]
#[verifier::external_body]
pub struct ExModel(z3::Model);

/// Relies on z3's `Solver::new`: a fresh solver with an empty assertion set.
#[verifier::external_body]
fn z3_new_solver() -> z3::Solver {
    z3::Solver::new()
}

/// Relies on z3's `Bool::new_const`: a boolean decision variable carrying
/// the given coordinate label.
#[verifier::external_body]
fn z3_new_bool(prefix: &str, r: usize, c: usize) -> z3::ast::Bool {
    z3::ast::Bool::new_const(format!("{}_{}_{}", prefix, r, c))
}

/// Relies on z3's `Bool::pb_eq`: the returned term asserts that the
/// unit-weighted sum of the selected variables equals `k`.
#[verifier::external_body]
fn z3_pb_eq(vars: &Vec<z3::ast::Bool>, idxs: &Vec<usize>, k: usize) -> z3::ast::Bool
    requires
        forall|i: int| 0 <= i < idxs@.len() ==> #[trigger] idxs@[i] < vars@.len(),
        k < 0x8000_0000,
{
    let pairs: Vec<(&z3::ast::Bool, i32)> = idxs.iter().map(|i| (&vars[*i], 1)).collect();
    z3::ast::Bool::pb_eq(&pairs, k as i32)
}

/// Relies on z3's `Bool::and`: the conjunction of the selected variables.
#[verifier::external_body]
fn z3_and_all(vars: &Vec<z3::ast::Bool>, idxs: &Vec<usize>) -> z3::ast::Bool
    requires
        forall|i: int| 0 <= i < idxs@.len() ==> #[trigger] idxs@[i] < vars@.len(),
{
    let chosen: Vec<z3::ast::Bool> = idxs.iter().map(|i| vars[*i].clone()).collect();
    z3::ast::Bool::and(&chosen)
}

/// Relies on z3's `Bool::or`: the disjunction of the two given terms.
#[verifier::external_body]
fn z3_or2(a: &z3::ast::Bool, b: &z3::ast::Bool) -> z3::ast::Bool {
    z3::ast::Bool::or(&[a.clone(), b.clone()])
}

/// Relies on z3's `Bool::not`: the negation of the given term.
#[verifier::external_body]
fn z3_not(a: &z3::ast::Bool) -> z3::ast::Bool {
    a.not()
}

/// Relies on z3's `Solver::assert`: adds the term to the solver's constraint
/// set, which only ever grows.
#[verifier::external_body]
fn z3_assert(s: &z3::Solver, b: &z3::ast::Bool) {
    s.assert(b);
}

/// Relies on z3's `Solver::check`: the backend's verdict on the current
/// constraint set. Nothing is assumed about which verdict comes back.
#[verifier::external_body]
fn z3_check(s: &z3::Solver) -> Verdict {
    match s.check() {
        z3::SatResult::Sat => Verdict::Sat,
        z3::SatResult::Unsat => Verdict::Unsat,
        z3::SatResult::Unknown => Verdict::Unknown,
    }
}

/// Relies on z3's `Solver::get_model`: the model of the last successful
/// check, if one is available.
#[verifier::external_body]
fn z3_model(s: &z3::Solver) -> Option<z3::Model> {
    s.get_model()
}

/// Relies on z3's `Model::eval` (without completion) and `Bool::as_bool`:
/// the variable's boolean value in the model, if it has one.
#[verifier::external_body]
fn z3_eval(mo: &z3::Model, b: &z3::ast::Bool) -> Option<bool> {
    match mo.eval(b, false) {
        Some(v) => v.as_bool(),
        None => None,
    }
}

/// One backend variable per edge, indexed like the edge variables: all
/// horizontal edges in row-major order, then all vertical edges.
fn make_edge_vars(g: &Grid) -> (v: Vec<z3::ast::Bool>)
    requires
        g.wf(),
    ensures
        v@.len() == g.n_edges(),
{
    let w = g.width;
    let n_top = g.top_count();
    let n = g.edge_count();
    let mut v: Vec<z3::ast::Bool> = Vec::new();
    let mut idx: usize = 0;
    while idx < n_top
        invariant
            idx <= n_top,
            v@.len() == idx,
            w == g.width,
            g.wf(),
        decreases n_top - idx,
    {
        v.push(z3_new_bool("top", idx / w, idx % w));
        idx += 1;
    }
    let mut jdx: usize = 0;
    while jdx < n - n_top
        invariant
            jdx <= n - n_top,
            n_top <= n,
            v@.len() == n_top + jdx,
            w == g.width,
            g.wf(),
        decreases n - n_top - jdx,
    {
        v.push(z3_new_bool("left", jdx / (w + 1), jdx % (w + 1)));
        jdx += 1;
    }
    v
}

/// Translate one constraint into backend terms and assert it.
fn assert_constraint(s: &z3::Solver, vars: &Vec<z3::ast::Bool>, c: &Constraint)
    requires
        c@.in_range(vars@.len() as int),
        (c@ matches ConstraintModel::ExactlyK { k, .. } ==> k < 0x8000_0000),
{
    match c {
        Constraint::ExactlyK { vars: idxs, k } => {
            proof {
                lemma_vars_fit(c@.vars(), idxs@, vars@.len() as int);
            }
            let t = z3_pb_eq(vars, idxs, *k);
            z3_assert(s, &t);
        },
        Constraint::ZeroOrTwo { vars: idxs } => {
            proof {
                lemma_vars_fit(c@.vars(), idxs@, vars@.len() as int);
            }
            let zero = z3_pb_eq(vars, idxs, 0);
            let two = z3_pb_eq(vars, idxs, 2);
            let t = z3_or2(&zero, &two);
            z3_assert(s, &t);
        },
        Constraint::NotAll { vars: idxs } => {
            proof {
                lemma_vars_fit(c@.vars(), idxs@, vars@.len() as int);
            }
            let conj = z3_and_all(vars, idxs);
            let t = z3_not(&conj);
            z3_assert(s, &t);
        },
    }
}

/// Read every edge variable's value out of a backend model.
fn eval_model(vars: &Vec<z3::ast::Bool>, mo: &z3::Model) -> (r: Option<Vec<bool>>)
    ensures
        (r matches Some(m) ==> m@.len() == vars@.len()),
{
    let mut m: Vec<bool> = Vec::new();
    let mut i: usize = 0;
    while i < vars.len()
        invariant
            i <= vars@.len(),
            m@.len() == i,
        decreases vars@.len() - i,
    {
        match z3_eval(mo, &vars[i]) {
            Some(b) => m.push(b),
            None => {
                return None;
            },
        }
        i += 1;
    }
    Some(m)
}

/// Every clue-degree constraint carries a target of at most 4.
pub open spec fn ks_bounded(cs: Seq<ConstraintModel>) -> bool {
    forall|j: int|
        0 <= j < cs.len() ==> ((#[trigger] cs[j]) matches ConstraintModel::ExactlyK { k, .. }
            ==> k <= 4)
}

proof fn lemma_clue_part_ks(g: Grid, n: int)
    requires
        g.wf(),
        0 <= n <= g.width * g.height,
    ensures
        ks_bounded(clue_part(g, n)),
    decreases n,
{
    if n > 0 {
        lemma_clue_part_ks(g, n - 1);
        let prefix = clue_part(g, n - 1);
        let whole = clue_part(g, n);
        assert forall|j: int|
            0 <= j < whole.len() implies ((#[trigger] whole[j])
            matches ConstraintModel::ExactlyK { k, .. } ==> k <= 4) by {
            if j < prefix.len() {
                assert(whole[j] == prefix[j]);
            } else {
                assert(g.clues@[n - 1] matches Some(v) ==> v <= 4);
            }
        }
    }
}

proof fn lemma_parity_part_ks(g: Grid, n: int)
    requires
        g.wf(),
        0 <= n,
    ensures
        ks_bounded(parity_part(g, n)),
    decreases n,
{
    if n > 0 {
        lemma_parity_part_ks(g, n - 1);
        let prefix = parity_part(g, n - 1);
        let whole = parity_part(g, n);
        assert forall|j: int|
            0 <= j < whole.len() implies ((#[trigger] whole[j])
            matches ConstraintModel::ExactlyK { k, .. } ==> k <= 4) by {
            if j < prefix.len() {
                assert(whole[j] == prefix[j]);
            }
        }
    }
}

proof fn lemma_encoding_ks(g: Grid)
    requires
        g.wf(),
    ensures
        ks_bounded(encoding(g)),
{
    lemma_clue_part_ks(g, g.width * g.height);
    lemma_parity_part_ks(g, (g.width + 1) * (g.height + 1));
    let cp = clue_part(g, g.width * g.height);
    let pp = parity_part(g, (g.width + 1) * (g.height + 1));
    assert forall|j: int|
        0 <= j < encoding(g).len() implies ((#[trigger] encoding(g)[j])
        matches ConstraintModel::ExactlyK { k, .. } ==> k <= 4) by {
        if j < cp.len() {
            assert(encoding(g)[j] == cp[j]);
        } else {
            assert(encoding(g)[j] == pp[j - cp.len()]);
        }
    }
}

/// A model of a constraint list satisfies any prefix of it.
pub proof fn lemma_all_hold_prefix(pre: Seq<ConstraintModel>, full: Seq<ConstraintModel>, m: Seq<bool>)
    requires
        pre.is_prefix_of(full),
        all_hold(full, m),
    ensures
        all_hold(pre, m),
{
    assert forall|i: int| 0 <= i < pre.len() implies (#[trigger] pre[i]).holds(m) by {
        assert(pre =~= full.subrange(0, pre.len() as int));
        assert(pre[i] == full[i]);
    }
}

/// A finished solve: the final assignment and its single-cycle partition.
pub struct Solution {
    pub grid: Grid,
    /// One boolean per edge variable; true edges form the loop.
    pub assignment: Vec<bool>,
    /// The partition of the final assignment, a single cycle unless the
    /// model selects no edge at all.
    pub cycles: Vec<Vec<usize>>,
}

/// Encode the grid, hand the model to the backend, and refine until the
/// true edges form a single all-covering loop. The backend decides
/// satisfiability, so no outcome is promised; but any returned solution
/// satisfies the full base encoding and its true edges form exactly the
/// returned partition, whose minimal cycle covers every true edge.
pub fn solve(grid: Grid, max_iterations: usize) -> (r: Result<Solution, SolveError>)
    requires
        grid.wf(),
    ensures
        match r {
            Ok(sol) => {
                &&& sol.grid == grid
                &&& sol.assignment@.len() == grid.n_edges()
                &&& all_hold(encoding(grid), sol.assignment@)
                &&& extraction(grid, sol.assignment@) == Some(cycle_views(sol.cycles@))
                &&& exact_partition(grid, sol.assignment@, cycle_views(sol.cycles@))
                &&& (cycle_views(sol.cycles@).len() == 0 ==> num_true(
                    sol.assignment@,
                    sol.assignment@.len() as int,
                ) == 0)
                &&& (cycle_views(sol.cycles@).len() > 0 ==> exists|i: int|
                    #[trigger] is_first_min(cycle_views(sol.cycles@), i) && cycle_views(
                        sol.cycles@,
                    )[i].len() == num_true(sol.assignment@, sol.assignment@.len() as int))
                &&& cycle_views(sol.cycles@).len() <= 1
            },
            Err(e) => !(e is MalformedInput),
        },
{
    let solver = z3_new_solver();
    let vars = make_edge_vars(&grid);
    let mut state = Refinement::new(grid, max_iterations);
    proof {
        lemma_encoding_ks(grid);
    }
    let mut i: usize = 0;
    while i < state.constraints.len()
        invariant
            state.wf(),
            i <= state.constraints@.len(),
            views(state.constraints@) == encoding(grid),
            state.grid == grid,
            vars@.len() == grid.n_edges(),
            ks_bounded(views(state.constraints@)),
        decreases state.constraints@.len() - i,
    {
        proof {
            assert(views(state.constraints@)[i as int] == state.constraints@[i as int]@);
        }
        assert_constraint(&solver, &vars, &state.constraints[i]);
        i += 1;
    }
    match verdict_check(z3_check(&solver)) {
        Err(e) => {
            return Err(e);
        },
        Ok(()) => {},
    }
    loop
        invariant
            state.wf(),
            state.grid == grid,
            state.max_iterations == max_iterations,
            state.iterations <= max_iterations,
            vars@.len() == grid.n_edges(),
        decreases max_iterations - state.iterations,
    {
        let mo = match z3_model(&solver) {
            Some(mo) => mo,
            None => {
                return Err(SolveError::InvalidModel);
            },
        };
        let m = match eval_model(&vars, &mo) {
            Some(m) => m,
            None => {
                return Err(SolveError::InvalidModel);
            },
        };
        match state.on_model(&m) {
            Err(e) => {
                return Err(e);
            },
            Ok(Outcome::Solved { cycles }) => {
                proof {
                    lemma_all_hold_prefix(
                        encoding(grid),
                        views(state.constraints@),
                        m@,
                    );
                }
                return Ok(Solution { grid: state.grid, assignment: m, cycles });
            },
            Ok(Outcome::Refined) => {
                let last = state.constraints.len() - 1;
                proof {
                    let j = last as int;
                    assert(views(state.constraints@)[j] == state.constraints@[j]@);
                    assert(state.constraints@[j]@ matches ConstraintModel::NotAll { .. });
                }
                assert_constraint(&solver, &vars, &state.constraints[last]);
                match verdict_check(z3_check(&solver)) {
                    Err(e) => {
                        return Err(e);
                    },
                    Ok(()) => {},
                }
            },
        }
    }
}

} // verus!
