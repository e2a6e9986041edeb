use vstd::prelude::*;

use crate::grid::Grid;
use crate::grid::SolveError;
use crate::encode::Constraint;
use crate::encode::ConstraintModel;
use crate::encode::all_hold;
use crate::encode::all_hold_exec;
use crate::encode::all_in_range;
use crate::encode::count_true;
use crate::encode::encode;
use crate::encode::encoding;
use crate::encode::ids;
use crate::encode::lemma_encoding_in_range;
use crate::encode::views;
use crate::extract::cycle_views;
use crate::extract::count_assignment;
use crate::extract::exact_partition;
use crate::extract::extract_cycles;
use crate::extract::extraction;
use crate::extract::is_first_min;
use crate::extract::lemma_num_true_zero;
use crate::extract::lemma_single_cycle;
use crate::extract::num_true;
use crate::extract::shortest_cycle_index;

verus! {

/// The three verdicts the satisfiability backend can give.
#[derive(Clone, Copy, PartialEq, Eq, Structural, Debug)]
pub enum Verdict {
    Sat,
    Unsat,
    Unknown,
}

/// Map a backend verdict to the error taxonomy: `Unsat` and `Unknown` are
/// fatal and never retried; only `Sat` lets the search continue.
pub fn verdict_check(v: Verdict) -> (r: Result<(), SolveError>)
    ensures
        r is Ok <==> v is Sat,
        v is Unsat ==> r == Err::<(), SolveError>(SolveError::Unsatisfiable),
        v is Unknown ==> r == Err::<(), SolveError>(SolveError::Indeterminate),
{
    match v {
        Verdict::Sat => Ok(()),
        Verdict::Unsat => Err(SolveError::Unsatisfiable),
        Verdict::Unknown => Err(SolveError::Indeterminate),
    }
}

/// If every listed variable is true, the count equals the list's length.
pub proof fn lemma_count_true_all(m: Seq<bool>, vars: Seq<int>)
    requires
        forall|k: int| 0 <= k < vars.len() ==> m[#[trigger] vars[k]],
    ensures
        count_true(m, vars) == vars.len(),
    decreases vars.len(),
{
    if vars.len() > 0 {
        lemma_count_true_all(m, vars.drop_last());
    }
}

/// A blocking constraint built from a cycle whose edges are all true in the
/// current model differs from every constraint that model satisfies: the
/// refinement loop never re-asserts an identical blocking constraint.
pub proof fn lemma_blocking_fresh(c: ConstraintModel, cy: Seq<int>, m: Seq<bool>)
    requires
        c.holds(m),
        forall|k: int| 0 <= k < cy.len() ==> m[#[trigger] cy[k]],
    ensures
        c != (ConstraintModel::NotAll { vars: cy }),
{
    if c == (ConstraintModel::NotAll { vars: cy }) {
        lemma_count_true_all(m, cy);
    }
}

fn copy_edges(v: &Vec<usize>) -> (r: Vec<usize>)
    ensures
        r@ == v@,
{
    let mut r: Vec<usize> = Vec::new();
    let mut i: usize = 0;
    while i < v.len()
        invariant
            i <= v@.len(),
            r@ =~= v@.take(i as int),
        decreases v@.len() - i,
    {
        r.push(v[i]);
        i += 1;
    }
    proof {
        assert(v@.take(v@.len() as int) =~= v@);
    }
    r
}

/// What one refinement round decided.
pub enum Outcome {
    /// The model's true edges form a single all-covering cycle (or the model
    /// is empty); the search is complete and these are its cycles.
    Solved { cycles: Vec<Vec<usize>> },
    /// The model was spurious; a fresh blocking constraint was appended and
    /// the backend must be asked again.
    Refined,
}

/// The cutting-plane search state: the grid, every constraint asserted so
/// far (append-only), and the iteration budget.
pub struct Refinement {
    pub grid: Grid,
    /// All asserted constraints: the base encoding, then one blocking
    /// constraint per completed refinement round. Never shrinks.
    pub constraints: Vec<Constraint>,
    /// Completed refinement rounds.
    pub iterations: usize,
    /// Caller-imposed bound on refinement rounds; exceeding it is reported
    /// as `Inconclusive`, distinct from the fatal failures.
    pub max_iterations: usize,
}

impl Refinement {
    pub open spec fn wf(self) -> bool {
        &&& self.grid.wf()
        &&& all_in_range(views(self.constraints@), self.grid.n_edges())
        &&& encoding(self.grid).is_prefix_of(views(self.constraints@))
    }

    /// Start a search: the constraint set is exactly the base encoding.
    pub fn new(grid: Grid, max_iterations: usize) -> (s: Refinement)
        requires
            grid.wf(),
        ensures
            s.wf(),
            s.grid == grid,
            views(s.constraints@) == encoding(grid),
            s.iterations == 0,
            s.max_iterations == max_iterations,
    {
        let constraints = encode(&grid);
        proof {
            lemma_encoding_in_range(grid);
            assert(views(constraints@).take(encoding(grid).len() as int) =~= encoding(grid));
        }
        Refinement { grid, constraints, iterations: 0, max_iterations }
    }

    /// Digest one model from the backend: accept it when its true edges form
    /// one cycle covering them all, otherwise block the first minimal cycle
    /// and grow the constraint set by exactly that one fresh constraint.
    pub fn on_model(&mut self, m: &Vec<bool>) -> (r: Result<Outcome, SolveError>)
        requires
            old(self).wf(),
            m@.len() == old(self).grid.n_edges(),
        ensures
            final(self).grid == old(self).grid,
            final(self).max_iterations == old(self).max_iterations,
            final(self).wf(),
            match r {
                Ok(o) => match o {
                    Outcome::Solved { cycles } => {
                        &&& *final(self) == *old(self)
                        &&& all_hold(views(final(self).constraints@), m@)
                        &&& extraction(final(self).grid, m@) == Some(cycle_views(cycles@))
                        &&& exact_partition(final(self).grid, m@, cycle_views(cycles@))
                        &&& (cycle_views(cycles@).len() == 0 ==> num_true(m@, m@.len() as int)
                            == 0)
                        &&& (cycle_views(cycles@).len() > 0 ==> exists|i: int|
                            #[trigger] is_first_min(cycle_views(cycles@), i) && cycle_views(
                                cycles@,
                            )[i].len() == num_true(m@, m@.len() as int))
                        &&& cycle_views(cycles@).len() <= 1
                    },
                    Outcome::Refined => {
                        &&& old(self).iterations < old(self).max_iterations
                        &&& all_hold(views(old(self).constraints@), m@)
                        &&& extraction(final(self).grid, m@) is Some
                        &&& final(self).iterations == old(self).iterations + 1
                        &&& final(self).constraints@.len() == old(self).constraints@.len() + 1
                        &&& exists|i: int|
                            {
                                &&& #[trigger] is_first_min(
                                    extraction(final(self).grid, m@)->Some_0,
                                    i,
                                )
                                &&& extraction(final(self).grid, m@)->Some_0[i].len() != num_true(
                                    m@,
                                    m@.len() as int,
                                )
                                &&& views(final(self).constraints@) == views(
                                    old(self).constraints@,
                                ).push(
                                    (ConstraintModel::NotAll {
                                        vars: extraction(final(self).grid, m@)->Some_0[i],
                                    }),
                                )
                                &&& forall|j: int|
                                    0 <= j < views(old(self).constraints@).len() ==> views(
                                        old(self).constraints@,
                                    )[j] != (ConstraintModel::NotAll {
                                        vars: extraction(final(self).grid, m@)->Some_0[i],
                                    })
                            }
                    },
                },
                Err(e) => {
                    &&& *final(self) == *old(self)
                    &&& (e is Inconclusive ==> old(self).iterations >= old(self).max_iterations
                        && all_hold(views(final(self).constraints@), m@) && extraction(
                        final(self).grid,
                        m@,
                    ) is Some)
                    &&& (e is InvalidModel ==> (!all_hold(views(final(self).constraints@), m@)
                        || extraction(final(self).grid, m@) is None))
                    &&& (e is Inconclusive || e is InvalidModel)
                },
            },
    {
        let ok = all_hold_exec(&self.constraints, m);
        if !ok {
            return Err(SolveError::InvalidModel);
        }
        let cycles = match extract_cycles(&self.grid, m) {
            Ok(c) => c,
            Err(e) => {
                return Err(e);
            },
        };
        let total = count_assignment(m);
        if cycles.len() == 0 {
            proof {
                assert forall|e: int| 0 <= e < m@.len() implies !m@[e] by {
                    if m@[e] {
                        let (i, k) = choose|i: int, k: int|
                            0 <= i < cycle_views(cycles@).len() && 0 <= k < cycle_views(
                                cycles@,
                            )[i].len() && cycle_views(cycles@)[i][k] == e;
                        assert(false);
                    }
                }
                lemma_num_true_zero(m@, m@.len() as int);
            }
            return Ok(Outcome::Solved { cycles });
        }
        let best = shortest_cycle_index(&cycles);
        let min_len = cycles[best].len();
        if min_len == total {
            proof {
                let cys = cycle_views(cycles@);
                assert(is_first_min(cys, best as int));
                assert(cys[best as int].len() == ids(cycles@[best as int]@).len());
                assert forall|j: int| 0 <= j < cys.len() implies (#[trigger] cys[j]).len()
                    >= 1 by {
                    assert(cys[j] == ids(cycles@[j]@));
                    assert(cycles@[j]@.len() >= 1);
                }
                lemma_single_cycle(self.grid, m@, cys, best as int);
            }
            return Ok(Outcome::Solved { cycles });
        }
        if self.iterations >= self.max_iterations {
            return Err(SolveError::Inconclusive);
        }
        let blocked = copy_edges(&cycles[best]);
        let ghost oldv = views(self.constraints@);
        let ghost cys = cycle_views(cycles@);
        let ghost cyv = cys[best as int];
        proof {
            assert(cyv == ids(blocked@));
            assert(cys[best as int].len() == ids(cycles@[best as int]@).len());
            assert forall|k: int| 0 <= k < cyv.len() implies m@[#[trigger] cyv[k]] by {
                assert(exact_partition(self.grid, m@, cys));
            }
            assert forall|j: int| 0 <= j < oldv.len() implies oldv[j] != (ConstraintModel::NotAll {
                vars: cyv,
            }) by {
                assert(oldv[j].holds(m@));
                lemma_blocking_fresh(oldv[j], cyv, m@);
            }
        }
        self.constraints.push(Constraint::NotAll { vars: blocked });
        self.iterations = self.iterations + 1;
        proof {
            assert(views(self.constraints@) =~= oldv.push(
                (ConstraintModel::NotAll { vars: cyv }),
            ));
            assert(views(self.constraints@).take(encoding(self.grid).len() as int)
                =~= oldv.take(encoding(self.grid).len() as int));
            let cys2 = extraction(self.grid, m@)->Some_0;
            assert(cys2 == cys);
            assert(is_first_min(cys2, best as int));
            assert(cys2[best as int].len() != num_true(m@, m@.len() as int));
            assert(views(self.constraints@) == oldv.push(
                (ConstraintModel::NotAll { vars: cys2[best as int] }),
            ));
        }
        Ok(Outcome::Refined)
    }
}

} // verus!
