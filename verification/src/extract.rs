use vstd::prelude::*;

use crate::grid::Grid;
use crate::grid::SolveError;
use crate::grid::lemma_dims_small;
use crate::encode::count_true;
use crate::encode::ids;

verus! {

/// Travel direction of the cycle walker, named after the side of a cell the
/// walker is tracing: `Top` moves east along a horizontal edge, `Right`
/// moves south, `Bottom` moves west, `Left` moves north.
#[derive(Clone, Copy, PartialEq, Eq, Structural, Debug)]
pub enum Direction {
    Top,
    Right,
    Bottom,
    Left,
}

/// One committed move of the walker: the new vertex, the new direction and
/// the edge variable just traversed.
pub type Move = (int, int, Direction, int);

/// Take the edge going north from vertex `(vr, vc)` if it exists and is true.
pub open spec fn go_north(g: Grid, m: Seq<bool>, vr: int, vc: int) -> Option<Move> {
    if vr > 0 && m[g.left_id(vr - 1, vc)] {
        Some((vr - 1, vc, Direction::Left, g.left_id(vr - 1, vc)))
    } else {
        None
    }
}

/// Take the edge going south from vertex `(vr, vc)` if it exists and is true.
pub open spec fn go_south(g: Grid, m: Seq<bool>, vr: int, vc: int) -> Option<Move> {
    if vr < g.height && m[g.left_id(vr, vc)] {
        Some((vr + 1, vc, Direction::Right, g.left_id(vr, vc)))
    } else {
        None
    }
}

/// Take the edge going east from vertex `(vr, vc)` if it exists and is true.
pub open spec fn go_east(g: Grid, m: Seq<bool>, vr: int, vc: int) -> Option<Move> {
    if vc < g.width && m[g.top_id(vr, vc)] {
        Some((vr, vc + 1, Direction::Top, g.top_id(vr, vc)))
    } else {
        None
    }
}

/// Take the edge going west from vertex `(vr, vc)` if it exists and is true.
pub open spec fn go_west(g: Grid, m: Seq<bool>, vr: int, vc: int) -> Option<Move> {
    if vc > 0 && m[g.top_id(vr, vc - 1)] {
        Some((vr, vc - 1, Direction::Bottom, g.top_id(vr, vc - 1)))
    } else {
        None
    }
}

pub open spec fn first_of(a: Option<Move>, b: Option<Move>, c: Option<Move>) -> Option<Move> {
    if a is Some {
        a
    } else if b is Some {
        b
    } else {
        c
    }
}

/// The walker's fixed priority order: from each direction it prefers the
/// interior-consistent turn, then going straight, then the other turn. The
/// edge it arrived on is never among the three candidates, so at a vertex of
/// true degree two the next edge is uniquely determined.
pub open spec fn step_spec(g: Grid, m: Seq<bool>, vr: int, vc: int, dir: Direction) -> Option<
    Move,
> {
    match dir {
        Direction::Top => first_of(
            go_north(g, m, vr, vc),
            go_east(g, m, vr, vc),
            go_south(g, m, vr, vc),
        ),
        Direction::Right => first_of(
            go_east(g, m, vr, vc),
            go_south(g, m, vr, vc),
            go_west(g, m, vr, vc),
        ),
        Direction::Bottom => first_of(
            go_south(g, m, vr, vc),
            go_west(g, m, vr, vc),
            go_north(g, m, vr, vc),
        ),
        Direction::Left => first_of(
            go_west(g, m, vr, vc),
            go_north(g, m, vr, vc),
            go_east(g, m, vr, vc),
        ),
    }
}

/// What the executable step promises: it returns exactly the move of
/// `step_spec`, whose edge is a true edge variable and whose vertex stays on
/// the grid.
pub open spec fn step_matches(
    g: Grid,
    m: Seq<bool>,
    vr: int,
    vc: int,
    dir: Direction,
    r: Option<(usize, usize, Direction, usize)>,
) -> bool {
    match r {
        Some((nvr, nvc, nd, e)) => {
            &&& step_spec(g, m, vr, vc, dir) == Some((nvr as int, nvc as int, nd, e as int))
            &&& nvr <= g.height
            &&& nvc <= g.width
            &&& e < g.n_edges()
            &&& m[e as int]
        },
        None => step_spec(g, m, vr, vc, dir) is None,
    }
}

fn north_exec(g: &Grid, m: &Vec<bool>, vr: usize, vc: usize) -> (r: Option<
    (usize, usize, Direction, usize),
>)
    requires
        g.wf(),
        m@.len() == g.n_edges(),
        vr <= g.height,
        vc <= g.width,
    ensures
        match r {
            Some((nvr, nvc, nd, e)) => {
                &&& go_north(*g, m@, vr as int, vc as int) == Some(
                    (nvr as int, nvc as int, nd, e as int),
                )
                &&& nvr <= g.height
                &&& nvc <= g.width
                &&& e < g.n_edges()
                &&& m@[e as int]
            },
            None => go_north(*g, m@, vr as int, vc as int) is None,
        },
{
    if vr > 0 {
        let e = g.left_index(vr - 1, vc);
        if m[e] {
            return Some((vr - 1, vc, Direction::Left, e));
        }
    }
    None
}

fn south_exec(g: &Grid, m: &Vec<bool>, vr: usize, vc: usize) -> (r: Option<
    (usize, usize, Direction, usize),
>)
    requires
        g.wf(),
        m@.len() == g.n_edges(),
        vr <= g.height,
        vc <= g.width,
    ensures
        match r {
            Some((nvr, nvc, nd, e)) => {
                &&& go_south(*g, m@, vr as int, vc as int) == Some(
                    (nvr as int, nvc as int, nd, e as int),
                )
                &&& nvr <= g.height
                &&& nvc <= g.width
                &&& e < g.n_edges()
                &&& m@[e as int]
            },
            None => go_south(*g, m@, vr as int, vc as int) is None,
        },
{
    if vr < g.height {
        let e = g.left_index(vr, vc);
        if m[e] {
            return Some((vr + 1, vc, Direction::Right, e));
        }
    }
    None
}

fn east_exec(g: &Grid, m: &Vec<bool>, vr: usize, vc: usize) -> (r: Option<
    (usize, usize, Direction, usize),
>)
    requires
        g.wf(),
        m@.len() == g.n_edges(),
        vr <= g.height,
        vc <= g.width,
    ensures
        match r {
            Some((nvr, nvc, nd, e)) => {
                &&& go_east(*g, m@, vr as int, vc as int) == Some(
                    (nvr as int, nvc as int, nd, e as int),
                )
                &&& nvr <= g.height
                &&& nvc <= g.width
                &&& e < g.n_edges()
                &&& m@[e as int]
            },
            None => go_east(*g, m@, vr as int, vc as int) is None,
        },
{
    if vc < g.width {
        let e = g.top_index(vr, vc);
        proof {
            lemma_dims_small(g.width as int, g.height as int);
        }
        if m[e] {
            return Some((vr, vc + 1, Direction::Top, e));
        }
    }
    None
}

fn west_exec(g: &Grid, m: &Vec<bool>, vr: usize, vc: usize) -> (r: Option<
    (usize, usize, Direction, usize),
>)
    requires
        g.wf(),
        m@.len() == g.n_edges(),
        vr <= g.height,
        vc <= g.width,
    ensures
        match r {
            Some((nvr, nvc, nd, e)) => {
                &&& go_west(*g, m@, vr as int, vc as int) == Some(
                    (nvr as int, nvc as int, nd, e as int),
                )
                &&& nvr <= g.height
                &&& nvc <= g.width
                &&& e < g.n_edges()
                &&& m@[e as int]
            },
            None => go_west(*g, m@, vr as int, vc as int) is None,
        },
{
    if vc > 0 {
        let e = g.top_index(vr, vc - 1);
        proof {
            lemma_dims_small(g.width as int, g.height as int);
        }
        if m[e] {
            return Some((vr, vc - 1, Direction::Bottom, e));
        }
    }
    None
}

/// Executable counterpart of `step_spec`.
fn step(g: &Grid, m: &Vec<bool>, vr: usize, vc: usize, dir: Direction) -> (r: Option<
    (usize, usize, Direction, usize),
>)
    requires
        g.wf(),
        m@.len() == g.n_edges(),
        vr <= g.height,
        vc <= g.width,
    ensures
        step_matches(*g, m@, vr as int, vc as int, dir, r),
{
    match dir {
        Direction::Top => {
            if let Some(x) = north_exec(g, m, vr, vc) {
                Some(x)
            } else if let Some(x) = east_exec(g, m, vr, vc) {
                Some(x)
            } else {
                south_exec(g, m, vr, vc)
            }
        },
        Direction::Right => {
            if let Some(x) = east_exec(g, m, vr, vc) {
                Some(x)
            } else if let Some(x) = south_exec(g, m, vr, vc) {
                Some(x)
            } else {
                west_exec(g, m, vr, vc)
            }
        },
        Direction::Bottom => {
            if let Some(x) = south_exec(g, m, vr, vc) {
                Some(x)
            } else if let Some(x) = west_exec(g, m, vr, vc) {
                Some(x)
            } else {
                north_exec(g, m, vr, vc)
            }
        },
        Direction::Left => {
            if let Some(x) = west_exec(g, m, vr, vc) {
                Some(x)
            } else if let Some(x) = north_exec(g, m, vr, vc) {
                Some(x)
            } else {
                east_exec(g, m, vr, vc)
            }
        },
    }
}

/// The deterministic walk: starting in state `(vr, vc, dir)` with the edges
/// `acc` already collected, follow `step_spec` until the walk re-offers the
/// starting edge, and return the collected cycle. `None` when the walk dead
/// ends or fails to close within `fuel` steps, which cannot happen on an
/// assignment satisfying the vertex-parity invariant.
pub open spec fn walk_from(
    g: Grid,
    m: Seq<bool>,
    vr: int,
    vc: int,
    dir: Direction,
    start: int,
    acc: Seq<int>,
    fuel: nat,
) -> Option<Seq<int>>
    decreases fuel,
{
    if fuel == 0 {
        None
    } else {
        match step_spec(g, m, vr, vc, dir) {
            None => None,
            Some(mv) => {
                if mv.3 == start {
                    Some(acc)
                } else {
                    walk_from(g, m, mv.0, mv.1, mv.2, start, acc.push(mv.3), (fuel - 1) as nat)
                }
            },
        }
    }
}

/// The cycle traced from the true horizontal edge with variable index `t`:
/// the walker starts at that edge's east vertex heading east.
pub open spec fn trace_spec(g: Grid, m: Seq<bool>, t: int) -> Option<Seq<int>> {
    walk_from(
        g,
        m,
        t / (g.width as int),
        t % (g.width as int) + 1,
        Direction::Top,
        t,
        seq![t],
        (g.n_edges() + 1) as nat,
    )
}

/// Trace the cycle through the true horizontal edge `(r, c)`. Returns exactly
/// what `trace_spec` names; every collected edge is true and in range.
fn trace_exec(g: &Grid, m: &Vec<bool>, r: usize, c: usize) -> (res: Option<Vec<usize>>)
    requires
        g.wf(),
        m@.len() == g.n_edges(),
        r <= g.height,
        c < g.width,
        m@[g.top_id(r as int, c as int)],
    ensures
        match res {
            Some(v) => {
                &&& trace_spec(*g, m@, g.top_id(r as int, c as int)) == Some(ids(v@))
                &&& v@.len() >= 1
                &&& v@[0] == g.top_id(r as int, c as int)
                &&& forall|k: int| 0 <= k < v@.len() ==> #[trigger] v@[k] < g.n_edges()
                &&& forall|k: int| 0 <= k < v@.len() ==> m@[#[trigger] v@[k] as int]
            },
            None => trace_spec(*g, m@, g.top_id(r as int, c as int)) is None,
        },
{
    let start = g.top_index(r, c);
    proof {
        lemma_dims_small(g.width as int, g.height as int);
        crate::encode::lemma_row_major_split_inverse(r as int, c as int, g.width as int);
    }
    let mut chain: Vec<usize> = Vec::new();
    chain.push(start);
    let mut vr: usize = r;
    let mut vc: usize = c + 1;
    let mut dir = Direction::Top;
    let mut fuel: usize = g.edge_count() + 1;
    let ghost fuel0 = fuel as nat;
    proof {
        assert(ids(chain@) =~= seq![start as int]);
    }
    while fuel > 0
        invariant
            g.wf(),
            m@.len() == g.n_edges(),
            vr <= g.height,
            vc <= g.width,
            start == g.top_id(r as int, c as int),
            start < g.n_edges(),
            chain@.len() >= 1,
            chain@[0] == start,
            forall|k: int| 0 <= k < chain@.len() ==> #[trigger] chain@[k] < g.n_edges(),
            forall|k: int| 0 <= k < chain@.len() ==> m@[#[trigger] chain@[k] as int],
            trace_spec(*g, m@, start as int) == walk_from(
                *g,
                m@,
                vr as int,
                vc as int,
                dir,
                start as int,
                ids(chain@),
                fuel as nat,
            ),
        decreases fuel,
    {
        match step(g, m, vr, vc, dir) {
            None => {
                return None;
            },
            Some((nvr, nvc, nd, e)) => {
                if e == start {
                    return Some(chain);
                }
                let ghost old_chain = chain@;
                chain.push(e);
                proof {
                    assert(ids(chain@) =~= ids(old_chain).push(e as int));
                }
                vr = nvr;
                vc = nvc;
                dir = nd;
                fuel = fuel - 1;
            },
        }
    }
    None
}

/// The edge the walker arrived on: the one incident edge of its current
/// vertex that its priority order never offers.
pub open spec fn arrival_edge(g: Grid, vr: int, vc: int, dir: Direction) -> int {
    match dir {
        Direction::Top => g.top_id(vr, vc - 1),
        Direction::Right => g.left_id(vr - 1, vc),
        Direction::Bottom => g.top_id(vr, vc),
        Direction::Left => g.left_id(vr, vc),
    }
}

/// Whether the walker's arrival edge lies on the grid.
pub open spec fn arrival_exists(g: Grid, vr: int, vc: int, dir: Direction) -> bool {
    match dir {
        Direction::Top => vc > 0,
        Direction::Right => vr > 0,
        Direction::Bottom => vc < g.width,
        Direction::Left => vr < g.height,
    }
}

/// The vertex-parity invariant: every vertex touches zero or two true edges.
pub open spec fn parity_ok(g: Grid, m: Seq<bool>) -> bool {
    forall|r: int, c: int|
        0 <= r <= g.height && 0 <= c <= g.width ==> count_true(
            m,
            #[trigger] g.vertex_edge_vars(r, c),
        ) == 0 || count_true(m, g.vertex_edge_vars(r, c)) == 2
}

proof fn lemma_count_true_concat(m: Seq<bool>, a: Seq<int>, b: Seq<int>)
    ensures
        count_true(m, a + b) == count_true(m, a) + count_true(m, b),
    decreases b.len(),
{
    if b.len() == 0 {
        assert(a + b =~= a);
    } else {
        lemma_count_true_concat(m, a, b.drop_last());
        assert((a + b).drop_last() =~= a + b.drop_last());
        assert((a + b).last() == b.last());
    }
}

proof fn lemma_count_singleton(m: Seq<bool>, e: int)
    ensures
        count_true(m, seq![e]) == if m[e] {
            1 as int
        } else {
            0 as int
        },
{
    let s = seq![e];
    assert(s.len() == 1);
    assert(s.drop_last() =~= Seq::<int>::empty());
    assert(count_true(m, Seq::<int>::empty()) == 0);
    assert(s.last() == e);
    assert(count_true(m, s) == count_true(m, s.drop_last()) + if m[e] {
        1 as int
    } else {
        0 as int
    });
}

/// Under the vertex-parity invariant the walker is never stuck: whenever the
/// edge it arrived on is drawn, one of the three edges it offers next is
/// drawn too. This is the local progress half of the extractor's
/// completeness; that the walk also closes back on its starting edge is not
/// proved here.
pub proof fn lemma_step_progress(g: Grid, m: Seq<bool>, vr: int, vc: int, dir: Direction)
    requires
        g.wf(),
        m.len() == g.n_edges(),
        0 <= vr <= g.height,
        0 <= vc <= g.width,
        arrival_exists(g, vr, vc, dir),
        m[arrival_edge(g, vr, vc, dir)],
        parity_ok(g, m),
    ensures
        step_spec(g, m, vr, vc, dir) is Some,
{
    let s_s = if vr < g.height {
        seq![g.left_id(vr, vc)]
    } else {
        Seq::<int>::empty()
    };
    let s_n = if vr > 0 {
        seq![g.left_id(vr - 1, vc)]
    } else {
        Seq::<int>::empty()
    };
    let s_e = if vc < g.width {
        seq![g.top_id(vr, vc)]
    } else {
        Seq::<int>::empty()
    };
    let s_w = if vc > 0 {
        seq![g.top_id(vr, vc - 1)]
    } else {
        Seq::<int>::empty()
    };
    assert(g.vertex_edge_vars(vr, vc) == ((s_s + s_n) + s_e) + s_w);
    lemma_count_true_concat(m, s_s, s_n);
    lemma_count_true_concat(m, s_s + s_n, s_e);
    lemma_count_true_concat(m, (s_s + s_n) + s_e, s_w);
    if vr < g.height {
        lemma_count_singleton(m, g.left_id(vr, vc));
    }
    if vr > 0 {
        lemma_count_singleton(m, g.left_id(vr - 1, vc));
    }
    if vc < g.width {
        lemma_count_singleton(m, g.top_id(vr, vc));
    }
    if vc > 0 {
        lemma_count_singleton(m, g.top_id(vr, vc - 1));
    }
    assert(count_true(m, Seq::<int>::empty()) == 0);
    let total = count_true(m, g.vertex_edge_vars(vr, vc));
    assert(total == 0 || total == 2);
    if step_spec(g, m, vr, vc, dir) is None {
        match dir {
            Direction::Top => {
                assert(go_north(g, m, vr, vc) is None);
                assert(go_east(g, m, vr, vc) is None);
                assert(go_south(g, m, vr, vc) is None);
                assert(total == 1);
            },
            Direction::Right => {
                assert(go_east(g, m, vr, vc) is None);
                assert(go_south(g, m, vr, vc) is None);
                assert(go_west(g, m, vr, vc) is None);
                assert(total == 1);
            },
            Direction::Bottom => {
                assert(go_south(g, m, vr, vc) is None);
                assert(go_west(g, m, vr, vc) is None);
                assert(go_north(g, m, vr, vc) is None);
                assert(total == 1);
            },
            Direction::Left => {
                assert(go_west(g, m, vr, vc) is None);
                assert(go_north(g, m, vr, vc) is None);
                assert(go_east(g, m, vr, vc) is None);
                assert(total == 1);
            },
        }
    }
}

/// Mark the edges of one discovered cycle as covered, failing on any edge
/// already covered or out of range.
pub open spec fn mark_cycle(visited: Seq<bool>, cycle: Seq<int>, k: int) -> Option<Seq<bool>>
    decreases cycle.len() - k,
{
    if !(0 <= k < cycle.len()) {
        Some(visited)
    } else if !(0 <= cycle[k] < visited.len()) || visited[cycle[k]] {
        None
    } else {
        mark_cycle(visited.update(cycle[k], true), cycle, k + 1)
    }
}

/// Walk every horizontal edge index in order, tracing a new cycle from each
/// true one not yet covered by an earlier cycle.
pub open spec fn extract_loop(
    g: Grid,
    m: Seq<bool>,
    t: int,
    visited: Seq<bool>,
    cycles: Seq<Seq<int>>,
) -> Option<(Seq<Seq<int>>, Seq<bool>)>
    decreases g.n_top() - t,
{
    if !(0 <= t < g.n_top()) {
        Some((cycles, visited))
    } else if m[t] && !visited[t] {
        match trace_spec(g, m, t) {
            None => None,
            Some(cy) => match mark_cycle(visited, cy, 0) {
                None => None,
                Some(v2) => extract_loop(g, m, t + 1, v2, cycles.push(cy)),
            },
        }
    } else {
        extract_loop(g, m, t + 1, visited, cycles)
    }
}

pub open spec fn init_visited(n: int) -> Seq<bool> {
    Seq::new(n as nat, |i: int| false)
}

pub open spec fn all_true_covered(m: Seq<bool>, visited: Seq<bool>) -> bool {
    forall|e: int| 0 <= e < m.len() && #[trigger] m[e] ==> visited[e]
}

/// The partition of an assignment's true edges into traced cycles. `None`
/// when the assignment violates the vertex-parity invariant badly enough for
/// tracing to dead end, duplicate an edge, or leave a true edge uncovered.
pub open spec fn extraction(g: Grid, m: Seq<bool>) -> Option<Seq<Seq<int>>> {
    match extract_loop(g, m, 0, init_visited(g.n_edges()), Seq::empty()) {
        None => None,
        Some(res) => if all_true_covered(m, res.1) {
            Some(res.0)
        } else {
            None
        },
    }
}

/// The views of a list of edge-index cycles.
pub open spec fn cycle_views(cys: Seq<Vec<usize>>) -> Seq<Seq<int>> {
    cys.map_values(|v: Vec<usize>| ids(v@))
}

/// The returned cycles use each true edge of the assignment exactly once:
/// every listed edge is a true edge, no edge appears twice, and every true
/// edge appears somewhere.
pub open spec fn exact_partition(g: Grid, m: Seq<bool>, cys: Seq<Seq<int>>) -> bool {
    &&& forall|i: int, k: int|
        0 <= i < cys.len() && 0 <= k < cys[i].len() ==> 0 <= #[trigger] cys[i][k] < g.n_edges()
            && m[cys[i][k]]
    &&& forall|i1: int, k1: int, i2: int, k2: int|
        0 <= i1 < cys.len() && 0 <= k1 < cys[i1].len() && 0 <= i2 < cys.len() && 0 <= k2
            < cys[i2].len() && (i1 != i2 || k1 != k2) ==> #[trigger] cys[i1][k1]
            != #[trigger] cys[i2][k2]
    &&& forall|e: int|
        0 <= e < g.n_edges() && #[trigger] m[e] ==> exists|i: int, k: int|
            0 <= i < cys.len() && 0 <= k < cys[i].len() && cys[i][k] == e
}

/// How many edges the first `n` entries of an assignment select.
pub open spec fn num_true(m: Seq<bool>, n: int) -> int
    decreases n,
{
    if n <= 0 {
        0
    } else {
        num_true(m, n - 1) + if m[n - 1] {
            1 as int
        } else {
            0 as int
        }
    }
}

pub proof fn lemma_num_true_zero(m: Seq<bool>, n: int)
    requires
        forall|e: int| 0 <= e < n ==> !m[e],
    ensures
        num_true(m, n) == 0,
    decreases n,
{
    if n > 0 {
        lemma_num_true_zero(m, n - 1);
    }
}

/// Count the true edges of a whole assignment.
pub fn count_assignment(m: &Vec<bool>) -> (n: usize)
    ensures
        n == num_true(m@, m@.len() as int),
{
    let mut n: usize = 0;
    let mut i: usize = 0;
    while i < m.len()
        invariant
            i <= m@.len(),
            n == num_true(m@, i as int),
            n <= i,
        decreases m@.len() - i,
    {
        if m[i] {
            n += 1;
        }
        i += 1;
    }
    n
}

/// The first cycle of minimal length: no cycle is shorter, and every earlier
/// cycle is strictly longer. This is the deterministic tie-break the
/// refinement loop uses.
pub open spec fn is_first_min(cys: Seq<Seq<int>>, i: int) -> bool {
    &&& 0 <= i < cys.len()
    &&& forall|j: int| 0 <= j < cys.len() ==> cys[i].len() <= #[trigger] cys[j].len()
    &&& forall|j: int| 0 <= j < i ==> #[trigger] cys[j].len() > cys[i].len()
}

/// Index of the first minimal-length cycle.
pub fn shortest_cycle_index(cycles: &Vec<Vec<usize>>) -> (i: usize)
    requires
        cycles@.len() >= 1,
    ensures
        i < cycles@.len(),
        is_first_min(cycle_views(cycles@), i as int),
{
    let mut best: usize = 0;
    let mut j: usize = 1;
    while j < cycles.len()
        invariant
            1 <= j <= cycles@.len(),
            best < j,
            forall|jj: int|
                0 <= jj < j ==> cycles@[best as int]@.len() <= (#[trigger] cycles@[jj]@).len(),
            forall|jj: int|
                0 <= jj < best ==> (#[trigger] cycles@[jj]@).len() > cycles@[best as int]@.len(),
        decreases cycles@.len() - j,
    {
        if cycles[j].len() < cycles[best].len() {
            best = j;
        }
        j += 1;
    }
    proof {
        let views = cycle_views(cycles@);
        assert forall|jj: int| 0 <= jj < views.len() implies views[best as int].len()
            <= #[trigger] views[jj].len() by {
            assert(views[jj] == ids(cycles@[jj]@));
            assert(views[best as int] == ids(cycles@[best as int]@));
        }
        assert forall|jj: int|
            0 <= jj < best implies (#[trigger] views[jj]).len() > views[best as int].len() by {
            assert(views[jj] == ids(cycles@[jj]@));
            assert(views[best as int] == ids(cycles@[best as int]@));
        }
    }
    best
}

/// The set of edges the first `n` entries of an assignment draw.
pub open spec fn true_set(m: Seq<bool>, n: int) -> Set<int> {
    Set::new(|e: int| 0 <= e < n && m[e])
}

proof fn lemma_num_true_is_cardinality(m: Seq<bool>, n: int)
    requires
        0 <= n,
    ensures
        true_set(m, n).finite(),
        true_set(m, n).len() == num_true(m, n),
    decreases n,
{
    if n == 0 {
        assert(true_set(m, 0) =~= Set::<int>::empty());
    } else {
        lemma_num_true_is_cardinality(m, n - 1);
        if m[n - 1] {
            assert(true_set(m, n) =~= true_set(m, n - 1).insert(n - 1));
            assert(!true_set(m, n - 1).contains(n - 1));
        } else {
            assert(true_set(m, n) =~= true_set(m, n - 1));
        }
    }
}

/// When the minimal cycle of an exact partition is as long as the whole
/// assignment's true-edge count, the partition holds exactly one cycle: an
/// accepted model's drawn edges form a single loop.
pub proof fn lemma_single_cycle(g: Grid, m: Seq<bool>, cys: Seq<Seq<int>>, i: int)
    requires
        m.len() == g.n_edges(),
        exact_partition(g, m, cys),
        forall|j: int| 0 <= j < cys.len() ==> (#[trigger] cys[j]).len() >= 1,
        is_first_min(cys, i),
        cys[i].len() == num_true(m, m.len() as int),
    ensures
        cys.len() == 1,
{
    broadcast use vstd::seq_lib::seq_to_set_is_finite;

    if cys.len() >= 2 {
        let j: int = if i == 0 {
            1
        } else {
            0
        };
        let ci = cys[i];
        let cj = cys[j];
        assert(ci.no_duplicates()) by {
            assert forall|p: int, q: int|
                0 <= p < ci.len() && 0 <= q < ci.len() && p != q implies ci[p] != ci[q] by {
                assert(cys[i][p] != cys[i][q]);
            }
        }
        assert(cj.no_duplicates()) by {
            assert forall|p: int, q: int|
                0 <= p < cj.len() && 0 <= q < cj.len() && p != q implies cj[p] != cj[q] by {
                assert(cys[j][p] != cys[j][q]);
            }
        }
        ci.unique_seq_to_set();
        cj.unique_seq_to_set();
        let a = ci.to_set();
        let b = cj.to_set();
        assert(a.disjoint(b)) by {
            assert forall|e: int| a.contains(e) implies !b.contains(e) by {
                if b.contains(e) {
                    let p = choose|p: int| 0 <= p < ci.len() && ci[p] == e;
                    let q = choose|q: int| 0 <= q < cj.len() && cj[q] == e;
                    assert(cys[i][p] != cys[j][q]);
                }
            }
        }
        vstd::set_lib::lemma_set_disjoint_lens(a, b);
        lemma_num_true_is_cardinality(m, m.len() as int);
        let t = true_set(m, m.len() as int);
        assert((a + b).subset_of(t)) by {
            assert forall|e: int| (a + b).contains(e) implies t.contains(e) by {
                if a.contains(e) {
                    let p = choose|p: int| 0 <= p < ci.len() && ci[p] == e;
                    assert(0 <= cys[i][p] < g.n_edges() && m[cys[i][p]]);
                } else {
                    let q = choose|q: int| 0 <= q < cj.len() && cj[q] == e;
                    assert(0 <= cys[j][q] < g.n_edges() && m[cys[j][q]]);
                }
            }
        }
        vstd::set_lib::lemma_len_subset(a + b, t);
        assert(a.len() + b.len() <= t.len());
        assert(b.len() >= 1);
        assert(false);
    }
}

/// The extractor is a function of the assignment alone: run twice on the
/// same fixed model it yields the same partition, hence the same minimal
/// cycle and minimal length.
pub proof fn lemma_extraction_deterministic(g: Grid, m1: Seq<bool>, m2: Seq<bool>)
    requires
        m1 == m2,
    ensures
        extraction(g, m1) == extraction(g, m2),
{
}

/// Bookkeeping tying the covered-edge markers to the cycles found so far.
spec fn book(g: Grid, m: Seq<bool>, cys: Seq<Seq<int>>, visited: Seq<bool>) -> bool {
    &&& visited.len() == g.n_edges()
    &&& forall|e: int| 0 <= e < visited.len() && #[trigger] visited[e] ==> m[e]
    &&& forall|i: int| 0 <= i < cys.len() ==> #[trigger] cys[i].len() >= 1
    &&& forall|i: int, k: int|
        0 <= i < cys.len() && 0 <= k < cys[i].len() ==> 0 <= #[trigger] cys[i][k] < g.n_edges()
    &&& forall|i: int, k: int|
        0 <= i < cys.len() && 0 <= k < cys[i].len() ==> visited[#[trigger] cys[i][k]]
    &&& forall|e: int|
        0 <= e < visited.len() && #[trigger] visited[e] ==> exists|i: int, k: int|
            0 <= i < cys.len() && 0 <= k < cys[i].len() && cys[i][k] == e
    &&& forall|i1: int, k1: int, i2: int, k2: int|
        0 <= i1 < cys.len() && 0 <= k1 < cys[i1].len() && 0 <= i2 < cys.len() && 0 <= k2
            < cys[i2].len() && (i1 != i2 || k1 != k2) ==> #[trigger] cys[i1][k1]
            != #[trigger] cys[i2][k2]
}

/// Decompose a satisfying assignment into disjoint simple cycles, exactly as
/// `extraction` names, or report that the assignment is inconsistent with the
/// parity invariant.
pub fn extract_cycles(g: &Grid, m: &Vec<bool>) -> (res: Result<Vec<Vec<usize>>, SolveError>)
    requires
        g.wf(),
        m@.len() == g.n_edges(),
    ensures
        match res {
            Ok(cys) => {
                &&& extraction(*g, m@) == Some(cycle_views(cys@))
                &&& exact_partition(*g, m@, cycle_views(cys@))
                &&& forall|i: int| 0 <= i < cys@.len() ==> #[trigger] cys@[i]@.len() >= 1
            },
            Err(e) => e is InvalidModel && extraction(*g, m@) is None,
        },
{
    let n = g.edge_count();
    let n_top = g.top_count();
    let w = g.width;
    let mut visited: Vec<bool> = Vec::new();
    while visited.len() < n
        invariant
            visited@ =~= init_visited(visited@.len() as int),
            visited@.len() <= n,
        decreases n - visited@.len(),
    {
        visited.push(false);
    }
    proof {
        assert(visited@ =~= init_visited(g.n_edges()));
    }
    let mut cycles: Vec<Vec<usize>> = Vec::new();
    proof {
        assert(cycle_views(cycles@) =~= Seq::<Seq<int>>::empty());
        lemma_dims_small(g.width as int, g.height as int);
    }
    let mut t: usize = 0;
    while t < n_top
        invariant
            g.wf(),
            m@.len() == g.n_edges(),
            n == g.n_edges(),
            n_top == g.n_top(),
            w == g.width,
            t <= n_top,
            g.n_top() <= g.n_edges(),
            extract_loop(*g, m@, 0, init_visited(g.n_edges()), Seq::empty()) == extract_loop(
                *g,
                m@,
                t as int,
                visited@,
                cycle_views(cycles@),
            ),
            book(*g, m@, cycle_views(cycles@), visited@),
        decreases n_top - t,
    {
        let r = t / w;
        let c = t % w;
        proof {
            crate::encode::lemma_mul_comm(g.height + 1, g.width as int);
            crate::encode::lemma_row_major_split(t as int, w as int, g.height + 1);
        }
        if m[t] && !visited[t] {
            let ghost visited0 = visited@;
            let ghost views0 = cycle_views(cycles@);
            match trace_exec(g, m, r, c) {
                None => {
                    return Err(SolveError::InvalidModel);
                },
                Some(chain) => {
                    let ghost cy = ids(chain@);
                    let mut k: usize = 0;
                    while k < chain.len()
                        invariant
                            g.wf(),
                            m@.len() == g.n_edges(),
                            n == g.n_edges(),
                            0 <= t < g.n_top(),
                            g.n_top() <= g.n_edges(),
                            m@[t as int],
                            !visited0[t as int],
                            cy == ids(chain@),
                            trace_spec(*g, m@, t as int) == Some(cy),
                            forall|j: int| 0 <= j < chain@.len() ==> #[trigger] chain@[j]
                                < g.n_edges(),
                            forall|j: int| 0 <= j < chain@.len() ==> m@[#[trigger] chain@[j] as int],
                            chain@.len() >= 1,
                            extract_loop(*g, m@, 0, init_visited(g.n_edges()), Seq::empty())
                                == extract_loop(*g, m@, t as int, visited0, views0),
                            book(*g, m@, views0, visited0),
                            k <= chain@.len(),
                            visited@.len() == g.n_edges(),
                            mark_cycle(visited0, cy, 0) == mark_cycle(visited@, cy, k as int),
                            forall|e: int|
                                0 <= e < visited@.len() ==> (#[trigger] visited@[e] <==> (
                                visited0[e] || exists|j: int|
                                    0 <= j < k && #[trigger] cy[j] == e)),
                            forall|j: int| 0 <= j < k ==> !visited0[#[trigger] cy[j]],
                            forall|j1: int, j2: int|
                                0 <= j1 < j2 < k ==> #[trigger] cy[j1] != #[trigger] cy[j2],
                        decreases chain@.len() - k,
                    {
                        let e = chain[k];
                        if visited[e] {
                            return Err(SolveError::InvalidModel);
                        }
                        visited[e] = true;
                        proof {
                            assert forall|x: int| 0 <= x < visited@.len() implies (
                            #[trigger] visited@[x] <==> (visited0[x] || exists|j: int|
                                0 <= j < k + 1 && #[trigger] cy[j] == x)) by {
                                if x == e as int {
                                    assert(cy[k as int] == x);
                                } else {
                                    if visited@[x] {
                                        if !visited0[x] {
                                            let j = choose|j: int|
                                                0 <= j < k && #[trigger] cy[j] == x;
                                            assert(0 <= j < k + 1 && cy[j] == x);
                                        }
                                    } else {
                                        if exists|j: int| 0 <= j < k + 1 && #[trigger] cy[j] == x {
                                            let j = choose|j: int|
                                                0 <= j < k + 1 && #[trigger] cy[j] == x;
                                            assert(j == k);
                                        }
                                    }
                                }
                            }
                        }
                        k += 1;
                    }
                    proof {
                        assert(mark_cycle(visited0, cy, 0) == Some(visited@));
                    }
                    cycles.push(chain);
                    proof {
                        assert(cycle_views(cycles@) =~= views0.push(cy));
                        let nviews = views0.push(cy);
                        assert(extract_loop(*g, m@, t as int, visited0, views0) == extract_loop(
                            *g,
                            m@,
                            t + 1,
                            visited@,
                            nviews,
                        ));
                        let nlen = chain@.len() as int;
                        assert forall|e: int|
                            0 <= e < visited@.len() && #[trigger] visited@[e] implies m@[e] by {
                            if !visited0[e] {
                                let j = choose|j: int| 0 <= j < nlen && #[trigger] cy[j] == e;
                                assert(m@[chain@[j] as int]);
                            }
                        }
                        assert forall|i: int, kk: int|
                            0 <= i < nviews.len() && 0 <= kk < nviews[i].len() implies 0
                            <= #[trigger] nviews[i][kk] < g.n_edges() by {
                            if i < views0.len() {
                                assert(nviews[i] == views0[i]);
                            } else {
                                assert(nviews[i] == cy);
                                assert(cy[kk] == chain@[kk] as int);
                            }
                        }
                        assert forall|i: int, kk: int|
                            0 <= i < nviews.len() && 0 <= kk < nviews[i].len() implies visited@[
                        #[trigger] nviews[i][kk]] by {
                            if i < views0.len() {
                                assert(nviews[i] == views0[i]);
                                assert(visited0[views0[i][kk]]);
                            } else {
                                assert(nviews[i] == cy);
                                assert(0 <= kk < nlen && cy[kk] == cy[kk]);
                            }
                        }
                        assert forall|e: int|
                            0 <= e < visited@.len() && #[trigger] visited@[e] implies exists|
                            i: int,
                            kk: int,
                        |
                            0 <= i < nviews.len() && 0 <= kk < nviews[i].len() && nviews[i][kk]
                                == e by {
                            if visited0[e] {
                                let (i, kk) = choose|i: int, kk: int|
                                    0 <= i < views0.len() && 0 <= kk < views0[i].len()
                                        && views0[i][kk] == e;
                                assert(nviews[i] == views0[i]);
                                assert(nviews[i][kk] == e);
                            } else {
                                let j = choose|j: int| 0 <= j < nlen && #[trigger] cy[j] == e;
                                assert(nviews[views0.len() as int] == cy);
                                assert(nviews[views0.len() as int][j] == e);
                            }
                        }
                        assert forall|i1: int, k1: int, i2: int, k2: int|
                            0 <= i1 < nviews.len() && 0 <= k1 < nviews[i1].len() && 0 <= i2
                                < nviews.len() && 0 <= k2 < nviews[i2].len() && (i1 != i2 || k1
                                != k2) implies #[trigger] nviews[i1][k1]
                            != #[trigger] nviews[i2][k2] by {
                            let last = views0.len() as int;
                            if i1 < last && i2 < last {
                                assert(nviews[i1] == views0[i1]);
                                assert(nviews[i2] == views0[i2]);
                            } else if i1 == last && i2 == last {
                                assert(nviews[i1] == cy);
                                if k1 < k2 {
                                    assert(cy[k1] != cy[k2]);
                                } else {
                                    assert(cy[k2] != cy[k1]);
                                }
                            } else if i1 == last {
                                assert(nviews[i1] == cy);
                                assert(nviews[i2] == views0[i2]);
                                assert(!visited0[cy[k1]]);
                                assert(visited0[views0[i2][k2]]);
                            } else {
                                assert(nviews[i2] == cy);
                                assert(nviews[i1] == views0[i1]);
                                assert(!visited0[cy[k2]]);
                                assert(visited0[views0[i1][k1]]);
                            }
                        }
                    }
                },
            }
        }
        t += 1;
    }
    let ghost views = cycle_views(cycles@);
    proof {
        assert(extract_loop(*g, m@, t as int, visited@, views) == Some((views, visited@)));
    }
    let mut e: usize = 0;
    while e < n
        invariant
            m@.len() == g.n_edges(),
            n == g.n_edges(),
            e <= n,
            visited@.len() == g.n_edges(),
            extract_loop(*g, m@, 0, init_visited(g.n_edges()), Seq::empty()) == Some(
                (views, visited@),
            ),
            forall|x: int| 0 <= x < e && #[trigger] m@[x] ==> visited@[x],
        decreases n - e,
    {
        if m[e] && !visited[e] {
            proof {
                assert(m@[e as int] && !visited@[e as int]);
                assert(!all_true_covered(m@, visited@));
            }
            return Err(SolveError::InvalidModel);
        }
        e += 1;
    }
    proof {
        assert(all_true_covered(m@, visited@));
        assert(extraction(*g, m@) == Some(views));
        assert forall|x: int|
            0 <= x < g.n_edges() && #[trigger] m@[x] implies exists|i: int, k: int|
            0 <= i < views.len() && 0 <= k < views[i].len() && views[i][k] == x by {
            assert(visited@[x]);
        }
        assert forall|i: int, k: int|
            0 <= i < views.len() && 0 <= k < views[i].len() implies 0 <= #[trigger] views[i][k]
            < g.n_edges() && m@[views[i][k]] by {
            assert(visited@[views[i][k]]);
        }
        assert forall|i: int| 0 <= i < cycles@.len() implies #[trigger] cycles@[i]@.len() >= 1 by {
            assert(views[i].len() >= 1);
            assert(views[i] == ids(cycles@[i]@));
        }
    }
    Ok(cycles)
}

} // verus!
