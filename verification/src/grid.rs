use vstd::prelude::*;

verus! {

/// Largest grid dimension the library accepts. It keeps every edge index,
/// vertex index and edge count comfortably inside `usize` on any target.
pub const MAX_DIM: usize = 30000;

/// Errors the solving pipeline can report.
#[derive(Clone, Copy, PartialEq, Eq, Structural, Debug)]
pub enum SolveError {
    /// The grid data handed in by the extraction collaborator is inconsistent.
    MalformedInput,
    /// The backend reported that the asserted constraint set has no model.
    Unsatisfiable,
    /// The backend could not decide satisfiability.
    Indeterminate,
    /// The backend returned an assignment that violates the asserted constraints.
    InvalidModel,
    /// The iteration bound was exhausted before a single loop was found.
    Inconclusive,
}

/// An immutable rectangular puzzle: dimensions plus an optional clue per cell.
pub struct Grid {
    pub width: usize,
    pub height: usize,
    /// Row-major clue table of length `width * height`; a clue counts how
    /// many of the cell's four boundary edges the loop must use.
    pub clues: Vec<Option<u8>>,
}

/// The shape the input collaborator must supply: positive bounded dimensions,
/// one optional clue per cell, every clue at most 4.
pub open spec fn grid_data_ok(width: int, height: int, clues: Seq<Option<u8>>) -> bool {
    &&& 1 <= width <= MAX_DIM
    &&& 1 <= height <= MAX_DIM
    &&& clues.len() == width * height
    &&& forall|k: int| 0 <= k < clues.len() ==> (#[trigger] clues[k] matches Some(v) ==> v <= 4)
}

impl Grid {
    pub open spec fn wf(self) -> bool {
        grid_data_ok(self.width as int, self.height as int, self.clues@)
    }

    pub open spec fn clue(self, r: int, c: int) -> Option<u8> {
        self.clues@[r * self.width + c]
    }

    /// Number of horizontal ("top") edges: one above each cell of each of the
    /// `height + 1` edge rows.
    pub open spec fn n_top(self) -> int {
        (self.height + 1) * self.width
    }

    /// Number of vertical ("left") edges.
    pub open spec fn n_left(self) -> int {
        self.height * (self.width + 1)
    }

    /// Total number of edge variables; the assignment vectors have this length.
    pub open spec fn n_edges(self) -> int {
        self.n_top() + self.n_left()
    }

    /// Edge-variable index of the horizontal edge above cell `(r, c)`.
    pub open spec fn top_id(self, r: int, c: int) -> int {
        r * self.width + c
    }

    /// Edge-variable index of the vertical edge left of cell `(r, c)`.
    pub open spec fn left_id(self, r: int, c: int) -> int {
        self.n_top() + r * (self.width + 1) + c
    }

    pub open spec fn top_in_range(self, r: int, c: int) -> bool {
        0 <= r <= self.height && 0 <= c < self.width
    }

    pub open spec fn left_in_range(self, r: int, c: int) -> bool {
        0 <= r < self.height && 0 <= c <= self.width
    }

    /// Validate externally supplied grid data; `Err` exactly on malformed data.
    pub fn new(width: usize, height: usize, clues: Vec<Option<u8>>) -> (r: Result<Grid, SolveError>)
        ensures
            match r {
                Ok(g) => {
                    &&& g.wf()
                    &&& g.width == width
                    &&& g.height == height
                    &&& g.clues@ == clues@
                },
                Err(e) => {
                    &&& e is MalformedInput
                    &&& !grid_data_ok(width as int, height as int, clues@)
                },
            },
    {
        if width < 1 || width > MAX_DIM || height < 1 || height > MAX_DIM {
            return Err(SolveError::MalformedInput);
        }
        proof {
            lemma_mul_bound(width as int, height as int, MAX_DIM as int, MAX_DIM as int);
        }
        if clues.len() != width * height {
            return Err(SolveError::MalformedInput);
        }
        let mut k: usize = 0;
        while k < clues.len()
            invariant
                k <= clues@.len(),
                forall|i: int| 0 <= i < k ==> (#[trigger] clues@[i] matches Some(v) ==> v <= 4),
            decreases clues@.len() - k,
        {
            match clues[k] {
                Some(v) => {
                    if v > 4 {
                        return Err(SolveError::MalformedInput);
                    }
                },
                None => {},
            }
            k += 1;
        }
        Ok(Grid { width, height, clues })
    }

    pub fn clue_at(&self, r: usize, c: usize) -> (o: Option<u8>)
        requires
            self.wf(),
            r < self.height,
            c < self.width,
        ensures
            o == self.clue(r as int, c as int),
            (o matches Some(v) ==> v <= 4),
    {
        proof {
            lemma_row_major_bounds(r as int, c as int, self.height as int, self.width as int);
            lemma_dims_small(self.width as int, self.height as int);
            lemma_mul_bound(self.height as int, self.width as int, MAX_DIM as int, MAX_DIM as int);
        }
        self.clues[r * self.width + c]
    }

    /// Executable counterpart of `top_id`.
    pub fn top_index(&self, r: usize, c: usize) -> (k: usize)
        requires
            self.wf(),
            self.top_in_range(r as int, c as int),
        ensures
            k == self.top_id(r as int, c as int),
            k < self.n_top(),
    {
        proof {
            lemma_row_major_bounds(r as int, c as int, self.height + 1 as int, self.width as int);
            lemma_dims_small(self.width as int, self.height as int);
        }
        r * self.width + c
    }

    /// Executable counterpart of `left_id`.
    pub fn left_index(&self, r: usize, c: usize) -> (k: usize)
        requires
            self.wf(),
            self.left_in_range(r as int, c as int),
        ensures
            k == self.left_id(r as int, c as int),
            self.n_top() <= k < self.n_edges(),
    {
        proof {
            lemma_row_major_bounds(r as int, c as int, self.height as int, self.width + 1 as int);
            lemma_dims_small(self.width as int, self.height as int);
        }
        let nt = (self.height + 1) * self.width;
        nt + r * (self.width + 1) + c
    }

    /// Executable count of the horizontal edge variables.
    pub fn top_count(&self) -> (n: usize)
        requires
            self.wf(),
        ensures
            n == self.n_top(),
    {
        proof {
            lemma_dims_small(self.width as int, self.height as int);
        }
        (self.height + 1) * self.width
    }

    /// Executable count of all edge variables.
    pub fn edge_count(&self) -> (n: usize)
        requires
            self.wf(),
        ensures
            n == self.n_edges(),
    {
        proof {
            lemma_dims_small(self.width as int, self.height as int);
        }
        (self.height + 1) * self.width + self.height * (self.width + 1)
    }
}

/// Multiplication respects upper bounds on both factors.
pub proof fn lemma_mul_bound(a: int, b: int, x: int, y: int)
    requires
        0 <= a <= x,
        0 <= b <= y,
    ensures
        a * b <= x * y,
{
    assert(a * b <= x * y) by (nonlinear_arith)
        requires
            0 <= a <= x,
            0 <= b <= y,
    ;
}

/// Bounds that hold of every well-formed grid's edge counts.
pub proof fn lemma_dims_small(width: int, height: int)
    requires
        1 <= width <= MAX_DIM,
        1 <= height <= MAX_DIM,
    ensures
        0 < (height + 1) * width <= (MAX_DIM + 1) * MAX_DIM,
        0 < height * (width + 1) <= MAX_DIM * (MAX_DIM + 1),
        (height + 1) * width + height * (width + 1) < 0x8000_0000,
{
    assert((height + 1) * width <= (MAX_DIM + 1) * MAX_DIM && 0 < (height + 1) * width
        && height * (width + 1) <= MAX_DIM * (MAX_DIM + 1) && 0 < height * (width + 1))
        by (nonlinear_arith)
        requires
            1 <= width <= MAX_DIM,
            1 <= height <= MAX_DIM,
    ;
}

/// A row-major index is in range exactly when its coordinates are.
pub proof fn lemma_row_major_bounds(r: int, c: int, rows: int, cols: int)
    requires
        0 <= r < rows,
        0 <= c < cols,
    ensures
        0 <= r * cols + c < rows * cols,
{
    assert(0 <= r * cols + c < rows * cols) by (nonlinear_arith)
        requires
            0 <= r < rows,
            0 <= c < cols,
    ;
}

/// Row-major indexing is injective: the edge-variable mapping never collides
/// within one edge family.
pub proof fn lemma_row_major_injective(r1: int, c1: int, r2: int, c2: int, cols: int)
    requires
        0 <= c1 < cols,
        0 <= c2 < cols,
        r1 * cols + c1 == r2 * cols + c2,
    ensures
        r1 == r2,
        c1 == c2,
{
    assert(r1 == r2 && c1 == c2) by (nonlinear_arith)
        requires
            0 <= c1 < cols,
            0 <= c2 < cols,
            r1 * cols + c1 == r2 * cols + c2,
    ;
}

/// Every edge variable stands for exactly one grid edge: distinct edges get
/// distinct indices, and the two families occupy disjoint index ranges.
pub proof fn lemma_edge_ids_bijective(g: Grid, r1: int, c1: int, r2: int, c2: int)
    requires
        g.wf(),
    ensures
        g.top_in_range(r1, c1) && g.top_in_range(r2, c2) && g.top_id(r1, c1) == g.top_id(r2, c2)
            ==> r1 == r2 && c1 == c2,
        g.left_in_range(r1, c1) && g.left_in_range(r2, c2) && g.left_id(r1, c1) == g.left_id(
            r2,
            c2,
        ) ==> r1 == r2 && c1 == c2,
        g.top_in_range(r1, c1) && g.left_in_range(r2, c2) ==> g.top_id(r1, c1) != g.left_id(
            r2,
            c2,
        ),
{
    let w = g.width as int;
    let h = g.height as int;
    if g.top_in_range(r1, c1) && g.top_in_range(r2, c2) && g.top_id(r1, c1) == g.top_id(r2, c2) {
        lemma_row_major_injective(r1, c1, r2, c2, w);
    }
    if g.left_in_range(r1, c1) && g.left_in_range(r2, c2) && g.left_id(r1, c1) == g.left_id(
        r2,
        c2,
    ) {
        lemma_row_major_injective(r1, c1, r2, c2, w + 1);
    }
    if g.top_in_range(r1, c1) && g.left_in_range(r2, c2) {
        lemma_row_major_bounds(r1, c1, h + 1, w);
        lemma_row_major_bounds(r2, c2, h, w + 1);
    }
}

} // verus!
