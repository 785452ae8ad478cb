use vstd::prelude::*;

verus! {

/// A cell of a grid, addressed by column `x` and row `y` (row 0 is the top).
#[derive(Debug, Clone, Copy, PartialEq, Eq, Structural, Hash)]
pub struct GridPosition {
    pub x: usize,
    pub y: usize,
}

/// The one way a grid operation can fail: the position lies outside the grid.
#[derive(Debug, Clone, Copy, PartialEq, Eq, Structural, Hash)]
pub enum GridMapError {
    OutOfBounds,
}

/// The cell one row up (`y - 1`); meaningful when `p.y > 0`.
pub open spec fn up_of(p: GridPosition) -> GridPosition {
    GridPosition { x: p.x, y: (p.y - 1) as usize }
}

/// The cell one column right (`x + 1`).
pub open spec fn right_of(p: GridPosition) -> GridPosition {
    GridPosition { x: (p.x + 1) as usize, y: p.y }
}

/// The cell one row down (`y + 1`).
pub open spec fn down_of(p: GridPosition) -> GridPosition {
    GridPosition { x: p.x, y: (p.y + 1) as usize }
}

/// The cell one column left (`x - 1`); meaningful when `p.x > 0`.
pub open spec fn left_of(p: GridPosition) -> GridPosition {
    GridPosition { x: (p.x - 1) as usize, y: p.y }
}

/// `a` and `b` share a side: they differ by one in exactly one coordinate.
pub open spec fn adjacent(a: GridPosition, b: GridPosition) -> bool {
    ||| (a.x == b.x && (a.y + 1 == b.y || b.y + 1 == a.y))
    ||| (a.y == b.y && (a.x + 1 == b.x || b.x + 1 == a.x))
}

/// Absolute difference of two coordinates.
pub open spec fn coord_distance(a: usize, b: usize) -> int {
    if a >= b {
        a - b
    } else {
        b - a
    }
}

/// Manhattan distance between two cells.
pub open spec fn manhattan(a: GridPosition, b: GridPosition) -> int {
    coord_distance(a.x, b.x) + coord_distance(a.y, b.y)
}

/// What a grid map is: its size and, row by row, whether each cell can be walked.
pub struct GridModel {
    pub width: nat,
    pub height: nat,
    pub cells: Seq<bool>,
}

impl GridModel {
    pub open spec fn in_bounds(self, p: GridPosition) -> bool {
        p.x < self.width && p.y < self.height
    }

    /// Row-major index of a cell in `cells`.
    pub open spec fn index(self, p: GridPosition) -> int {
        p.y * self.width + p.x
    }

    pub open spec fn walkable(self, p: GridPosition) -> bool {
        self.cells[self.index(p)]
    }

    /// In bounds and walkable: a cell that a path may pass through.
    pub open spec fn is_open(self, p: GridPosition) -> bool {
        self.in_bounds(p) && self.walkable(p)
    }

    /// The same map with the cell `p` set to `walkable`.
    pub open spec fn set(self, p: GridPosition, walkable: bool) -> GridModel {
        GridModel { width: self.width, height: self.height, cells: self.cells.update(self.index(p), walkable) }
    }

    /// The walkable cells that share a side with `p`, in the order up, right, down, left.
    pub open spec fn neighbors_of(self, p: GridPosition) -> Seq<GridPosition> {
        let up = if p.y > 0 && self.walkable(up_of(p)) { seq![up_of(p)] } else { seq![] };
        let right = if p.x + 1 < self.width && self.walkable(right_of(p)) {
            seq![right_of(p)]
        } else {
            seq![]
        };
        let down = if p.y + 1 < self.height && self.walkable(down_of(p)) {
            seq![down_of(p)]
        } else {
            seq![]
        };
        let left = if p.x > 0 && self.walkable(left_of(p)) { seq![left_of(p)] } else { seq![] };
        up + right + down + left
    }

    pub open spec fn wf(self) -> bool {
        &&& self.width <= usize::MAX
        &&& self.height <= usize::MAX
        &&& self.cells.len() == self.width * self.height
        &&& self.width * self.height <= isize::MAX
    }
}

/// A rectangular grid of cells, each either walkable or blocked.
#[derive(Debug, PartialEq, Eq)]
pub struct GridMap {
    width: usize,
    height: usize,
    cells: Vec<bool>,
}

impl View for GridMap {
    type V = GridModel;

    closed spec fn view(&self) -> GridModel {
        GridModel { width: self.width as nat, height: self.height as nat, cells: self.cells@ }
    }
}

/// A cell inside a `width` by `height` grid has its row-major index inside the table.
pub proof fn lemma_row_major_in_range(width: int, height: int, x: int, y: int)
    requires
        0 <= x < width,
        0 <= y < height,
    ensures
        0 <= y * width + x < width * height,
{
    assert(y * width + x < width * height) by (nonlinear_arith)
        requires
            0 <= x < width,
            0 <= y < height,
    ;
    assert(0 <= y * width) by (nonlinear_arith)
        requires
            0 <= y,
            0 <= width,
    ;
}

/// Distinct cells of a grid of the given width have distinct row-major indices.
pub proof fn lemma_row_major_injective(width: int, x1: int, y1: int, x2: int, y2: int)
    requires
        0 <= x1 < width,
        0 <= x2 < width,
        0 <= y1,
        0 <= y2,
        x1 != x2 || y1 != y2,
    ensures
        y1 * width + x1 != y2 * width + x2,
{
    if y1 < y2 {
        assert(y1 * width + x1 < y2 * width) by (nonlinear_arith)
            requires
                y1 < y2,
                x1 < width,
                0 <= x1,
        ;
    } else if y2 < y1 {
        assert(y2 * width + x2 < y1 * width) by (nonlinear_arith)
            requires
                y2 < y1,
                x2 < width,
                0 <= x2,
        ;
    }
}

/// An in-bounds cell has an index inside the cell table.
pub proof fn lemma_index_in_range(m: GridModel, p: GridPosition)
    requires
        m.in_bounds(p),
    ensures
        0 <= m.index(p) < m.width * m.height,
{
    lemma_row_major_in_range(m.width as int, m.height as int, p.x as int, p.y as int);
}

/// Distinct in-bounds cells have distinct indices.
pub proof fn lemma_index_injective(m: GridModel, p: GridPosition, q: GridPosition)
    requires
        m.in_bounds(p),
        m.in_bounds(q),
        p != q,
    ensures
        m.index(p) != m.index(q),
{
    lemma_row_major_injective(m.width as int, p.x as int, p.y as int, q.x as int, q.y as int);
}

/// Every cell that `neighbors_of` lists is open and shares a side with `p`.
pub proof fn lemma_neighbors_sound(m: GridModel, p: GridPosition, i: int)
    requires
        m.wf(),
        m.in_bounds(p),
        0 <= i < m.neighbors_of(p).len(),
    ensures
        m.is_open(m.neighbors_of(p)[i]),
        adjacent(p, m.neighbors_of(p)[i]),
{
    let up = if p.y > 0 && m.walkable(up_of(p)) { seq![up_of(p)] } else { seq![] };
    let right = if p.x + 1 < m.width && m.walkable(right_of(p)) { seq![right_of(p)] } else { seq![] };
    let down = if p.y + 1 < m.height && m.walkable(down_of(p)) { seq![down_of(p)] } else { seq![] };
    let left = if p.x > 0 && m.walkable(left_of(p)) { seq![left_of(p)] } else { seq![] };
    let all = up + right + down + left;
    assert(all == m.neighbors_of(p));
    let q = all[i];
    if i < up.len() {
        assert(q == up_of(p));
    } else if i < up.len() + right.len() {
        assert(q == right_of(p));
    } else if i < up.len() + right.len() + down.len() {
        assert(q == down_of(p));
    } else {
        assert(q == left_of(p));
    }
}

/// Every open cell that shares a side with `p` is listed by `neighbors_of`.
pub proof fn lemma_neighbors_complete(m: GridModel, p: GridPosition, q: GridPosition)
    requires
        m.wf(),
        m.in_bounds(p),
        m.is_open(q),
        adjacent(p, q),
    ensures
        m.neighbors_of(p).contains(q),
{
    let up = if p.y > 0 && m.walkable(up_of(p)) { seq![up_of(p)] } else { seq![] };
    let right = if p.x + 1 < m.width && m.walkable(right_of(p)) { seq![right_of(p)] } else { seq![] };
    let down = if p.y + 1 < m.height && m.walkable(down_of(p)) { seq![down_of(p)] } else { seq![] };
    let left = if p.x > 0 && m.walkable(left_of(p)) { seq![left_of(p)] } else { seq![] };
    let all = up + right + down + left;
    assert(all == m.neighbors_of(p));
    if q == up_of(p) && p.y > 0 {
        assert(all[0] == q);
    } else if q == right_of(p) && p.x + 1 < m.width {
        assert(all[up.len() as int] == q);
    } else if q == down_of(p) && p.y + 1 < m.height {
        assert(all[(up.len() + right.len()) as int] == q);
    } else {
        assert(q == left_of(p));
        assert(all[(up.len() + right.len() + down.len()) as int] == q);
    }
}

/// Reading a cell after writing it gives what was written; every other cell keeps
/// what it had.
pub proof fn law_set_then_read(m: GridModel, p: GridPosition, q: GridPosition, walkable: bool)
    requires
        m.wf(),
        m.in_bounds(p),
        m.in_bounds(q),
    ensures
        m.set(p, walkable).wf(),
        m.set(p, walkable).in_bounds(q),
        m.set(p, walkable).walkable(q) == if q == p {
            walkable
        } else {
            m.walkable(q)
        },
{
    lemma_index_in_range(m, p);
    lemma_index_in_range(m, q);
    if q != p {
        lemma_index_injective(m, p, q);
    }
}

/// Being neighbours is mutual: if `q` is listed next to `p` and `p` is walkable, then
/// `p` is listed next to `q`.
pub proof fn law_neighbors_are_mutual(m: GridModel, p: GridPosition, q: GridPosition)
    requires
        m.wf(),
        m.is_open(p),
        m.neighbors_of(p).contains(q),
    ensures
        m.neighbors_of(q).contains(p),
{
    let i = choose|i: int| 0 <= i < m.neighbors_of(p).len() && m.neighbors_of(p)[i] == q;
    lemma_neighbors_sound(m, p, i);
    lemma_neighbors_complete(m, q, p);
}

/// Which side of `p` the cell `q` lies on, counted in the order up, right, down, left.
pub open spec fn side_rank(p: GridPosition, q: GridPosition) -> int {
    if q.y < p.y {
        0
    } else if q.x > p.x {
        1
    } else if q.y > p.y {
        2
    } else {
        3
    }
}

/// Which of four consecutive blocks of lengths `a`, `b`, `c` and the rest index `i` falls in.
spec fn part_rank(i: int, a: int, b: int, c: int) -> int {
    if i < a {
        0
    } else if i < a + b {
        1
    } else if i < a + b + c {
        2
    } else {
        3
    }
}

/// The neighbours of an in-bounds cell are exactly the open cells that share a side with
/// it, each once, in the order up, right, down, left.
pub proof fn law_neighbors_are_the_open_sides_in_order(m: GridModel, p: GridPosition)
    requires
        m.wf(),
        m.in_bounds(p),
    ensures
        forall|i: int|
            0 <= i < m.neighbors_of(p).len() ==> m.is_open(#[trigger] m.neighbors_of(p)[i])
                && adjacent(p, m.neighbors_of(p)[i]),
        forall|q: GridPosition| m.is_open(q) && adjacent(p, q) ==> #[trigger] m.neighbors_of(p).contains(q),
        forall|i: int, j: int|
            0 <= i < j < m.neighbors_of(p).len() ==> side_rank(p, #[trigger] m.neighbors_of(p)[i])
                < side_rank(p, #[trigger] m.neighbors_of(p)[j]),
        m.neighbors_of(p).no_duplicates(),
        m.neighbors_of(p).len() <= 4,
{
    let n = m.neighbors_of(p);
    let up = if p.y > 0 && m.walkable(up_of(p)) { seq![up_of(p)] } else { seq![] };
    let right = if p.x + 1 < m.width && m.walkable(right_of(p)) { seq![right_of(p)] } else { seq![] };
    let down = if p.y + 1 < m.height && m.walkable(down_of(p)) { seq![down_of(p)] } else { seq![] };
    let left = if p.x > 0 && m.walkable(left_of(p)) { seq![left_of(p)] } else { seq![] };
    assert(n == up + right + down + left);
    assert forall|i: int| 0 <= i < n.len() implies m.is_open(#[trigger] n[i]) && adjacent(p, n[i]) by {
        lemma_neighbors_sound(m, p, i);
    }
    assert forall|q: GridPosition| m.is_open(q) && adjacent(p, q) implies #[trigger] n.contains(q) by {
        lemma_neighbors_complete(m, p, q);
    }
    assert forall|i: int| 0 <= i < n.len() implies #[trigger] side_rank(p, n[i]) == part_rank(i, up.len() as int, right.len() as int, down.len() as int) by {}
    assert forall|i: int, j: int|
        0 <= i < j < n.len() implies side_rank(p, #[trigger] n[i]) < side_rank(p, #[trigger] n[j]) by {
        assert(side_rank(p, n[i]) == part_rank(i, up.len() as int, right.len() as int, down.len() as int));
        assert(side_rank(p, n[j]) == part_rank(j, up.len() as int, right.len() as int, down.len() as int));
    }
    assert forall|i: int, j: int| 0 <= i < n.len() && 0 <= j < n.len() && i != j implies n[i] != n[j] by {
        if i < j {
            assert(side_rank(p, n[i]) < side_rank(p, n[j]));
        } else {
            assert(side_rank(p, n[j]) < side_rank(p, n[i]));
        }
    }
}

impl Clone for GridMap {
    fn clone(&self) -> (r: Self)
        ensures
            r@ == self@,
    {
        proof {
            use_type_invariant(self);
        }
        let cells = self.cells.clone();
        assert(cells@ =~= self.cells@);
        GridMap { width: self.width, height: self.height, cells }
    }
}

impl GridMap {
    #[verifier::type_invariant]
    pub open spec fn inv(&self) -> bool {
        self@.wf()
    }

    /// A map of `width` columns and `height` rows whose cells are all walkable.
    pub fn new(width: usize, height: usize) -> (r: Self)
        requires
            width * height <= isize::MAX,
        ensures
            r@.width == width,
            r@.height == height,
            r@.cells == Seq::new((width * height) as nat, |i: int| true),
    {
        assert(width * height <= usize::MAX) by (nonlinear_arith)
            requires
                width * height <= isize::MAX,
        ;
        let n: usize = width * height;
        let mut cells: Vec<bool> = Vec::with_capacity(n);
        let mut i: usize = 0;
        while i < n
            invariant
                i <= n,
                cells@ == Seq::new(i as nat, |j: int| true),
            decreases n - i,
        {
            cells.push(true);
            i = i + 1;
        }
        GridMap { width, height, cells }
    }

    pub fn width(&self) -> (r: usize)
        ensures
            r == self@.width,
    {
        self.width
    }

    pub fn height(&self) -> (r: usize)
        ensures
            r == self@.height,
    {
        self.height
    }

    pub fn in_bounds(&self, position: GridPosition) -> (r: bool)
        ensures
            r == self@.in_bounds(position),
    {
        position.x < self.width && position.y < self.height
    }

    fn index_of(&self, position: GridPosition) -> (r: Result<usize, GridMapError>)
        ensures
            self@.in_bounds(position) ==> r == Ok::<usize, GridMapError>(
                self@.index(position) as usize,
            ),
            !self@.in_bounds(position) ==> r == Err::<usize, GridMapError>(GridMapError::OutOfBounds),
            r is Ok ==> r->Ok_0 < self@.cells.len(),
    {
        proof {
            use_type_invariant(self);
        }
        if self.in_bounds(position) {
            proof {
                lemma_index_in_range(self@, position);
            }
            Ok(position.y * self.width + position.x)
        } else {
            Err(GridMapError::OutOfBounds)
        }
    }

    /// Whether the cell can be walked, or `OutOfBounds`.
    pub fn is_walkable(&self, position: GridPosition) -> (r: Result<bool, GridMapError>)
        ensures
            self@.in_bounds(position) ==> r == Ok::<bool, GridMapError>(self@.walkable(position)),
            !self@.in_bounds(position) ==> r == Err::<bool, GridMapError>(GridMapError::OutOfBounds),
    {
        proof {
            use_type_invariant(self);
            if self@.in_bounds(position) {
                lemma_index_in_range(self@, position);
            }
        }
        let index: usize = self.index_of(position)?;
        Ok(self.cells[index])
    }

    /// Marks the cell walkable or blocked; out of bounds, the map is left as it was.
    pub fn set_walkable(&mut self, position: GridPosition, walkable: bool) -> (r: Result<(), GridMapError>)
        ensures
            old(self)@.in_bounds(position) ==> r == Ok::<(), GridMapError>(())
                && final(self)@ == old(self)@.set(position, walkable),
            !old(self)@.in_bounds(position) ==> r == Err::<(), GridMapError>(GridMapError::OutOfBounds)
                && final(self)@ == old(self)@,
    {
        proof {
            use_type_invariant(&*self);
            if self@.in_bounds(position) {
                lemma_index_in_range(self@, position);
            }
        }
        let index: usize = self.index_of(position)?;
        self.cells[index] = walkable;
        Ok(())
    }

    /// The walkable cells next to `position`, in the order up, right, down, left,
    /// or `OutOfBounds`.
    pub fn neighbors(&self, position: GridPosition) -> (r: Result<Vec<GridPosition>, GridMapError>)
        ensures
            self@.in_bounds(position) ==> r is Ok && r->Ok_0@ == self@.neighbors_of(position),
            !self@.in_bounds(position) ==> r == Err::<Vec<GridPosition>, GridMapError>(
                GridMapError::OutOfBounds,
            ),
    {
        self.index_of(position)?;

        let mut neighbors: Vec<GridPosition> = Vec::new();
        let ghost m = self@;
        let ghost up_part: Seq<GridPosition> = if position.y > 0 && m.walkable(up_of(position)) {
            seq![up_of(position)]
        } else {
            seq![]
        };
        let ghost right_part: Seq<GridPosition> = if position.x + 1 < m.width && m.walkable(
            right_of(position),
        ) {
            seq![right_of(position)]
        } else {
            seq![]
        };
        let ghost down_part: Seq<GridPosition> = if position.y + 1 < m.height && m.walkable(
            down_of(position),
        ) {
            seq![down_of(position)]
        } else {
            seq![]
        };
        let ghost left_part: Seq<GridPosition> = if position.x > 0 && m.walkable(left_of(position)) {
            seq![left_of(position)]
        } else {
            seq![]
        };

        if position.y > 0 {
            let up = GridPosition { x: position.x, y: position.y - 1 };
            if self.is_walkable(up)? {
                neighbors.push(up);
            }
        }
        assert(neighbors@ == up_part);

        if position.x + 1 < self.width {
            let right = GridPosition { x: position.x + 1, y: position.y };
            if self.is_walkable(right)? {
                neighbors.push(right);
            }
        }
        assert(neighbors@ == up_part + right_part);

        if position.y + 1 < self.height {
            let down = GridPosition { x: position.x, y: position.y + 1 };
            if self.is_walkable(down)? {
                neighbors.push(down);
            }
        }
        assert(neighbors@ == up_part + right_part + down_part);

        if position.x > 0 {
            let left = GridPosition { x: position.x - 1, y: position.y };
            if self.is_walkable(left)? {
                neighbors.push(left);
            }
        }
        assert(neighbors@ == up_part + right_part + down_part + left_part);

        Ok(neighbors)
    }
}


} // verus!
