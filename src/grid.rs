use vstd::prelude::*;
use crate::square::{Square, is_open};

verus! {

/// A cell address: column `x`, row `y`.
#[derive(Copy, Clone, Debug, PartialEq, Eq, Structural)]
pub struct Position {
    pub x: usize,
    pub y: usize,
}

/// A displacement between cells.
#[derive(Copy, Clone, Debug, PartialEq, Eq, Structural)]
pub struct Offset {
    pub dx: i32,
    pub dy: i32,
}

/// Why a query on a grid failed.
#[derive(Copy, Clone, Debug, PartialEq, Eq, Structural)]
pub enum GridError {
    OutOfBounds,
}

/// A rectangular map of terrain classes, stored row by row.
pub struct Grid {
    pub rows: Vec<Vec<Square>>,
    pub width: usize,
}

/// The cells of a grid, row `y` at index `y`, column `x` within it.
pub open spec fn rows_view(rows: Seq<Vec<Square>>) -> Seq<Seq<Square>> {
    Seq::new(rows.len(), |i: int| rows[i]@)
}

/// Two cells that are one hop apart in one of the four directions.
pub open spec fn adjacent(p: Position, q: Position) -> bool {
    (p.x == q.x && (q.y == p.y + 1 || p.y == q.y + 1))
        || (p.y == q.y && (q.x == p.x + 1 || p.x == q.x + 1))
}

impl View for Grid {
    type V = Seq<Seq<Square>>;

    open spec fn view(&self) -> Seq<Seq<Square>> {
        rows_view(self.rows@)
    }
}

impl Grid {
    pub open spec fn spec_width(&self) -> nat {
        self.width as nat
    }

    pub open spec fn spec_height(&self) -> nat {
        self@.len()
    }

    /// At least one row and one column, every row as wide as the grid.
    pub open spec fn wf(&self) -> bool {
        &&& 1 <= self@.len() <= usize::MAX
        &&& self.width >= 1
        &&& forall|y: int| 0 <= y < self@.len() ==> #[trigger] self@[y].len() == self.width
    }

    pub open spec fn spec_in_bounds(&self, x: int, y: int) -> bool {
        0 <= x < self.spec_width() && 0 <= y < self.spec_height()
    }

    pub open spec fn contains(&self, p: Position) -> bool {
        self.spec_in_bounds(p.x as int, p.y as int)
    }

    pub open spec fn square(&self, p: Position) -> Square {
        self@[p.y as int][p.x as int]
    }

    /// A cell that a search may step onto: inside, and Empty or Destination.
    pub open spec fn open_at(&self, p: Position) -> bool {
        self.contains(p) && is_open(self.square(p))
    }

    pub open spec fn is_goal(&self, p: Position) -> bool {
        self.contains(p) && self.square(p) == Square::Destination
    }

    /// Builds a grid from rows that are already rectangular.
    pub fn from_rows(rows: Vec<Vec<Square>>, width: usize) -> (g: Grid)
        requires
            rows@.len() >= 1,
            width >= 1,
            forall|y: int| 0 <= y < rows@.len() ==> #[trigger] rows@[y]@.len() == width,
        ensures
            g.wf(),
            g@ == rows_view(rows@),
            g.spec_width() == width,
    {
        // the row count of a Vec fits in usize
        let _ = rows.len();
        Grid { rows, width }
    }

    pub fn width(&self) -> (r: usize)
        ensures
            r == self.spec_width(),
    {
        self.width
    }

    pub fn height(&self) -> (r: usize)
        ensures
            r == self.spec_height(),
    {
        self.rows.len()
    }

    pub fn in_bounds(&self, x: i128, y: i128) -> (r: bool)
        ensures
            r == (0 <= x < self.spec_width() && 0 <= y < self.spec_height()),
    {
        x >= 0 && y >= 0 && x < self.width as i128 && y < self.rows.len() as i128
    }

    /// The terrain class at `p`, which must lie inside the grid.
    pub fn square_at(&self, p: Position) -> (r: Square)
        requires
            self.wf(),
            self.contains(p),
        ensures
            r == self.square(p),
    {
        self.rows[p.y][p.x]
    }

    pub fn terrain_at(&self, p: Position) -> (r: Result<Square, GridError>)
        requires
            self.wf(),
        ensures
            self.contains(p) ==> r == Ok::<Square, GridError>(self.square(p)),
            !self.contains(p) ==> r == Err::<Square, GridError>(GridError::OutOfBounds),
    {
        if p.y < self.rows.len() && p.x < self.width {
            Ok(self.rows[p.y][p.x])
        } else {
            Err(GridError::OutOfBounds)
        }
    }

    /// The cells `p + o` for the offsets `o` of `offs`, in their order,
    /// that lie inside the grid.
    pub open spec fn neighbors_spec(&self, p: Position, offs: Seq<Offset>) -> Seq<Position>
        decreases offs.len(),
    {
        if offs.len() == 0 {
            Seq::empty()
        } else {
            let rest = self.neighbors_spec(p, offs.drop_last());
            let x = p.x + offs.last().dx;
            let y = p.y + offs.last().dy;
            if self.spec_in_bounds(x, y) {
                rest.push(Position { x: x as usize, y: y as usize })
            } else {
                rest
            }
        }
    }

    pub fn neighbors_offsets(&self, p: Position, offsets: &[Offset]) -> (r: Vec<Position>)
        ensures
            r@ == self.neighbors_spec(p, offsets@),
    {
        let mut r: Vec<Position> = Vec::new();
        let mut i: usize = 0;
        while i < offsets.len()
            invariant
                i <= offsets@.len(),
                r@ == self.neighbors_spec(p, offsets@.take(i as int)),
            decreases offsets@.len() - i,
        {
            let o = offsets[i];
            let x: i128 = p.x as i128 + o.dx as i128;
            let y: i128 = p.y as i128 + o.dy as i128;
            assert(offsets@.take(i + 1).drop_last() == offsets@.take(i as int));
            if self.in_bounds(x, y) {
                r.push(Position { x: x as usize, y: y as usize });
            }
            i = i + 1;
        }
        assert(offsets@.take(offsets@.len() as int) == offsets@);
        r
    }

    /// The in-bounds cells below, right of, left of and above `p`, in that order.
    pub fn neighbors_4(&self, p: Position) -> (r: Vec<Position>)
        requires
            self.wf(),
        ensures
            r@ == self.neighbors_spec(p, four_offsets()),
            forall|q: Position| #[trigger] r@.contains(q) <==> (adjacent(p, q) && self.contains(q)),
    {
        let offs = offsets_4();
        let r = self.neighbors_offsets(p, offs.as_slice());
        proof {
            self.lemma_neighbors_4(p);
        }
        r
    }

    /// The four cells of `neighbors_4` followed by the four diagonal ones.
    pub fn neighbors_8(&self, p: Position) -> (r: Vec<Position>)
        ensures
            r@ == self.neighbors_spec(p, eight_offsets()),
    {
        let offs = offsets_8();
        self.neighbors_offsets(p, offs.as_slice())
    }

    /// The cell `p + o` when it lies inside the grid.
    pub open spec fn lands(&self, p: Position, o: Offset, q: Position) -> bool {
        &&& self.spec_in_bounds(p.x + o.dx, p.y + o.dy)
        &&& q == Position { x: (p.x + o.dx) as usize, y: (p.y + o.dy) as usize }
    }

    proof fn lemma_neighbors_contains(&self, p: Position, offs: Seq<Offset>, q: Position)
        ensures
            self.neighbors_spec(p, offs).contains(q)
                <==> exists|i: int| 0 <= i < offs.len() && #[trigger] self.lands(p, offs[i], q),
        decreases offs.len(),
    {
        if offs.len() > 0 {
            let init = offs.drop_last();
            self.lemma_neighbors_contains(p, init, q);
            let rest = self.neighbors_spec(p, init);
            let x = p.x + offs.last().dx;
            let y = p.y + offs.last().dy;
            let e = Position { x: x as usize, y: y as usize };
            if self.neighbors_spec(p, offs).contains(q) {
                if self.spec_in_bounds(x, y) {
                    let k = choose|k: int| 0 <= k < rest.push(e).len() && rest.push(e)[k] == q;
                    if k < rest.len() {
                        assert(rest[k] == q);
                        assert(rest.contains(q));
                    } else {
                        assert(rest.push(e)[k] == e);
                        assert(self.lands(p, offs[offs.len() - 1], q));
                    }
                } else {
                    assert(rest.contains(q));
                }
                let i = choose|i: int| 0 <= i < offs.len() && #[trigger] self.lands(p, offs[i], q);
            }
            if exists|i: int| 0 <= i < offs.len() && #[trigger] self.lands(p, offs[i], q) {
                let i = choose|i: int| 0 <= i < offs.len() && #[trigger] self.lands(p, offs[i], q);
                if i < offs.len() - 1 {
                    assert(init[i] == offs[i]);
                    assert(rest.contains(q));
                    let k = choose|k: int| 0 <= k < rest.len() && rest[k] == q;
                    if self.spec_in_bounds(x, y) {
                        assert(rest.push(e)[k] == q);
                    }
                } else {
                    assert(q == e);
                    assert(rest.push(e)[rest.len() as int] == q);
                }
            }
        }
    }

    proof fn lemma_neighbors_4(&self, p: Position)
        requires
            self.wf(),
        ensures
            forall|q: Position| #[trigger] self.neighbors_spec(p, four_offsets()).contains(q)
                <==> (adjacent(p, q) && self.contains(q)),
    {
        let f = four_offsets();
        assert forall|q: Position| #[trigger] self.neighbors_spec(p, f).contains(q)
            <==> (adjacent(p, q) && self.contains(q)) by {
            self.lemma_neighbors_contains(p, f, q);
            if adjacent(p, q) && self.contains(q) {
                if q.y == p.y + 1 {
                    assert(self.lands(p, f[0], q));
                } else if q.x == p.x + 1 {
                    assert(self.lands(p, f[1], q));
                } else if p.x == q.x + 1 {
                    assert(self.lands(p, f[2], q));
                } else {
                    assert(self.lands(p, f[3], q));
                }
            }
            if self.neighbors_spec(p, f).contains(q) {
                let i = choose|i: int| 0 <= i < f.len() && #[trigger] self.lands(p, f[i], q);
                if i == 0 {
                    assert(q.y == p.y + 1);
                } else if i == 1 {
                    assert(q.x == p.x + 1);
                } else if i == 2 {
                    assert(p.x == q.x + 1);
                } else {
                    assert(p.y == q.y + 1);
                }
            }
        }
    }
}

pub open spec fn four_offsets() -> Seq<Offset> {
    seq![
        Offset { dx: 0i32, dy: 1i32 },
        Offset { dx: 1i32, dy: 0i32 },
        Offset { dx: -1i32, dy: 0i32 },
        Offset { dx: 0i32, dy: -1i32 },
    ]
}

pub open spec fn eight_offsets() -> Seq<Offset> {
    four_offsets() + seq![
        Offset { dx: 1i32, dy: 1i32 },
        Offset { dx: 1i32, dy: -1i32 },
        Offset { dx: -1i32, dy: 1i32 },
        Offset { dx: -1i32, dy: -1i32 },
    ]
}

/// Down, right, left, up: the order in which both strategies look around.
pub fn offsets_4() -> (r: Vec<Offset>)
    ensures
        r@ == four_offsets(),
{
    let r = vec![
        Offset { dx: 0, dy: 1 },
        Offset { dx: 1, dy: 0 },
        Offset { dx: -1, dy: 0 },
        Offset { dx: 0, dy: -1 },
    ];
    assert(r@ =~= four_offsets());
    r
}

pub fn offsets_8() -> (r: Vec<Offset>)
    ensures
        r@ == eight_offsets(),
{
    let r = vec![
        Offset { dx: 0, dy: 1 },
        Offset { dx: 1, dy: 0 },
        Offset { dx: -1, dy: 0 },
        Offset { dx: 0, dy: -1 },
        Offset { dx: 1, dy: 1 },
        Offset { dx: 1, dy: -1 },
        Offset { dx: -1, dy: 1 },
        Offset { dx: -1, dy: -1 },
    ];
    assert(r@ =~= eight_offsets());
    r
}

} // verus!
