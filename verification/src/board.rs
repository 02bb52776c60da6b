//! The board: grid dimensions plus the set of alive cells.

use rand::Rng;
use vstd::prelude::*;

verus! {

broadcast use vstd::seq_lib::group_seq_properties;

/// Relies on rand::thread_rng and rand::Rng::gen::<bool>: one independent
/// draw from the thread-local generator, true or false equally likely.
/// Nothing is assumed about the outcome.
#[verifier::external_body]
fn coin() -> bool {
    rand::thread_rng().gen()
}

/// The coordinates already visited by a row-major sweep that stands at
/// column `x`, row `y`: every earlier column, and the earlier rows of `x`.
spec fn row_major_before(x: int, y: int, c: Cell) -> bool {
    0 <= c.x && 0 <= c.y && (c.x < x || (c.x == x && c.y < y))
}

/// A grid coordinate. Identity is by value; a `Cell` need not lie inside any
/// particular board.
#[derive(Debug, PartialEq, Eq, Structural, Clone, Copy)]
pub struct Cell {
    pub x: i32,
    pub y: i32,
}

/// The one failure the board can report: a non-positive width or height.
#[derive(Debug, PartialEq, Eq, Structural, Clone, Copy)]
pub enum BoardError {
    InvalidDimension,
}

/// Chebyshev distance between two coordinates: the larger of the two
/// axis-wise absolute differences.
pub open spec fn chebyshev(c: Cell, d: Cell) -> int {
    vstd::math::max(
        vstd::math::abs(c.x - d.x) as int,
        vstd::math::abs(c.y - d.y) as int,
    )
}

/// `d` lies in the Moore neighbourhood of `c`: at Chebyshev distance exactly
/// one, which excludes `c` itself.
pub open spec fn is_neighbour(c: Cell, d: Cell) -> bool {
    chebyshev(c, d) == 1
}

/// The predicate that picks the Moore neighbours of `c`.
pub open spec fn neighbour_pred(c: Cell) -> spec_fn(Cell) -> bool {
    |d: Cell| is_neighbour(c, d)
}

/// Applying the neighbour predicate is testing for Moore adjacency.
pub broadcast proof fn lemma_neighbour_pred(c: Cell, d: Cell)
    ensures
        #[trigger] neighbour_pred(c)(d) == is_neighbour(c, d),
{
}

/// Filtering a duplicate-free sequence leaves it duplicate-free.
proof fn lemma_filter_no_duplicates<A>(s: Seq<A>, p: spec_fn(A) -> bool)
    requires
        s.no_duplicates(),
    ensures
        s.filter(p).no_duplicates(),
    decreases s.len(),
{
    reveal(Seq::filter);
    if s.len() != 0 {
        let rest = s.drop_last();
        let last = s.last();
        lemma_filter_no_duplicates(rest, p);
        if p(last) {
            if rest.filter(p).contains(last) {
                rest.lemma_filter_contains_rev(p, last);
                assert(false);
            }
            let out = rest.filter(p).push(last);
            assert forall|i: int, j: int|
                0 <= i < out.len() && 0 <= j < out.len() && i != j implies out[i] != out[j] by {
                if i < out.len() - 1 && j < out.len() - 1 {
                    assert(out[i] == rest.filter(p)[i]);
                    assert(out[j] == rest.filter(p)[j]);
                } else if j == out.len() - 1 {
                    assert(!rest.filter(p).contains(last));
                    assert(out[i] == rest.filter(p)[i]);
                } else {
                    assert(!rest.filter(p).contains(last));
                    assert(out[j] == rest.filter(p)[j]);
                }
            }
        }
    }
}

/// Filtering a sequence and turning it into a set is the same as turning it
/// into a set and filtering that.
proof fn lemma_filter_to_set<A>(s: Seq<A>, p: spec_fn(A) -> bool)
    ensures
        s.filter(p).to_set() == s.to_set().filter(p),
{
    assert forall|x: A| #[trigger] s.filter(p).to_set().contains(x)
        implies s.to_set().filter(p).contains(x) by {
        let i = choose|i: int| 0 <= i < s.filter(p).len() && s.filter(p)[i] == x;
        s.lemma_filter_pred(p, i);
        s.lemma_filter_contains_rev(p, x);
    }
    assert forall|x: A| #[trigger] s.to_set().filter(p).contains(x)
        implies s.filter(p).to_set().contains(x) by {
        let i = choose|i: int| 0 <= i < s.len() && s[i] == x;
        s.lemma_filter_contains(p, i);
        assert(s.filter(p).contains(x));
    }
    assert(s.filter(p).to_set() =~= s.to_set().filter(p));
}

/// A bounded grid with a duplicate-free collection of alive cells, each
/// within `[0, width) x [0, height)`.
#[derive(Debug)]
pub struct Board {
    cells: Vec<Cell>,
    width: i32,
    height: i32,
}

impl Board {
    /// Every alive cell is in bounds, no cell occurs twice, and both
    /// dimensions are positive.
    #[verifier::type_invariant]
    spec fn wf(self) -> bool {
        &&& 0 < self.width
        &&& 0 < self.height
        &&& forall|i: int|
            0 <= i < self.cells@.len() ==> self.in_bounds(#[trigger] self.cells@[i])
        &&& self.cells@.no_duplicates()
    }

    /// The grid width, as seen by specifications.
    pub closed spec fn spec_width(&self) -> i32 {
        self.width
    }

    /// The grid height, as seen by specifications.
    pub closed spec fn spec_height(&self) -> i32 {
        self.height
    }

    /// The coordinate lies within `[0, width) x [0, height)`.
    pub open spec fn in_bounds(self, c: Cell) -> bool {
        0 <= c.x < self.spec_width() && 0 <= c.y < self.spec_height()
    }

    /// The set of alive cells.
    pub closed spec fn alive(self) -> Set<Cell> {
        self.cells@.to_set()
    }

    /// The alive cells in the Moore neighbourhood of `c`.
    pub open spec fn live_neighbours(self, c: Cell) -> Set<Cell> {
        self.alive().filter(neighbour_pred(c))
    }

    /// How many alive cells surround `c`.
    pub open spec fn neighbour_count(self, c: Cell) -> nat {
        self.live_neighbours(c).len()
    }

    /// The grid width. Always positive.
    #[verifier::when_used_as_spec(spec_width)]
    pub fn width(&self) -> (w: i32)
        ensures
            w == self.spec_width(),
            w > 0,
    {
        proof {
            use_type_invariant(self);
        }
        self.width
    }

    /// The grid height. Always positive.
    #[verifier::when_used_as_spec(spec_height)]
    pub fn height(&self) -> (h: i32)
        ensures
            h == self.spec_height(),
            h > 0,
    {
        proof {
            use_type_invariant(self);
        }
        self.height
    }

    /// Every alive cell whose Chebyshev distance from `cell` is exactly one:
    /// the up-to-eight alive cells of the Moore neighbourhood. `cell` itself
    /// is never returned, and `cell` need not be alive or in bounds.
    pub fn neighbours(&self, cell: &Cell) -> (r: Vec<Cell>)
        ensures
            r@.to_set() == self.live_neighbours(*cell),
            r@.no_duplicates(),
            r@.len() == self.neighbour_count(*cell),
            forall|i: int|
                0 <= i < r@.len() ==> is_neighbour(*cell, #[trigger] r@[i])
                    && self.alive().contains(r@[i]),
            !r@.contains(*cell),
    {
        let ghost pred = neighbour_pred(*cell);
        let mut r: Vec<Cell> = Vec::new();
        let mut i: usize = 0;
        while i < self.cells.len()
            invariant
                pred == neighbour_pred(*cell),
                i <= self.cells@.len(),
                r@ == self.cells@.take(i as int).filter(pred),
            decreases self.cells@.len() - i,
        {
            let c = self.cells[i];
            let dx = c.x as i64 - cell.x as i64;
            let dy = c.y as i64 - cell.y as i64;
            let adx = if dx < 0 { -dx } else { dx };
            let ady = if dy < 0 { -dy } else { dy };
            let md = if adx > ady { adx } else { ady };
            if md == 1 {
                r.push(c);
            }
            proof {
                let prefix = self.cells@.take(i as int);
                let cc = self.cells@[i as int];
                lemma_neighbour_pred(*cell, cc);
                assert(pred(cc) == is_neighbour(*cell, cc));
                assert((md == 1) == is_neighbour(*cell, cc));
                assert(self.cells@.take(i + 1) =~= prefix.push(cc));
                prefix.lemma_filter_push(cc, pred);
                assert(r@ == self.cells@.take(i + 1).filter(pred));
            }
            i = i + 1;
        }
        proof {
            use_type_invariant(self);
            assert(self.cells@.take(self.cells@.len() as int) =~= self.cells@);
            lemma_filter_no_duplicates(self.cells@, pred);
            lemma_filter_to_set(self.cells@, pred);
            r@.unique_seq_to_set();
            assert forall|i: int|
                0 <= i < r@.len() implies is_neighbour(*cell, #[trigger] r@[i])
                    && self.alive().contains(r@[i]) by {
                assert(r@.contains(r@[i]));
                assert(r@.to_set().contains(r@[i]));
                assert(self.live_neighbours(*cell).contains(r@[i]));
                assert(self.alive().contains(r@[i]) && pred(r@[i]));
                assert(pred(r@[i]) == is_neighbour(*cell, r@[i]));
            }
            if r@.contains(*cell) {
                let j = choose|j: int| 0 <= j < r@.len() && r@[j] == *cell;
                self.cells@.lemma_filter_pred(pred, j);
                assert(false);
            }
        }
        r
    }

    /// Whether the given coordinate is alive in this board.
    pub fn is_alive(&self, cell: &Cell) -> (r: bool)
        ensures
            r == self.alive().contains(*cell),
    {
        let mut i: usize = 0;
        while i < self.cells.len()
            invariant
                i <= self.cells@.len(),
                forall|j: int| 0 <= j < i ==> self.cells@[j] != *cell,
            decreases self.cells@.len() - i,
        {
            if self.cells[i].x == cell.x && self.cells[i].y == cell.y {
                proof {
                    assert(self.cells@.contains(*cell));
                }
                return true;
            }
            i = i + 1;
        }
        proof {
            assert(!self.cells@.contains(*cell));
        }
        false
    }

    /// The alive cells, without duplicates, for a caller to enumerate.
    /// Every cell returned is in bounds.
    pub fn alive_cells(&self) -> (r: &Vec<Cell>)
        ensures
            r@.to_set() == self.alive(),
            r@.no_duplicates(),
            forall|i: int| 0 <= i < r@.len() ==> self.in_bounds(#[trigger] r@[i]),
    {
        proof {
            use_type_invariant(self);
        }
        &self.cells
    }

    /// Builds a board from parts that the caller has already shown valid:
    /// positive dimensions and a duplicate-free, in-bounds cell collection.
    pub(crate) fn from_cells(width: i32, height: i32, cells: Vec<Cell>) -> (b: Board)
        requires
            0 < width,
            0 < height,
            forall|i: int|
                0 <= i < cells@.len() ==> 0 <= (#[trigger] cells@[i]).x < width
                    && 0 <= cells@[i].y < height,
            cells@.no_duplicates(),
        ensures
            b.spec_width() == width,
            b.spec_height() == height,
            b.alive() == cells@.to_set(),
    {
        Board { cells, width, height }
    }

    /// Builds a board of the given dimensions with exactly the given cells
    /// alive. Fails with [`BoardError::InvalidDimension`] when either
    /// dimension is not positive.
    pub fn new(width: i32, height: i32, cells: Vec<Cell>) -> (r: Result<Board, BoardError>)
        requires
            forall|i: int|
                0 <= i < cells@.len() ==> 0 <= (#[trigger] cells@[i]).x < width
                    && 0 <= cells@[i].y < height,
            cells@.no_duplicates(),
        ensures
            (0 < width && 0 < height) <==> r is Ok,
            !(0 < width && 0 < height) ==> r == Err::<Board, BoardError>(
                BoardError::InvalidDimension,
            ),
            r matches Ok(b) ==> b.spec_width() == width && b.spec_height() == height
                && b.alive() == cells@.to_set(),
    {
        if width <= 0 || height <= 0 {
            return Err(BoardError::InvalidDimension);
        }
        Ok(Board::from_cells(width, height, cells))
    }

    /// Builds a board of the given dimensions from one coin per coordinate,
    /// read in row-major order: `(x, y)` is alive exactly when
    /// `coins[x * height + y]` is true. Fails with
    /// [`BoardError::InvalidDimension`] when either dimension is not positive.
    pub fn from_coins(width: i32, height: i32, coins: &Vec<bool>) -> (r: Result<
        Board,
        BoardError,
    >)
        requires
            0 < width && 0 < height ==> coins@.len() == width * height,
        ensures
            (0 < width && 0 < height) <==> r is Ok,
            !(0 < width && 0 < height) ==> r == Err::<Board, BoardError>(
                BoardError::InvalidDimension,
            ),
            r matches Ok(b) ==> b.spec_width() == width && b.spec_height() == height
                && forall|c: Cell|
                    b.alive().contains(c) <==> (0 <= c.x < width && 0 <= c.y < height
                        && coins@[c.x * height + c.y]),
    {
        if width <= 0 || height <= 0 {
            return Err(BoardError::InvalidDimension);
        }
        let mut cells: Vec<Cell> = Vec::new();
        let mut idx: usize = 0;
        let mut x: i32 = 0;
        while x < width
            invariant
                0 < width,
                0 < height,
                coins@.len() == width * height,
                0 <= x <= width,
                idx == x * height,
                forall|i: int|
                    0 <= i < cells@.len() ==> 0 <= (#[trigger] cells@[i]).x < width
                        && 0 <= cells@[i].y < height,
                cells@.no_duplicates(),
                forall|c: Cell|
                    cells@.contains(c) <==> (row_major_before(x as int, 0, c)
                        && c.y < height && coins@[c.x * height + c.y]),
            decreases width - x,
        {
            let mut y: i32 = 0;
            while y < height
                invariant
                    0 < width,
                    0 < height,
                    coins@.len() == width * height,
                    0 <= x < width,
                    0 <= y <= height,
                    idx == x * height + y,
                    forall|i: int|
                        0 <= i < cells@.len() ==> 0 <= (#[trigger] cells@[i]).x < width
                            && 0 <= cells@[i].y < height,
                    cells@.no_duplicates(),
                    forall|c: Cell|
                        cells@.contains(c) <==> (row_major_before(x as int, y as int, c)
                            && c.y < height && coins@[c.x * height + c.y]),
                decreases height - y,
            {
                proof {
                    assert(x * height + y < width * height) by (nonlinear_arith)
                        requires
                            0 <= x < width,
                            0 <= y < height,
                    ;
                }
                let ghost s0 = cells@;
                let flip = coins[idx];
                let cv = Cell { x, y };
                if flip {
                    proof {
                        assert(!cells@.contains(cv));
                    }
                    cells.push(cv);
                }
                proof {
                    if flip {
                        assert(cells@ == s0.push(cv));
                        assert(cells@.no_duplicates()) by {
                            assert(!s0.contains(cv));
                            assert(forall|j: int| 0 <= j < s0.len() ==> s0[j] != cv);
                            assert(forall|j: int|
                                0 <= j < s0.len() ==> cells@[j] == s0[j]);
                        }
                    }
                    assert forall|c: Cell|
                        cells@.contains(c) <==> (row_major_before(x as int, y + 1, c)
                            && c.y < height && coins@[c.x * height + c.y]) by {
                        if c == cv {
                            if flip {
                                assert(cells@[s0.len() as int] == cv);
                                assert(cells@.contains(cv));
                            } else {
                                if cells@.contains(c) {
                                    assert(row_major_before(x as int, y as int, c));
                                    assert(false);
                                }
                            }
                        } else {
                            if flip {
                                assert(cells@.contains(c) <==> s0.contains(c));
                            }
                        }
                    }
                }
                proof {
                    assert(coins.len() == coins@.len());
                    assert(idx < coins@.len());
                }
                idx = idx + 1;
                y = y + 1;
            }
            proof {
                assert forall|c: Cell|
                    cells@.contains(c) <==> (row_major_before(x + 1, 0, c)
                        && c.y < height && coins@[c.x * height + c.y]) by {
                    assert(row_major_before(x + 1, 0, c) == (row_major_before(
                        x as int,
                        height as int,
                        c,
                    ) || (c.x == x && 0 <= c.y && c.y >= height)));
                }
                assert((x + 1) * height == x * height + height) by (nonlinear_arith);
            }
            x = x + 1;
        }
        let b = Board::from_cells(width, height, cells);
        proof {
            assert forall|c: Cell|
                b.alive().contains(c) <==> (0 <= c.x < width && 0 <= c.y < height
                    && coins@[c.x * height + c.y]) by {
                assert(b.alive().contains(c) == cells@.contains(c));
            }
        }
        Ok(b)
    }

    /// Builds a board of the given dimensions by flipping an independent fair
    /// coin for every coordinate. Fails with
    /// [`BoardError::InvalidDimension`] when either dimension is not positive.
    pub fn random(width: i32, height: i32) -> (r: Result<Board, BoardError>)
        ensures
            (0 < width && 0 < height) <==> r is Ok,
            !(0 < width && 0 < height) ==> r == Err::<Board, BoardError>(
                BoardError::InvalidDimension,
            ),
            r matches Ok(b) ==> b.spec_width() == width && b.spec_height() == height
                && forall|c: Cell| #[trigger] b.alive().contains(c) ==> b.in_bounds(c),
    {
        if width <= 0 || height <= 0 {
            return Err(BoardError::InvalidDimension);
        }
        let mut coins: Vec<bool> = Vec::new();
        let mut x: i32 = 0;
        while x < width
            invariant
                0 < width,
                0 < height,
                0 <= x <= width,
                coins@.len() == x * height,
            decreases width - x,
        {
            let mut y: i32 = 0;
            while y < height
                invariant
                    0 < height,
                    0 <= y <= height,
                    coins@.len() == x * height + y,
                decreases height - y,
            {
                coins.push(coin());
                y = y + 1;
            }
            proof {
                assert((x + 1) * height == x * height + height) by (nonlinear_arith);
            }
            x = x + 1;
        }
        match Board::from_coins(width, height, &coins) {
            Ok(b) => Ok(b),
            Err(e) => Err(e),
        }
    }
}

} // verus!
