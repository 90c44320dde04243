use vstd::prelude::*;
use vstd::arithmetic::div_mod::{lemma_fundamental_div_mod, lemma_fundamental_div_mod_converse, lemma_mod_bound};

use crate::rng::{rng_fresh, rng_with_seed};
use crate::tile::{Prob, Tile, TileStatus, PROB_MAX};

verus! {

/// The largest number of cells a board may have.
pub const MAX_CELLS: u64 = 0x8000_0000;

/// Why an operation on a board was refused; the board is left unchanged.
#[derive(Clone, Copy, Debug, PartialEq, Eq, Structural)]
pub enum FieldError {
    /// The coordinates lie outside the board.
    BadCoord,
    /// The tile is opened or flagged.
    NotHidden,
    /// The tile, or its group, has already been measured.
    AlreadyMeasured,
    /// A group would have no member or more than four.
    BadGroupSize,
    /// More groups are asked for than there are free cells, or than group ids allow.
    TooManyGroups,
    /// The first click lies outside the board.
    BadFirstClick,
}

/// What a board holds, without its random generator.
pub struct FieldView {
    pub width: u32,
    pub height: u32,
    pub tiles: Seq<Tile>,
}

/// The offsets of the eight neighbours of a cell, in the order the board visits them.
pub open spec fn direction(k: int) -> (int, int) {
    if k == 0 {
        (1, 0)
    } else if k == 1 {
        (-1, 0)
    } else if k == 2 {
        (0, 1)
    } else if k == 3 {
        (0, -1)
    } else if k == 4 {
        (1, 1)
    } else if k == 5 {
        (1, -1)
    } else if k == 6 {
        (-1, 1)
    } else {
        (-1, -1)
    }
}

/// Indices below `n` whose tile belongs to group `g`, in increasing order.
pub open spec fn group_indices(tiles: Seq<Tile>, g: i8, n: nat) -> Seq<int>
    decreases n,
{
    if n == 0 {
        Seq::empty()
    } else {
        let rest = group_indices(tiles, g, (n - 1) as nat);
        if tiles[n - 1].group_id == g {
            rest.push(n - 1)
        } else {
            rest
        }
    }
}

/// A won board is fully resolved: every probability is a certain mine or a certain blank, and,
/// where the board invariants hold, every blank has been opened and measured.
pub proof fn lemma_win_resolved(v: FieldView)
    requires
        v.is_win(),
    ensures
        forall|i: int|
            0 <= i < v.tiles.len() ==> #[trigger] v.tiles[i].prob.0 == 0 || v.tiles[i].prob.0 == 12,
        v.board_ok() ==> forall|i: int|
            0 <= i < v.tiles.len() && #[trigger] v.tiles[i].prob.0 == 0 ==> v.tiles[i].measured
                && v.tiles[i].status == TileStatus::Opened,
{
    assert forall|i: int| 0 <= i < v.tiles.len() implies #[trigger] v.tiles[i].prob.0 == 0
        || v.tiles[i].prob.0 == 12 by {
        assert(tile_won(v.tiles[i]));
    }
    if v.board_ok() {
        assert forall|i: int| 0 <= i < v.tiles.len() && #[trigger] v.tiles[i].prob.0 == 0 implies v.tiles[i].measured
            && v.tiles[i].status == TileStatus::Opened by {
            assert(tile_won(v.tiles[i]));
        }
    }
}

/// Elements of `group_indices` are increasing indices below `n` of members of `g`, and every
/// such member is listed.
pub proof fn lemma_group_indices(tiles: Seq<Tile>, g: i8, n: nat)
    requires
        n <= tiles.len(),
    ensures
        forall|k: int|
            0 <= k < group_indices(tiles, g, n).len() ==> 0 <= #[trigger] group_indices(tiles, g, n)[k]
                < n && tiles[group_indices(tiles, g, n)[k]].group_id == g,
        forall|a: int, b: int|
            0 <= a < b < group_indices(tiles, g, n).len() ==> #[trigger] group_indices(tiles, g, n)[a]
                < #[trigger] group_indices(tiles, g, n)[b],
        forall|i: int|
            0 <= i < n && #[trigger] tiles[i].group_id == g ==> group_indices(tiles, g, n).contains(i),
    decreases n,
{
    if n > 0 {
        lemma_group_indices(tiles, g, (n - 1) as nat);
        let rest = group_indices(tiles, g, (n - 1) as nat);
        if tiles[n - 1].group_id == g {
            assert forall|i: int| 0 <= i < n && #[trigger] tiles[i].group_id == g implies group_indices(
                tiles,
                g,
                n,
            ).contains(i) by {
                if i < n - 1 {
                    let k = choose|k: int| 0 <= k < rest.len() && rest[k] == i;
                    assert(group_indices(tiles, g, n)[k] == i);
                } else {
                    assert(group_indices(tiles, g, n)[rest.len() as int] == i);
                }
            }
        } else {
            assert forall|i: int| 0 <= i < n && #[trigger] tiles[i].group_id == g implies group_indices(
                tiles,
                g,
                n,
            ).contains(i) by {
                assert(i < n - 1);
            }
        }
    }
}

/// The members listed below `a` open the list of those below `b`.
pub proof fn lemma_group_indices_prefix(tiles: Seq<Tile>, g: i8, a: nat, b: nat)
    requires
        a <= b <= tiles.len(),
    ensures
        group_indices(tiles, g, a).len() <= group_indices(tiles, g, b).len(),
        forall|k: int|
            0 <= k < group_indices(tiles, g, a).len() ==> #[trigger] group_indices(tiles, g, b)[k]
                == group_indices(tiles, g, a)[k],
    decreases b - a,
{
    if a < b {
        lemma_group_indices_prefix(tiles, g, a, (b - 1) as nat);
    }
}

/// Membership lists depend on the group ids alone.
pub proof fn lemma_group_indices_same(t1: Seq<Tile>, t2: Seq<Tile>, g: i8, n: nat)
    requires
        n <= t1.len(),
        n <= t2.len(),
        forall|i: int| 0 <= i < n ==> #[trigger] t1[i].group_id == t2[i].group_id,
    ensures
        group_indices(t1, g, n) == group_indices(t2, g, n),
    decreases n,
{
    if n > 0 {
        lemma_group_indices_same(t1, t2, g, (n - 1) as nat);
    }
}

/// Boards with the same group ids have the same member lists.
pub proof fn lemma_members_same(a: FieldView, b: FieldView)
    requires
        a.tiles.len() == b.tiles.len(),
        forall|i: int| 0 <= i < a.tiles.len() ==> #[trigger] a.tiles[i].group_id == b.tiles[i].group_id,
    ensures
        forall|g: i8| #[trigger] a.members(g) == b.members(g),
{
    assert forall|g: i8| #[trigger] a.members(g) == b.members(g) by {
        lemma_group_indices_same(a.tiles, b.tiles, g, a.tiles.len());
    }
}

/// Cells with their coordinates read as mathematical integers.
pub open spec fn int_cells(s: Seq<(i32, i32)>) -> Seq<(int, int)> {
    s.map_values(|c: (i32, i32)| (c.0 as int, c.1 as int))
}

/// Probability (in twelfths) that a group of `size` cells puts its mine on a given member.
pub open spec fn size_prob(size: int) -> int {
    if size == 1 {
        12
    } else if size == 2 {
        6
    } else if size == 3 {
        4
    } else if size == 4 {
        3
    } else {
        0
    }
}

/// Whether a tile is settled as a player who has won would leave it.
pub open spec fn tile_won(t: Tile) -> bool {
    ||| t.prob.0 == 0 && t.status == TileStatus::Opened
    ||| t.prob.0 == 12 && t.status == TileStatus::Flag
}

impl FieldView {
    /// The tiles fill the grid row by row, and their count fits in `usize`.
    pub open spec fn wf(self) -> bool {
        &&& self.tiles.len() == self.width * self.height
        &&& self.width * self.height <= usize::MAX
    }

    /// Every cell has coordinates that fit in `i32`: the board is empty, or neither side is
    /// longer than 2^31 (as on every board of at most 2^31 cells).
    pub open spec fn addressable(self) -> bool {
        self.width * self.height == 0 || (self.width <= 0x8000_0000 && self.height <= 0x8000_0000)
    }

    pub open spec fn in_bounds(self, x: int, y: int) -> bool {
        0 <= x < self.width && 0 <= y < self.height
    }

    /// Row-major index of a cell.
    pub open spec fn index(self, x: int, y: int) -> int {
        y * self.width + x
    }

    /// The cell of a row-major index.
    pub open spec fn coords(self, i: int) -> (int, int) {
        (i % (self.width as int), i / (self.width as int))
    }

    pub open spec fn tile(self, x: int, y: int) -> Tile {
        self.tiles[self.index(x, y)]
    }

    pub open spec fn prob_or_zero(self, x: int, y: int) -> int {
        if self.in_bounds(x, y) {
            self.tile(x, y).prob.0 as int
        } else {
            0
        }
    }

    /// Sum of the probabilities of the in-bounds cells among the first `k` neighbours.
    pub open spec fn around_partial(self, x: int, y: int, k: int) -> int
        decreases k,
    {
        if k <= 0 {
            0
        } else {
            self.around_partial(x, y, k - 1) + self.prob_or_zero(
                x + direction(k - 1).0,
                y + direction(k - 1).1,
            )
        }
    }

    /// Sum of the probabilities of the in-bounds neighbours of (x, y).
    pub open spec fn around_sum(self, x: int, y: int) -> int {
        self.around_partial(x, y, 8)
    }

    /// Row-major indices of the members of group `g`.
    pub open spec fn members(self, g: i8) -> Seq<int> {
        group_indices(self.tiles, g, self.tiles.len())
    }

    /// Row-major cells of the members of group `g`.
    pub open spec fn group_cells(self, g: i8) -> Seq<(int, int)> {
        self.members(g).map_values(|i: int| self.coords(i))
    }

    /// The invariants every operation keeps: a measured tile is a certain mine or a certain
    /// blank, an opened tile is measured, an unmeasured lone tile is blank, the members of a
    /// group are measured together; before that each holds the probability the size of its
    /// group gives, after it exactly one of them is a certain mine.
    pub open spec fn board_ok(self) -> bool {
        &&& forall|i: int|
            0 <= i < self.tiles.len() && #[trigger] self.tiles[i].measured ==> self.tiles[i].prob.0
                == 0 || self.tiles[i].prob.0 == 12
        &&& forall|i: int|
            0 <= i < self.tiles.len() && #[trigger] self.tiles[i].status == TileStatus::Opened
                ==> self.tiles[i].measured
        &&& forall|i: int|
            0 <= i < self.tiles.len() && #[trigger] self.tiles[i].group_id == -1
                && !self.tiles[i].measured ==> self.tiles[i].prob.0 == 0
        &&& forall|i: int, j: int|
            0 <= i < self.tiles.len() && 0 <= j < self.tiles.len() && #[trigger] self.tiles[i].group_id
                == #[trigger] self.tiles[j].group_id && self.tiles[i].group_id != -1
                ==> self.tiles[i].measured == self.tiles[j].measured
        &&& forall|i: int|
            0 <= i < self.tiles.len() && #[trigger] self.tiles[i].group_id != -1
                && !self.tiles[i].measured ==> self.members(self.tiles[i].group_id).len() <= 4
                && self.tiles[i].prob.0 == size_prob(
                self.members(self.tiles[i].group_id).len() as int,
            )
        &&& forall|i: int|
            0 <= i < self.tiles.len() && #[trigger] self.tiles[i].group_id != -1
                && self.tiles[i].measured ==> self.has_mine(self.tiles[i].group_id)
        &&& forall|i: int, j: int|
            0 <= i < self.tiles.len() && 0 <= j < self.tiles.len() && #[trigger] self.tiles[i].group_id
                == #[trigger] self.tiles[j].group_id && self.tiles[i].group_id != -1
                && self.tiles[i].prob.0 == 12 && self.tiles[j].prob.0 == 12 && self.tiles[i].measured
                ==> i == j
    }

    /// Some member of group `g` is a certain mine.
    pub open spec fn has_mine(self, g: i8) -> bool {
        exists|m: int| 0 <= m < self.tiles.len() && #[trigger] self.tiles[m].group_id == g && self.tiles[m].prob.0 == 12
    }

    /// Every opened tile is measured.
    pub open spec fn opened_measured(self) -> bool {
        forall|i: int|
            0 <= i < self.tiles.len() && #[trigger] self.tiles[i].status == TileStatus::Opened
                ==> self.tiles[i].measured
    }

    pub open spec fn is_win(self) -> bool {
        forall|i: int| 0 <= i < self.tiles.len() ==> tile_won(#[trigger] self.tiles[i])
    }
}

/// A Minesweeper board with entangled mines.
pub struct Field {
    pub width: u32,
    pub height: u32,
    pub tiles: Vec<Tile>,
    pub rng: fastrand::Rng,
}

impl View for Field {
    type V = FieldView;

    open spec fn view(&self) -> FieldView {
        FieldView { width: self.width, height: self.height, tiles: self.tiles@ }
    }
}

/// The row-major index of an in-bounds cell lies in the grid and leads back to the cell.
pub proof fn lemma_index_coords(x: int, y: int, w: int, h: int)
    requires
        0 <= x < w,
        0 <= y < h,
    ensures
        0 <= y * w + x < w * h,
        (y * w + x) % w == x,
        (y * w + x) / w == y,
{
    assert(y * w + x < w * h) by (nonlinear_arith)
        requires
            0 <= x < w,
            0 <= y < h,
    ;
    assert(0 <= y * w) by (nonlinear_arith)
        requires
            0 <= y,
            0 <= w,
    ;
    lemma_fundamental_div_mod_converse(y * w + x, w, y, x);
}

/// The cell of an index in the grid is in bounds and has that index.
pub proof fn lemma_coords_index(i: int, w: int, h: int)
    requires
        0 <= i < w * h,
        0 <= w,
        0 <= h,
    ensures
        w > 0,
        0 <= i % w < w,
        0 <= i / w < h,
        (i / w) * w + i % w == i,
{
    if w <= 0 {
        assert(w * h <= 0) by (nonlinear_arith)
            requires
                w == 0,
        ;
    }
    lemma_fundamental_div_mod(i, w);
    lemma_mod_bound(i, w);
    assert((i / w) * w == w * (i / w)) by (nonlinear_arith);
    assert(0 <= i / w < h) by (nonlinear_arith)
        requires
            0 <= i < w * h,
            w > 0,
            i == w * (i / w) + i % w,
            0 <= i % w < w,
    ;
}

/// Offset number `k` of the neighbourhood.
pub fn direction_at(k: usize) -> (r: (i64, i64))
    requires
        k < 8,
    ensures
        r.0 == direction(k as int).0,
        r.1 == direction(k as int).1,
{
    if k == 0 {
        (1, 0)
    } else if k == 1 {
        (-1, 0)
    } else if k == 2 {
        (0, 1)
    } else if k == 3 {
        (0, -1)
    } else if k == 4 {
        (1, 1)
    } else if k == 5 {
        (1, -1)
    } else if k == 6 {
        (-1, 1)
    } else {
        (-1, -1)
    }
}

/// Row-major index of a cell known to be in bounds.
pub(crate) fn index_of(v: &Field, x: i64, y: i64) -> (r: usize)
    requires
        v@.wf(),
        v@.in_bounds(x as int, y as int),
    ensures
        r as int == v@.index(x as int, y as int),
        r < v@.tiles.len(),
{
    proof {
        lemma_index_coords(x as int, y as int, v.width as int, v.height as int);
        assert(0 <= y * v.width) by (nonlinear_arith)
            requires
                0 <= y,
        ;
    }
    (y as usize) * (v.width as usize) + (x as usize)
}

/// A board of at most 2^31 cells is addressable.
pub proof fn lemma_small_addressable(v: FieldView)
    requires
        v.width * v.height <= MAX_CELLS,
    ensures
        v.addressable(),
{
    if v.width * v.height != 0 {
        assert(v.width <= v.width * v.height && v.height <= v.width * v.height) by (nonlinear_arith)
            requires
                v.width * v.height != 0,
                v.width >= 0,
                v.height >= 0,
        ;
    }
}

impl Field {
    fn with_rng(width: u32, height: u32, rng: fastrand::Rng) -> (r: Field)
        requires
            width * height <= MAX_CELLS,
        ensures
            r@.wf(),
            r@.addressable(),
            r@.width == width,
            r@.height == height,
            forall|i: int| 0 <= i < r@.tiles.len() ==> #[trigger] r@.tiles[i] == Tile::empty_spec(),
    {
        let total: usize = (width as u64 * height as u64) as usize;
        let mut tiles: Vec<Tile> = Vec::new();
        let mut i: usize = 0;
        while i < total
            invariant
                i <= total,
                tiles@.len() == i,
                forall|j: int| 0 <= j < i ==> #[trigger] tiles@[j] == Tile::empty_spec(),
            decreases total - i,
        {
            tiles.push(Tile::new());
            i = i + 1;
        }
        let r = Field { width, height, tiles, rng };
        proof {
            lemma_small_addressable(r@);
        }
        r
    }

    /// An empty board: every tile hidden, unmeasured, outside all groups. Its generator is
    /// seeded from fastrand's thread-local one.
    pub fn new(width: u32, height: u32) -> (r: Field)
        requires
            width * height <= MAX_CELLS,
        ensures
            r@.wf(),
            r@.addressable(),
            r@.width == width,
            r@.height == height,
            forall|i: int| 0 <= i < r@.tiles.len() ==> #[trigger] r@.tiles[i] == Tile::empty_spec(),
            r@.board_ok(),
    {
        Field::with_rng(width, height, rng_fresh())
    }

    /// An empty board whose random choices are fixed by `seed`.
    pub fn with_seed(width: u32, height: u32, seed: u64) -> (r: Field)
        requires
            width * height <= MAX_CELLS,
        ensures
            r@.wf(),
            r@.addressable(),
            r@.width == width,
            r@.height == height,
            forall|i: int| 0 <= i < r@.tiles.len() ==> #[trigger] r@.tiles[i] == Tile::empty_spec(),
            r@.board_ok(),
    {
        Field::with_rng(width, height, rng_with_seed(seed))
    }

    /// Whether every cell has coordinates that fit in `i32`.
    pub fn is_addressable(&self) -> (r: bool)
        ensures
            r == self@.addressable(),
    {
        proof {
            assert((self.width == 0 || self.height == 0) <==> self.width * self.height == 0) by (nonlinear_arith);
        }
        self.width == 0 || self.height == 0 || (self.width <= 0x8000_0000 && self.height <= 0x8000_0000)
    }

    pub fn width(&self) -> (r: u32)
        ensures
            r == self@.width,
    {
        self.width
    }

    pub fn height(&self) -> (r: u32)
        ensures
            r == self@.height,
    {
        self.height
    }
}


/// Queries and small edits on a board.
pub trait MiscMethods: View<V = FieldView> + Sized {
    fn is_inside_bounds(&self, x: i32, y: i32) -> (r: bool)
        ensures
            r == self@.in_bounds(x as int, y as int),
    ;

    fn coords_to_index(&self, x: i32, y: i32) -> (r: Option<usize>)
        requires
            self@.wf(),
        ensures
            self@.in_bounds(x as int, y as int) ==> r == Some(
                self@.index(x as int, y as int) as usize,
            ),
            !self@.in_bounds(x as int, y as int) ==> r is None,
    ;

    fn get_tile(&self, x: i32, y: i32) -> (r: Option<&Tile>)
        requires
            self@.wf(),
        ensures
            self@.in_bounds(x as int, y as int) ==> r == Some(&self@.tile(x as int, y as int)),
            !self@.in_bounds(x as int, y as int) ==> r is None,
    ;

    /// The cells of group `group_id`, row by row.
    fn get_group_elements(&self, group_id: i8) -> (r: Vec<(i32, i32)>)
        requires
            self@.wf(),
            self@.addressable(),
        ensures
            int_cells(r@) == self@.group_cells(group_id),
    ;

    /// Sum of the probabilities of the in-bounds neighbours, saturating at `PROB_MAX`.
    fn around_prob_sum(&self, x: i32, y: i32) -> (r: Prob)
        requires
            self@.wf(),
        ensures
            self@.around_sum(x as int, y as int) <= PROB_MAX ==> r.0 == self@.around_sum(
                x as int,
                y as int,
            ),
            self@.around_sum(x as int, y as int) > PROB_MAX ==> r.0 == PROB_MAX,
    ;

    /// Sets the status of an in-bounds cell; does nothing out of bounds.
    fn set_tile_status(&mut self, x: i32, y: i32, status: TileStatus)
        requires
            old(self)@.wf(),
        ensures
            final(self)@.wf(),
            old(self)@.in_bounds(x as int, y as int) ==> final(self)@ == (FieldView {
                tiles: old(self)@.tiles.update(
                    old(self)@.index(x as int, y as int),
                    Tile { status, ..old(self)@.tile(x as int, y as int) },
                ),
                ..old(self)@
            }),
            !old(self)@.in_bounds(x as int, y as int) ==> final(self)@ == old(self)@,
            old(self)@.board_ok() && status != TileStatus::Opened ==> final(self)@.board_ok(),
    ;

    /// Every blank cell is opened and every mine flagged.
    fn is_win(&self) -> (r: bool)
        ensures
            r == self@.is_win(),
    ;
}

impl MiscMethods for Field {
    fn is_inside_bounds(&self, x: i32, y: i32) -> (r: bool) {
        0 <= x && 0 <= y && (x as i64) < (self.width as i64) && (y as i64) < (self.height as i64)
    }

    fn coords_to_index(&self, x: i32, y: i32) -> (r: Option<usize>) {
        if self.is_inside_bounds(x, y) {
            Some(index_of(self, x as i64, y as i64))
        } else {
            None
        }
    }

    fn get_tile(&self, x: i32, y: i32) -> (r: Option<&Tile>) {
        if self.is_inside_bounds(x, y) {
            let i = index_of(self, x as i64, y as i64);
            Some(&self.tiles[i])
        } else {
            None
        }
    }

    fn get_group_elements(&self, group_id: i8) -> (r: Vec<(i32, i32)>) {
        let mut group: Vec<(i32, i32)> = Vec::new();
        let n = self.tiles.len();
        let w = self.width as usize;
        let mut i: usize = 0;
        while i < n
            invariant
                self@.wf(),
                self@.addressable(),
                n == self@.tiles.len(),
                w == self@.width,
                i <= n,
                int_cells(group@) == group_indices(
                    self@.tiles,
                    group_id,
                    i as nat,
                ).map_values(|j: int| self@.coords(j)),
            decreases n - i,
        {
            let ghost before = group@;
            if self.tiles[i].group_id == group_id {
                proof {
                    lemma_coords_index(i as int, w as int, self.height as int);
                }
                let x = (i % w) as i32;
                let y = (i / w) as i32;
                assert(group_indices(self@.tiles, group_id, (i + 1) as nat) == group_indices(
                    self@.tiles,
                    group_id,
                    i as nat,
                ).push(i as int));
                group.push((x, y));
                assert(group@ == before.push((x, y)));
                assert((x as int, y as int) == self@.coords(i as int));
                assert(int_cells(group@) =~= int_cells(before).push((x as int, y as int)));
                assert(int_cells(group@) =~= group_indices(
                    self@.tiles,
                    group_id,
                    (i + 1) as nat,
                ).map_values(|j: int| self@.coords(j)));
            } else {
                assert(group_indices(self@.tiles, group_id, (i + 1) as nat) == group_indices(
                    self@.tiles,
                    group_id,
                    i as nat,
                ));
            }
            i = i + 1;
        }
        group
    }

    fn around_prob_sum(&self, x: i32, y: i32) -> (r: Prob) {
        let mut result = Prob(0);
        let mut k: usize = 0;
        while k < 8
            invariant
                self@.wf(),
                k <= 8,
                self@.around_partial(x as int, y as int, k as int) <= PROB_MAX ==> result.0
                    == self@.around_partial(x as int, y as int, k as int),
                self@.around_partial(x as int, y as int, k as int) > PROB_MAX ==> result.0
                    == PROB_MAX,
            decreases 8 - k,
        {
            let (dx, dy) = direction_at(k);
            let nx = x as i64 + dx;
            let ny = y as i64 + dy;
            if 0 <= nx && 0 <= ny && nx < self.width as i64 && ny < self.height as i64 {
                let i = index_of(self, nx, ny);
                result.add(&self.tiles[i].prob);
            }
            k = k + 1;
        }
        result
    }

    fn set_tile_status(&mut self, x: i32, y: i32, status: TileStatus) {
        if self.is_inside_bounds(x, y) {
            let i = index_of(self, x as i64, y as i64);
            let mut t = self.tiles[i];
            t.status = status;
            let ghost before = self@;
            self.tiles.set(i, t);
            proof {
                lemma_members_same(self@, before);
                let nv = self@;
                if before.board_ok() {
                    assert forall|j: int|
                        0 <= j < nv.tiles.len() && #[trigger] nv.tiles[j].group_id != -1
                            && nv.tiles[j].measured implies nv.has_mine(nv.tiles[j].group_id) by {
                        let h = nv.tiles[j].group_id;
                        assert(before.tiles[j].measured && before.tiles[j].group_id == h);
                        let m = choose|m: int|
                            0 <= m < before.tiles.len() && #[trigger] before.tiles[m].group_id == h
                                && before.tiles[m].prob.0 == 12;
                        assert(nv.tiles[m].group_id == h && nv.tiles[m].prob.0 == 12);
                    }
                }
            }
        }
    }

    fn is_win(&self) -> (r: bool) {
        let mut i: usize = 0;
        while i < self.tiles.len()
            invariant
                i <= self@.tiles.len(),
                forall|j: int| 0 <= j < i ==> tile_won(#[trigger] self@.tiles[j]),
            decreases self@.tiles.len() - i,
        {
            let t = &self.tiles[i];
            let won = (t.prob.0 == 0 && t.status == TileStatus::Opened) || (t.prob.0 == 12
                && t.status == TileStatus::Flag);
            if !won {
                return false;
            }
            i = i + 1;
        }
        true
    }
}

} // verus!
