use vstd::prelude::*;
use vstd::set_lib::{lemma_int_range, lemma_len_subset, set_int_range};

use crate::collapser::{measure_refused, measured_at, resolved_tiles, simple_measured, Collapser};
use crate::field::{
    direction, direction_at, index_of, lemma_index_coords, lemma_members_same, size_prob, Field,
    FieldError, FieldView, MiscMethods,
};
use crate::tile::{Tile, TileStatus};

verus! {

/// The tiles after the measurement that opening (x, y) triggers: none when it is refused.
pub open spec fn measure_step(v: FieldView, x: int, y: int, mid: Seq<Tile>) -> bool {
    if measure_refused(v, x, y) {
        mid == v.tiles
    } else {
        measured_at(v, x, y, mid)
    }
}

/// `new` is one of the boards that opening the hidden tile (x, y) may leave: its measurement,
/// then the tile opened.
pub open spec fn opened_at(v: FieldView, x: int, y: int, new: Seq<Tile>) -> bool {
    let i = v.index(x, y);
    exists|mid: Seq<Tile>|
        #[trigger] measure_step(v, x, y, mid) && new == mid.update(
            i,
            Tile { status: TileStatus::Opened, ..mid[i] },
        )
}

/// Cell number `k` of `r` is a neighbour of an earlier cell of `r`.
pub open spec fn reached_from(r: Seq<(i32, i32)>, k: int) -> bool {
    exists|j: int, d: int|
        0 <= j < k && 0 <= d < 8 && r[k].0 == r[j].0 + #[trigger] direction(d).0 && r[k].1 == #[trigger] r[j].1
            + direction(d).1
}

/// Cell number `k` of `r` is a neighbour of an earlier cell of `r` whose neighbours hold no
/// probability on `v`.
pub open spec fn flood_step(v: FieldView, r: Seq<(i32, i32)>, k: int) -> bool {
    exists|j: int, d: int|
        0 <= j < k && 0 <= d < 8 && r[k].0 == r[j].0 + #[trigger] direction(d).0 && r[k].1 == #[trigger] r[j].1
            + direction(d).1 && v.around_sum(r[j].0 as int, r[j].1 as int) == 0
}

/// When the neighbours of `c` hold no probability on `v`, `r` lists each in-bounds neighbour.
pub open spec fn flood_closed(v: FieldView, r: Seq<(i32, i32)>, c: (i32, i32)) -> bool {
    v.around_sum(c.0 as int, c.1 as int) == 0 ==> forall|d: int|
        0 <= d < 8 && v.in_bounds(c.0 + direction(d).0, c.1 + direction(d).1) ==> r.contains(
            ((c.0 + #[trigger] direction(d).0) as i32, (c.1 + direction(d).1) as i32),
        )
}

/// Measurement changes no status and no group id.
proof fn lemma_measure_frame(v: FieldView, x: int, y: int, mid: Seq<Tile>)
    requires
        v.wf(),
        v.in_bounds(x, y),
        measure_step(v, x, y, mid),
    ensures
        mid.len() == v.tiles.len(),
        forall|j: int|
            0 <= j < v.tiles.len() ==> #[trigger] mid[j].status == v.tiles[j].status
                && mid[j].group_id == v.tiles[j].group_id && (v.tiles[j].measured ==> mid[j].measured),
        mid[v.index(x, y)].measured,
{
    lemma_index_coords(x, y, v.width as int, v.height as int);
    if !measure_refused(v, x, y) {
        let g = v.tile(x, y).group_id;
        if g == -1 {
            assert(mid == simple_measured(v, v.index(x, y)));
        } else {
            let p = choose|p: int|
                0 <= p < v.members(g).len() && mid == #[trigger] resolved_tiles(v, g, p);
        }
    }
}

/// Opening a hidden blank of a board that keeps the invariants changes no probability: the
/// tile is measured already, or alone and blank.
proof fn lemma_open_blank(v: FieldView, x: int, y: int, new: Seq<Tile>)
    requires
        v.wf(),
        v.board_ok(),
        v.in_bounds(x, y),
        v.tile(x, y).prob.0 == 0,
        opened_at(v, x, y, new),
    ensures
        new.len() == v.tiles.len(),
        forall|j: int| 0 <= j < v.tiles.len() ==> #[trigger] new[j].prob == v.tiles[j].prob,
{
    lemma_index_coords(x, y, v.width as int, v.height as int);
    let i = v.index(x, y);
    let mid = choose|mid: Seq<Tile>|
        #[trigger] measure_step(v, x, y, mid) && new == mid.update(
            i,
            Tile { status: TileStatus::Opened, ..mid[i] },
        );
    let t = v.tiles[i];
    if !measure_refused(v, x, y) && t.group_id != -1 {
        crate::collapser::lemma_member_listed(v, i);
        assert(v.tiles[i].group_id != -1 && !v.tiles[i].measured);
        assert(false);
    }
    if !measure_refused(v, x, y) {
        assert(mid == simple_measured(v, i));
    }
}

/// The neighbour sum depends on the dimensions and the probabilities alone.
proof fn lemma_around_same(a: FieldView, b: FieldView, x: int, y: int, k: int)
    requires
        a.wf(),
        a.width == b.width,
        a.height == b.height,
        a.tiles.len() == b.tiles.len(),
        forall|j: int| 0 <= j < a.tiles.len() ==> #[trigger] a.tiles[j].prob == b.tiles[j].prob,
    ensures
        a.around_partial(x, y, k) == b.around_partial(x, y, k),
    decreases k,
{
    if k > 0 {
        lemma_around_same(a, b, x, y, k - 1);
        let nx = x + direction(k - 1).0;
        let ny = y + direction(k - 1).1;
        if a.in_bounds(nx, ny) {
            lemma_index_coords(nx, ny, a.width as int, a.height as int);
        }
    }
}

/// A zero neighbour sum leaves every neighbour blank.
proof fn lemma_around_zero(v: FieldView, x: int, y: int, k: int)
    requires
        0 <= k <= 8,
        v.around_partial(x, y, k) == 0,
    ensures
        forall|d: int|
            0 <= d < k ==> v.prob_or_zero(x + #[trigger] direction(d).0, y + direction(d).1) == 0,
    decreases k,
{
    if k > 0 {
        lemma_around_nonneg(v, x, y, k - 1);
        lemma_around_zero(v, x, y, k - 1);
    }
}

proof fn lemma_around_nonneg(v: FieldView, x: int, y: int, k: int)
    ensures
        v.around_partial(x, y, k) >= 0,
    decreases k,
{
    if k > 0 {
        lemma_around_nonneg(v, x, y, k - 1);
    }
}

/// Opening a hidden tile keeps the board invariants.
pub proof fn lemma_open_ok(v: FieldView, x: int, y: int, new: Seq<Tile>)
    requires
        v.wf(),
        v.board_ok(),
        v.in_bounds(x, y),
        v.tile(x, y).status == TileStatus::Hidden,
        opened_at(v, x, y, new),
    ensures
        (FieldView { tiles: new, ..v }).board_ok(),
{
    lemma_index_coords(x, y, v.width as int, v.height as int);
    let i = v.index(x, y);
    let mid = choose|mid: Seq<Tile>|
        #[trigger] measure_step(v, x, y, mid) && new == mid.update(
            i,
            Tile { status: TileStatus::Opened, ..mid[i] },
        );
    let t = v.tiles[i];
    if measure_refused(v, x, y) {
        if !t.measured {
            crate::field::lemma_group_indices(v.tiles, t.group_id, v.tiles.len());
            assert(t.group_id != -1);
            let m0 = v.members(t.group_id)[0];
            assert(v.tiles[m0].group_id == t.group_id);
        }
        assert(mid[i].measured);
    } else if t.group_id == -1 {
        crate::collapser::lemma_simple_ok(v, i);
        assert(mid[i].measured);
    } else {
        let p = choose|p: int|
            0 <= p < v.members(t.group_id).len() && mid == #[trigger] resolved_tiles(v, t.group_id, p);
        crate::collapser::lemma_resolved_ok(v, t.group_id, p);
        assert(mid[i].measured);
    }
    let mv = FieldView { tiles: mid, ..v };
    assert(mv.board_ok());
    lemma_measure_frame(v, x, y, mid);
    let nv = FieldView { tiles: new, ..v };
    assert forall|j: int| 0 <= j < nv.tiles.len() implies #[trigger] nv.tiles[j].group_id
        == mv.tiles[j].group_id by {}
    lemma_members_same(nv, mv);
    assert forall|j: int|
        0 <= j < nv.tiles.len() && #[trigger] nv.tiles[j].group_id != -1 && !nv.tiles[j].measured
            implies nv.members(nv.tiles[j].group_id).len() <= 4 && nv.tiles[j].prob.0 == size_prob(nv.members(nv.tiles[j].group_id).len() as int) by {
        assert(nv.tiles[j].measured == mid[j].measured && nv.tiles[j].prob == mid[j].prob);
    }
    assert forall|j: int|
        0 <= j < nv.tiles.len() && #[trigger] nv.tiles[j].group_id != -1 && nv.tiles[j].measured
            implies nv.has_mine(nv.tiles[j].group_id) by {
        let h = nv.tiles[j].group_id;
        assert(mv.tiles[j].measured && mv.tiles[j].group_id == h);
        let m = choose|m: int|
            0 <= m < mv.tiles.len() && #[trigger] mv.tiles[m].group_id == h && mv.tiles[m].prob.0 == 12;
        assert(nv.tiles[m].group_id == h && nv.tiles[m].prob.0 == 12);
    }
    assert forall|j: int, k: int|
        0 <= j < nv.tiles.len() && 0 <= k < nv.tiles.len() && #[trigger] nv.tiles[j].group_id
            == #[trigger] nv.tiles[k].group_id && nv.tiles[j].group_id != -1 && nv.tiles[j].prob.0 == 12
            && nv.tiles[k].prob.0 == 12 && nv.tiles[j].measured implies j == k by {
        assert(mv.tiles[j].group_id == mv.tiles[k].group_id && mv.tiles[j].prob.0 == 12
            && mv.tiles[k].prob.0 == 12 && mv.tiles[j].measured);
    }
    assert forall|j: int, k: int|
        0 <= j < new.len() && 0 <= k < new.len() && #[trigger] new[j].group_id == #[trigger] new[k].group_id
            && new[j].group_id != -1 implies new[j].measured == new[k].measured by {
        assert(new[j].measured == mid[j].measured && new[k].measured == mid[k].measured);
        assert(new[j].group_id == mid[j].group_id && new[k].group_id == mid[k].group_id);
    }
}

/// A list of distinct in-bounds cells is no longer than the board has cells.
proof fn lemma_cells_bounded(v: FieldView, s: Seq<(i32, i32)>)
    requires
        v.wf(),
        s.no_duplicates(),
        forall|k: int| 0 <= k < s.len() ==> v.in_bounds(#[trigger] s[k].0 as int, s[k].1 as int),
    ensures
        s.len() <= v.tiles.len(),
{
    let idx = s.map_values(|c: (i32, i32)| v.index(c.0 as int, c.1 as int));
    assert forall|a: int, b: int| 0 <= a < idx.len() && 0 <= b < idx.len() && a != b implies idx[a]
        != idx[b] by {
        lemma_index_coords(s[a].0 as int, s[a].1 as int, v.width as int, v.height as int);
        lemma_index_coords(s[b].0 as int, s[b].1 as int, v.width as int, v.height as int);
    }
    assert(idx.no_duplicates());
    idx.unique_seq_to_set();
    let n = v.tiles.len() as int;
    lemma_int_range(0, n);
    assert forall|i: int| idx.to_set().contains(i) implies set_int_range(0, n).contains(i) by {
        let k = choose|k: int| 0 <= k < idx.len() && idx[k] == i;
        lemma_index_coords(s[k].0 as int, s[k].1 as int, v.width as int, v.height as int);
    }
    lemma_len_subset(idx.to_set(), set_int_range(0, n));
}

fn contains_cell(cells: &Vec<(i32, i32)>, c: (i32, i32)) -> (r: bool)
    ensures
        r == cells@.contains(c),
{
    let mut k: usize = 0;
    while k < cells.len()
        invariant
            k <= cells@.len(),
            forall|q: int| 0 <= q < k ==> cells@[q] != c,
        decreases cells@.len() - k,
    {
        let d = cells[k];
        if d.0 == c.0 && d.1 == c.1 {
            return true;
        }
        k = k + 1;
    }
    false
}

/// Revealing tiles.
pub trait TileOpener: View<V = FieldView> + Sized {
    /// Opens a hidden tile after measuring it; returns whether a mine was opened.
    fn open_tile(&mut self, x: i32, y: i32) -> (r: Result<bool, FieldError>)
        requires
            old(self)@.wf(),
        ensures
            !old(self)@.in_bounds(x as int, y as int) ==> r == Err::<bool, FieldError>(
                FieldError::BadCoord,
            ) && final(self)@ == old(self)@,
            old(self)@.in_bounds(x as int, y as int) && old(self)@.tile(x as int, y as int).status
                != TileStatus::Hidden ==> r == Err::<bool, FieldError>(FieldError::NotHidden) && final(
                self)@ == old(self)@,
            old(self)@.in_bounds(x as int, y as int) && old(self)@.tile(x as int, y as int).status
                == TileStatus::Hidden ==> final(self)@.width == old(self)@.width && final(self)@.height
                == old(self)@.height && opened_at(old(self)@, x as int, y as int, final(self)@.tiles)
                && r == Ok::<bool, FieldError>(final(self)@.tile(x as int, y as int).prob.0 >= 12),
            final(self)@.wf(),
            forall|j: int|
                0 <= j < old(self)@.tiles.len() ==> #[trigger] final(self)@.tiles[j].group_id == old(
                    self)@.tiles[j].group_id,
            forall|j: int|
                0 <= j < old(self)@.tiles.len() && j != old(self)@.index(x as int, y as int)
                    ==> #[trigger] final(self)@.tiles[j].status == old(self)@.tiles[j].status,
            old(self)@.board_ok() ==> final(self)@.board_ok(),
            old(self)@.in_bounds(x as int, y as int) && old(self)@.tile(x as int, y as int).status
                == TileStatus::Hidden ==> final(self)@.tile(x as int, y as int).status == TileStatus::Opened
                && final(self)@.tile(x as int, y as int).measured,
            forall|j: int|
                0 <= j < old(self)@.tiles.len() && old(self)@.tiles[j].measured ==> #[trigger] final(
                    self)@.tiles[j].measured,
            old(self)@.opened_measured() ==> final(self)@.opened_measured(),
    ;

    /// Opens (x, y) and floods out from every reached cell whose neighbours hold no
    /// probability. Returns the reached cells, each once, in the order they were found; a
    /// reached hidden cell ends opened and measured, any other keeps its status.
    fn multiopen(&mut self, x: i32, y: i32) -> (r: Vec<(i32, i32)>)
        requires
            old(self)@.wf(),
            old(self)@.addressable(),
        ensures
            final(self)@.wf(),
            final(self)@.width == old(self)@.width,
            final(self)@.height == old(self)@.height,
            r@.no_duplicates(),
            forall|k: int|
                0 <= k < r@.len() ==> old(self)@.in_bounds(#[trigger] r@[k].0 as int, r@[k].1 as int),
            !old(self)@.in_bounds(x as int, y as int) ==> r@.len() == 0 && final(self)@ == old(self)@,
            old(self)@.in_bounds(x as int, y as int) ==> r@.len() > 0 && r@[0] == (x, y),
            forall|k: int| 1 <= k < r@.len() ==> #[trigger] reached_from(r@, k),
            old(self)@.opened_measured() ==> final(self)@.opened_measured(),
            old(self)@.board_ok() ==> forall|k: int| 1 <= k < r@.len() ==> #[trigger] flood_step(final(self)@, r@, k),
            old(self)@.board_ok() ==> forall|k: int| 0 <= k < r@.len() ==> #[trigger] flood_closed(final(self)@, r@, r@[k]),
            forall|k: int|
                0 <= k < r@.len() && old(self)@.tile(r@[k].0 as int, r@[k].1 as int).status
                    == TileStatus::Hidden ==> #[trigger] final(self)@.tile(r@[k].0 as int, r@[k].1 as int).measured,
            forall|k: int|
                0 <= k < r@.len() && old(self)@.tile(r@[k].0 as int, r@[k].1 as int).status
                    != TileStatus::Hidden ==> #[trigger] final(self)@.tile(r@[k].0 as int, r@[k].1 as int).status
                    == old(self)@.tile(r@[k].0 as int, r@[k].1 as int).status,
            forall|j: int|
                0 <= j < old(self)@.tiles.len() ==> #[trigger] final(self)@.tiles[j].group_id == old(
                    self)@.tiles[j].group_id,
            forall|k: int|
                0 <= k < r@.len() && old(self)@.tile(r@[k].0 as int, r@[k].1 as int).status
                    == TileStatus::Hidden ==> #[trigger] final(self)@.tile(
                    r@[k].0 as int,
                    r@[k].1 as int,
                ).status == TileStatus::Opened,
            forall|cx: i32, cy: i32|
                old(self)@.in_bounds(cx as int, cy as int) && !r@.contains((cx, cy)) ==> #[trigger] final(
                    self)@.tile(cx as int, cy as int).status == old(self)@.tile(
                    cx as int,
                    cy as int,
                ).status,
            old(self)@.board_ok() ==> final(self)@.board_ok(),
    ;
}

impl TileOpener for Field {
    fn open_tile(&mut self, x: i32, y: i32) -> (r: Result<bool, FieldError>) {
        if !self.is_inside_bounds(x, y) {
            return Err(FieldError::BadCoord);
        }
        let i = index_of(self, x as i64, y as i64);
        if self.tiles[i].status != TileStatus::Hidden {
            return Err(FieldError::NotHidden);
        }
        let ghost old_v = self@;
        let _ = self.collapse(x, y);
        let ghost mid = self@.tiles;
        proof {
            lemma_measure_frame(old_v, x as int, y as int, mid);
        }
        let mut t = self.tiles[i];
        t.status = TileStatus::Opened;
        self.tiles.set(i, t);
        proof {
            assert(measure_step(old_v, x as int, y as int, mid));
            assert(self@.tiles == mid.update(i as int, Tile { status: TileStatus::Opened, ..mid[i as int] }));
            if old_v.board_ok() {
                lemma_open_ok(old_v, x as int, y as int, self@.tiles);
            }
            assert forall|j: int|
                0 <= j < self@.tiles.len() && old_v.opened_measured() && #[trigger] self@.tiles[j].status
                    == TileStatus::Opened implies self@.tiles[j].measured by {
                if j != i as int {
                    assert(mid[j].status == old_v.tiles[j].status);
                }
            }
        }
        Ok(self.tiles[i].prob.0 >= 12)
    }

    fn multiopen(&mut self, x: i32, y: i32) -> (r: Vec<(i32, i32)>) {
        let mut used: Vec<(i32, i32)> = Vec::new();
        if !self.is_inside_bounds(x, y) {
            return used;
        }
        let ghost old_v = self@;
        let ghost n = old_v.tiles.len();
        let ghost ok = old_v.board_ok();
        let ghost mut frozen: Seq<Tile> = old_v.tiles;
        let ghost mut started = false;
        let mut stack: Vec<(i32, i32)> = Vec::new();
        stack.push((x, y));
        used.push((x, y));
        proof {
            lemma_index_coords(x as int, y as int, old_v.width as int, old_v.height as int);
            assert(used@ == seq![(x, y)]);
            assert(stack@ == seq![(x, y)]);
        }
        while stack.len() > 0
            invariant
                old_v.wf(),
                old_v.addressable(),
                ok == old_v.board_ok(),
                old_v.in_bounds(x as int, y as int),
                self@.wf(),
                n == old_v.tiles.len(),
                self@.width == old_v.width,
                self@.height == old_v.height,
                old_v.board_ok() ==> self@.board_ok(),
                !started ==> stack@ == seq![(x, y)] && used@ == seq![(x, y)] && self@ == old_v,
                started && ok ==> frozen.len() == n && forall|j: int|
                    0 <= j < n ==> #[trigger] self@.tiles[j].prob == frozen[j].prob,
                started && ok ==> forall|k: int|
                    0 <= k < stack@.len() ==> self@.tile(#[trigger] stack@[k].0 as int, stack@[k].1 as int).prob.0
                        == 0,
                started && ok ==> forall|k: int|
                    0 <= k < used@.len() && !stack@.contains(used@[k]) ==> #[trigger] flood_closed(
                        self@,
                        used@,
                        used@[k],
                    ),
                ok ==> forall|k: int| 1 <= k < used@.len() ==> #[trigger] flood_step(self@, used@, k),
                forall|j: int| 0 <= j < n && old_v.tiles[j].measured ==> #[trigger] self@.tiles[j].measured,
                used@.len() > 0,
                used@.len() <= n,
                used@[0] == (x, y),
                forall|k: int| 1 <= k < used@.len() ==> #[trigger] reached_from(used@, k),
                used@.no_duplicates(),
                stack@.no_duplicates(),
                forall|k: int|
                    0 <= k < used@.len() ==> old_v.in_bounds(#[trigger] used@[k].0 as int, used@[k].1 as int),
                forall|k: int| 0 <= k < stack@.len() ==> used@.contains(#[trigger] stack@[k]),
                forall|j: int|
                    0 <= j < n ==> #[trigger] self@.tiles[j].group_id == old_v.tiles[j].group_id,
                forall|cx: i32, cy: i32|
                    old_v.in_bounds(cx as int, cy as int) && (!used@.contains((cx, cy))
                        || stack@.contains((cx, cy))) ==> #[trigger] self@.tile(cx as int, cy as int).status
                        == old_v.tile(cx as int, cy as int).status,
                forall|cx: i32, cy: i32|
                    old_v.in_bounds(cx as int, cy as int) && used@.contains((cx, cy)) && !stack@.contains(
                        (cx, cy),
                    ) ==> (old_v.tile(cx as int, cy as int).status == TileStatus::Hidden ==> #[trigger] self@.tile(
                        cx as int,
                        cy as int,
                    ).status == TileStatus::Opened && self@.tile(cx as int, cy as int).measured) && (old_v.tile(
                        cx as int,
                        cy as int,
                    ).status != TileStatus::Hidden ==> self@.tile(cx as int, cy as int).status == old_v.tile(
                        cx as int,
                        cy as int,
                    ).status),
            decreases 2 * (n - used@.len()) + stack@.len(),
        {
            proof {
                lemma_cells_bounded(old_v, used@);
            }
            let ghost before_stack = stack@;
            let ghost before = self@;
            let ghost m0 = 2 * (n - used@.len()) + stack@.len();
            let (cx, cy) = stack.pop().unwrap();
            assert(before_stack =~= stack@.push((cx, cy)));
            assert(!stack@.contains((cx, cy))) by {
                if stack@.contains((cx, cy)) {
                    let q = choose|q: int| 0 <= q < stack@.len() && stack@[q] == (cx, cy);
                    assert(before_stack[q] == before_stack[before_stack.len() - 1]);
                }
            }
            assert forall|a: (i32, i32)| stack@.contains(a) implies before_stack.contains(a) by {
                let q = choose|q: int| 0 <= q < stack@.len() && stack@[q] == a;
                assert(before_stack[q] == a);
            }
            assert(used@.contains((cx, cy))) by {
                assert(before_stack[before_stack.len() - 1] == (cx, cy));
            }
            proof {
                let q = choose|q: int| 0 <= q < used@.len() && used@[q] == (cx, cy);
                assert(old_v.in_bounds(cx as int, cy as int));
                lemma_index_coords(cx as int, cy as int, old_v.width as int, old_v.height as int);
                if started && ok {
                    assert(before.tile(cx as int, cy as int).prob.0 == 0) by {
                        assert(before_stack[before_stack.len() - 1] == (cx, cy));
                    }
                }
            }
            let _ = self.open_tile(cx, cy);
            proof {
                assert forall|ax: i32, ay: i32|
                    old_v.in_bounds(ax as int, ay as int) && (ax, ay) != (cx, cy) implies #[trigger] self@.tile(
                    ax as int,
                    ay as int,
                ).status == before.tile(ax as int, ay as int).status && (before.tile(ax as int, ay as int).measured
                    ==> self@.tile(ax as int, ay as int).measured) by {
                    lemma_index_coords(ax as int, ay as int, old_v.width as int, old_v.height as int);
                    lemma_index_coords(cx as int, cy as int, old_v.width as int, old_v.height as int);
                }
                assert(before.tile(cx as int, cy as int).status == old_v.tile(cx as int, cy as int).status);
                if started && ok {
                    if before.tile(cx as int, cy as int).status == TileStatus::Hidden {
                        lemma_open_blank(before, cx as int, cy as int, self@.tiles);
                    }
                    assert forall|j: int| 0 <= j < n implies #[trigger] self@.tiles[j].prob == before.tiles[j].prob by {}
                    assert forall|k: int| 1 <= k < used@.len() implies #[trigger] flood_step(self@, used@, k) by {
                        assert(flood_step(before, used@, k));
                        let (j0, d0) = choose|j0: int, d0: int|
                            0 <= j0 < k && 0 <= d0 < 8 && used@[k].0 == used@[j0].0 + #[trigger] direction(d0).0
                                && used@[k].1 == #[trigger] used@[j0].1 + direction(d0).1 && before.around_sum(
                                used@[j0].0 as int,
                                used@[j0].1 as int,
                            ) == 0;
                        lemma_around_same(before, self@, used@[j0].0 as int, used@[j0].1 as int, 8);
                    }
                    assert forall|k: int|
                        0 <= k < used@.len() && !before_stack.contains(used@[k]) implies #[trigger] flood_closed(
                        self@,
                        used@,
                        used@[k],
                    ) by {
                        assert(flood_closed(before, used@, used@[k]));
                        lemma_around_same(before, self@, used@[k].0 as int, used@[k].1 as int, 8);
                    }
                }
                let was_started = started;
                if !started {
                    frozen = self@.tiles;
                    started = true;
                }
                if ok {
                    assert forall|q: int| 0 <= q < stack@.len() implies self@.tile(
                        #[trigger] stack@[q].0 as int,
                        stack@[q].1 as int,
                    ).prob.0 == 0 by {
                        assert(was_started);
                        assert(before_stack[q] == stack@[q]);
                        assert(used@.contains(stack@[q]));
                        let w = choose|w: int| 0 <= w < used@.len() && used@[w] == stack@[q];
                        lemma_index_coords(
                            stack@[q].0 as int,
                            stack@[q].1 as int,
                            old_v.width as int,
                            old_v.height as int,
                        );
                    }
                    assert forall|k: int|
                        0 <= k < used@.len() && !stack@.contains(used@[k]) && used@[k] != (cx, cy) implies #[trigger] flood_closed(
                        self@,
                        used@,
                        used@[k],
                    ) by {
                        assert(was_started);
                        assert(!before_stack.contains(used@[k])) by {
                            if before_stack.contains(used@[k]) {
                                let q = choose|q: int| 0 <= q < before_stack.len() && before_stack[q] == used@[k];
                                if q < stack@.len() {
                                    assert(stack@[q] == used@[k]);
                                }
                            }
                        }
                    }
                }
            }
            let around = self.around_prob_sum(cx, cy);
            proof {
                lemma_around_nonneg(self@, cx as int, cy as int, 8);
            }
            if around.0 == 0 {
                proof {
                    lemma_around_zero(self@, cx as int, cy as int, 8);
                }
                let mut k: usize = 0;
                while k < 8
                    invariant
                        old_v.wf(),
                        old_v.addressable(),
                        ok == old_v.board_ok(),
                        started,
                        self@.wf(),
                        self@.width == old_v.width,
                        self@.height == old_v.height,
                        self@.around_sum(cx as int, cy as int) == 0,
                        forall|d: int|
                            0 <= d < 8 ==> self@.prob_or_zero(cx + #[trigger] direction(d).0, cy + direction(d).1)
                                == 0,
                        forall|j: int|
                            0 <= j < n ==> #[trigger] self@.tiles[j].group_id == old_v.tiles[j].group_id,
                        n == old_v.tiles.len(),
                        old_v.in_bounds(cx as int, cy as int),
                        k <= 8,
                        old_v.board_ok() ==> self@.board_ok(),
                        ok ==> frozen.len() == n && forall|j: int|
                            0 <= j < n ==> #[trigger] self@.tiles[j].prob == frozen[j].prob,
                        ok ==> forall|q: int|
                            0 <= q < stack@.len() ==> self@.tile(#[trigger] stack@[q].0 as int, stack@[q].1 as int).prob.0
                                == 0,
                        ok ==> forall|q: int|
                            0 <= q < used@.len() && !stack@.contains(used@[q]) && used@[q] != (cx, cy)
                                ==> #[trigger] flood_closed(self@, used@, used@[q]),
                        forall|d: int|
                            0 <= d < k && self@.in_bounds(cx + direction(d).0, cy + direction(d).1)
                                ==> used@.contains(((cx + #[trigger] direction(d).0) as i32, (cy + direction(d).1) as i32)),
                        ok ==> forall|q: int| 1 <= q < used@.len() ==> #[trigger] flood_step(self@, used@, q),
                        forall|j: int| 0 <= j < n && old_v.tiles[j].measured ==> #[trigger] self@.tiles[j].measured,
                        used@.len() > 0,
                        used@[0] == (x, y),
                        forall|q: int| 1 <= q < used@.len() ==> #[trigger] reached_from(used@, q),
                        used@.no_duplicates(),
                        stack@.no_duplicates(),
                        !stack@.contains((cx, cy)),
                        used@.contains((cx, cy)),
                        forall|q: int|
                            0 <= q < used@.len() ==> old_v.in_bounds(
                                #[trigger] used@[q].0 as int,
                                used@[q].1 as int,
                            ),
                        forall|q: int| 0 <= q < stack@.len() ==> used@.contains(#[trigger] stack@[q]),
                        forall|cx2: i32, cy2: i32|
                            old_v.in_bounds(cx2 as int, cy2 as int) && (!used@.contains((cx2, cy2))
                                || stack@.contains((cx2, cy2))) ==> #[trigger] self@.tile(
                                cx2 as int,
                                cy2 as int,
                            ).status == old_v.tile(cx2 as int, cy2 as int).status,
                        forall|cx2: i32, cy2: i32|
                            old_v.in_bounds(cx2 as int, cy2 as int) && used@.contains((cx2, cy2))
                                && !stack@.contains((cx2, cy2)) ==> (old_v.tile(cx2 as int, cy2 as int).status
                                == TileStatus::Hidden ==> #[trigger] self@.tile(cx2 as int, cy2 as int).status
                                == TileStatus::Opened && self@.tile(cx2 as int, cy2 as int).measured) && (old_v.tile(
                                cx2 as int,
                                cy2 as int,
                            ).status != TileStatus::Hidden ==> self@.tile(cx2 as int, cy2 as int).status
                                == old_v.tile(cx2 as int, cy2 as int).status),
                        used@.len() <= n,
                        2 * (n - used@.len()) + stack@.len() < m0,
                    decreases 8 - k,
                {
                    let (dx, dy) = direction_at(k);
                    let nx = cx as i64 + dx;
                    let ny = cy as i64 + dy;
                    if 0 <= nx && 0 <= ny && nx < self.width as i64 && ny < self.height as i64 {
                        let c = (nx as i32, ny as i32);
                        if !contains_cell(&used, c) {
                            let ghost u0 = used@;
                            let ghost s0 = stack@;
                            used.push(c);
                            stack.push(c);
                            proof {
                                assert forall|a: (i32, i32)| u0.contains(a) implies used@.contains(a) by {
                                    let q = choose|q: int| 0 <= q < u0.len() && u0[q] == a;
                                    assert(used@[q] == a);
                                }
                                assert forall|a: (i32, i32)| s0.contains(a) implies stack@.contains(a) by {
                                    let q = choose|q: int| 0 <= q < s0.len() && s0[q] == a;
                                    assert(stack@[q] == a);
                                }
                                assert(used@[u0.len() as int] == c);
                                assert(stack@[s0.len() as int] == c);
                                let w = choose|w: int| 0 <= w < u0.len() && u0[w] == (cx, cy);
                                assert(used@[w] == (cx, cy));
                                assert forall|q: int| 1 <= q < used@.len() implies #[trigger] reached_from(
                                    used@,
                                    q,
                                ) by {
                                    if q < u0.len() {
                                        assert(reached_from(u0, q));
                                        let (j0, d0) = choose|j0: int, d0: int|
                                            0 <= j0 < q && 0 <= d0 < 8 && u0[q].0 == u0[j0].0
                                                + #[trigger] direction(d0).0 && u0[q].1 == #[trigger] u0[j0].1
                                                + direction(d0).1;
                                        assert(used@[j0] == u0[j0]);
                                    } else {
                                        assert(used@[q].0 == used@[w].0 + direction(k as int).0);
                                        assert(used@[q].1 == used@[w].1 + direction(k as int).1);
                                    }
                                }
                                if ok {
                                    assert forall|q: int| 1 <= q < used@.len() implies #[trigger] flood_step(
                                        self@,
                                        used@,
                                        q,
                                    ) by {
                                        if q < u0.len() {
                                            assert(flood_step(self@, u0, q));
                                            let (j0, d0) = choose|j0: int, d0: int|
                                                0 <= j0 < q && 0 <= d0 < 8 && u0[q].0 == u0[j0].0
                                                    + #[trigger] direction(d0).0 && u0[q].1 == #[trigger] u0[j0].1
                                                    + direction(d0).1 && self@.around_sum(
                                                    u0[j0].0 as int,
                                                    u0[j0].1 as int,
                                                ) == 0;
                                            assert(used@[j0] == u0[j0]);
                                        } else {
                                            assert(used@[q].0 == used@[w].0 + direction(k as int).0);
                                            assert(used@[q].1 == used@[w].1 + direction(k as int).1);
                                        }
                                    }
                                    assert(self@.prob_or_zero(cx + direction(k as int).0, cy + direction(k as int).1) == 0);
                                    assert forall|q: int|
                                        0 <= q < used@.len() && !stack@.contains(used@[q]) && used@[q] != (cx, cy)
                                            implies #[trigger] flood_closed(self@, used@, used@[q]) by {
                                        assert(used@[q] != c);
                                        assert(q < u0.len());
                                        assert(!s0.contains(u0[q]));
                                        assert(flood_closed(self@, u0, u0[q]));
                                    }
                                }
                                lemma_cells_bounded(old_v, used@);
                                assert(!s0.contains(c)) by {
                                    if s0.contains(c) {
                                        let q = choose|q: int| 0 <= q < s0.len() && s0[q] == c;
                                    }
                                }
                                assert forall|a: (i32, i32)| used@.contains(a) && a != c implies u0.contains(a) by {
                                    let q = choose|q: int| 0 <= q < used@.len() && used@[q] == a;
                                    assert(q < u0.len());
                                }
                                assert forall|a: (i32, i32)| stack@.contains(a) && a != c implies s0.contains(a) by {
                                    let q = choose|q: int| 0 <= q < stack@.len() && stack@[q] == a;
                                    assert(q < s0.len());
                                }
                            }
                        }
                    }
                    k = k + 1;
                }
                proof {
                    if ok {
                        assert forall|q: int|
                            0 <= q < used@.len() && !stack@.contains(used@[q]) implies #[trigger] flood_closed(
                            self@,
                            used@,
                            used@[q],
                        ) by {}
                    }
                }
            }
        }
        proof {
            assert forall|j: int|
                0 <= j < n && old_v.opened_measured() && #[trigger] self@.tiles[j].status
                    == TileStatus::Opened implies self@.tiles[j].measured by {
                let cx = (j % (old_v.width as int)) as i32;
                let cy = (j / (old_v.width as int)) as i32;
                crate::field::lemma_coords_index(j, old_v.width as int, old_v.height as int);
                lemma_index_coords(cx as int, cy as int, old_v.width as int, old_v.height as int);
                assert(old_v.index(cx as int, cy as int) == j);
                assert(self@.tile(cx as int, cy as int).status == TileStatus::Opened);
                if old_v.tiles[j].status != TileStatus::Hidden {
                    if used@.contains((cx, cy)) && !stack@.contains((cx, cy)) {
                        assert(self@.tile(cx as int, cy as int).status == old_v.tile(cx as int, cy as int).status);
                    } else {
                        assert(self@.tile(cx as int, cy as int).status == old_v.tile(cx as int, cy as int).status);
                    }
                } else {
                    assert(self@.tile(cx as int, cy as int).status == old_v.tile(cx as int, cy as int).status
                        || (used@.contains((cx, cy)) && !stack@.contains((cx, cy))));
                }
            }
            assert forall|k: int|
                0 <= k < used@.len() && old_v.tile(used@[k].0 as int, used@[k].1 as int).status
                    == TileStatus::Hidden implies #[trigger] self@.tile(used@[k].0 as int, used@[k].1 as int).measured by {
                assert(used@.contains(used@[k]));
                assert(!stack@.contains(used@[k]));
                assert(old_v.in_bounds(used@[k].0 as int, used@[k].1 as int));
                assert(self@.tile(used@[k].0 as int, used@[k].1 as int).status == TileStatus::Opened);
            }
            assert forall|k: int|
                0 <= k < used@.len() && old_v.tile(used@[k].0 as int, used@[k].1 as int).status
                    != TileStatus::Hidden implies #[trigger] self@.tile(used@[k].0 as int, used@[k].1 as int).status
                == old_v.tile(used@[k].0 as int, used@[k].1 as int).status by {
                assert(used@.contains(used@[k]));
                assert(!stack@.contains(used@[k]));
                assert(old_v.in_bounds(used@[k].0 as int, used@[k].1 as int));
            }
        }
        used
    }
}

} // verus!
