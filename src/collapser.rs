use vstd::prelude::*;

use crate::field::{
    direction, direction_at, group_indices, index_of, lemma_coords_index, lemma_group_indices,
    lemma_group_indices_prefix, lemma_group_indices_same, lemma_members_same, size_prob, Field,
    FieldError, FieldView, MiscMethods,
};
use crate::rng::random_below;
use crate::tile::{Prob, Tile, TileStatus};

verus! {

/// The tiles once the mine of group `g` has settled on its member number `pick`: that member
/// is a certain mine, the others certain blanks, all measured.
pub open spec fn resolved_tiles(v: FieldView, g: i8, pick: int) -> Seq<Tile> {
    Seq::new(
        v.tiles.len(),
        |i: int|
            if v.tiles[i].group_id == g {
                Tile {
                    measured: true,
                    prob: Prob(
                        if i == v.members(g)[pick] {
                            12u8
                        } else {
                            0u8
                        },
                    ),
                    ..v.tiles[i]
                }
            } else {
                v.tiles[i]
            },
    )
}

/// The tiles once the lone tile at index `i` has been measured: a certain blank.
pub open spec fn simple_measured(v: FieldView, i: int) -> Seq<Tile> {
    v.tiles.update(i, Tile { measured: true, prob: Prob(0), ..v.tiles[i] })
}

/// Measuring (x, y) is refused: the tile is already measured.
pub open spec fn measure_refused(v: FieldView, x: int, y: int) -> bool {
    v.tile(x, y).measured
}

/// `new` is one of the boards that measuring (x, y) may leave.
pub open spec fn measured_at(v: FieldView, x: int, y: int, new: Seq<Tile>) -> bool {
    let t = v.tile(x, y);
    if t.group_id == -1 {
        new == simple_measured(v, v.index(x, y))
    } else {
        exists|p: int|
            0 <= p < v.members(t.group_id).len() && new == #[trigger] resolved_tiles(
                v,
                t.group_id,
                p,
            )
    }
}

/// Group ids of the tiles that carry a quantum flag.
pub open spec fn quant_groups(v: FieldView) -> Set<i8> {
    Set::new(
        |g: i8|
            exists|i: int|
                0 <= i < v.tiles.len() && #[trigger] v.tiles[i].status == TileStatus::QuantFlag
                    && v.tiles[i].group_id == g,
    )
}

/// Resolving the groups `keys` clears tile `i`: it is a flagged lone tile and -1 is a key, or
/// its group is a key.
pub open spec fn clears(v: FieldView, keys: Set<i8>, i: int) -> bool {
    let t = v.tiles[i];
    if t.group_id == -1 {
        keys.contains(-1i8) && t.status == TileStatus::QuantFlag
    } else {
        keys.contains(t.group_id)
    }
}

/// Every member of `g` holds the probability and the measured mark that settling its mine on
/// member number `p` gives.
pub open spec fn settled_with(old: FieldView, new: Seq<Tile>, g: i8, p: int) -> bool {
    forall|i: int|
        0 <= i < old.tiles.len() && old.tiles[i].group_id == g ==> #[trigger] new[i].prob
            == resolved_tiles(old, g, p)[i].prob && new[i].measured
}

/// Group `g` has been resolved from `old` to `new`: an empty or already measured group keeps
/// its probabilities and marks, any other has its mine settled on one member.
pub open spec fn group_settled(old: FieldView, new: Seq<Tile>, g: i8) -> bool {
    let m = old.members(g);
    if m.len() == 0 || old.tiles[m[0]].measured {
        forall|i: int|
            0 <= i < old.tiles.len() && old.tiles[i].group_id == g ==> #[trigger] new[i].prob
                == old.tiles[i].prob && new[i].measured == old.tiles[i].measured
    } else {
        exists|p: int| 0 <= p < m.len() && #[trigger] settled_with(old, new, g, p)
    }
}

/// The board `new` is what resolving the groups `keys` of `old` may give.
pub open spec fn quant_outcome(old: FieldView, new: FieldView, keys: Set<i8>) -> bool {
    &&& new.width == old.width
    &&& new.height == old.height
    &&& new.tiles.len() == old.tiles.len()
    &&& forall|i: int|
        0 <= i < old.tiles.len() && !clears(old, keys, i) ==> #[trigger] new.tiles[i]
            == old.tiles[i]
    &&& forall|i: int|
        0 <= i < old.tiles.len() && clears(old, keys, i) ==> #[trigger] new.tiles[i].status
            == TileStatus::Hidden && new.tiles[i].group_id == old.tiles[i].group_id
    &&& forall|i: int|
        0 <= i < old.tiles.len() && clears(old, keys, i) && old.tiles[i].group_id == -1
            ==> #[trigger] new.tiles[i].measured && new.tiles[i].prob == old.tiles[i].prob
    &&& forall|g: i8| keys.contains(g) && g != -1 ==> #[trigger] group_settled(old, new.tiles, g)
}

/// The cell of index `i` as coordinates.
pub open spec fn cell_of(v: FieldView, i: int) -> (i32, i32) {
    (v.coords(i).0 as i32, v.coords(i).1 as i32)
}

/// `r` lists the cell of index `i` and each of its in-bounds neighbours.
pub open spec fn area_listed(v: FieldView, i: int, r: Seq<(i32, i32)>) -> bool {
    let c = v.coords(i);
    &&& r.contains(cell_of(v, i))
    &&& forall|k: int|
        0 <= k < 8 && v.in_bounds(c.0 + direction(k).0, c.1 + direction(k).1) ==> r.contains(
            ((c.0 + #[trigger] direction(k).0) as i32, (c.1 + direction(k).1) as i32),
        )
}

/// Every cell of `r` is in bounds, and `r` covers each cleared tile with its neighbours.
pub open spec fn reports(v: FieldView, keys: Set<i8>, r: Seq<(i32, i32)>) -> bool {
    &&& forall|k: int| 0 <= k < r.len() ==> v.in_bounds(#[trigger] r[k].0 as int, r[k].1 as int)
    &&& forall|i: int| 0 <= i < v.tiles.len() && clears(v, keys, i) ==> #[trigger] area_listed(v, i, r)
}

/// Settling the mine of a group leaves exactly one member a certain mine and the others certain
/// blanks, all measured.
pub proof fn lemma_one_mine(v: FieldView, g: i8, pick: int)
    requires
        0 <= pick < v.members(g).len(),
    ensures
        0 <= v.members(g)[pick] < v.tiles.len(),
        v.tiles[v.members(g)[pick]].group_id == g,
        resolved_tiles(v, g, pick)[v.members(g)[pick]].prob.0 == 12,
        forall|i: int|
            0 <= i < v.tiles.len() && v.tiles[i].group_id == g && i != v.members(g)[pick]
                ==> #[trigger] resolved_tiles(v, g, pick)[i].prob.0 == 0,
        forall|i: int|
            0 <= i < v.tiles.len() && v.tiles[i].group_id == g ==> #[trigger] resolved_tiles(
                v,
                g,
                pick,
            )[i].measured,
{
    crate::field::lemma_group_indices(v.tiles, g, v.tiles.len());
}

/// The sum of the probabilities of the members of group `g` among the first `n` tiles.
pub open spec fn group_mass(tiles: Seq<Tile>, g: i8, n: int) -> int
    decreases n,
{
    if n <= 0 {
        0
    } else {
        group_mass(tiles, g, n - 1) + if tiles[n - 1].group_id == g {
            tiles[n - 1].prob.0 as int
        } else {
            0
        }
    }
}

/// Settling the mine of a group leaves the group's probabilities summing to a certain mine.
pub proof fn lemma_group_mass(v: FieldView, g: i8, pick: int)
    requires
        0 <= pick < v.members(g).len(),
    ensures
        group_mass(resolved_tiles(v, g, pick), g, v.tiles.len() as int) == 12,
{
    lemma_one_mine(v, g, pick);
    lemma_group_mass_upto(v, g, pick, v.tiles.len() as int);
}

proof fn lemma_group_mass_upto(v: FieldView, g: i8, pick: int, n: int)
    requires
        0 <= pick < v.members(g).len(),
        0 <= n <= v.tiles.len(),
        0 <= v.members(g)[pick] < v.tiles.len(),
        v.tiles[v.members(g)[pick]].group_id == g,
    ensures
        group_mass(resolved_tiles(v, g, pick), g, n) == if v.members(g)[pick] < n {
            12int
        } else {
            0int
        },
    decreases n,
{
    if n > 0 {
        lemma_group_mass_upto(v, g, pick, n - 1);
    }
}

/// Settling a group's mine keeps the board invariants.
pub proof fn lemma_resolved_ok(v: FieldView, g: i8, pick: int)
    requires
        v.board_ok(),
        0 <= pick < v.members(g).len(),
    ensures
        (FieldView { tiles: resolved_tiles(v, g, pick), ..v }).board_ok(),
{
    let nv = FieldView { tiles: resolved_tiles(v, g, pick), ..v };
    lemma_members_same(nv, v);
    lemma_one_mine(v, g, pick);
    let mine = v.members(g)[pick];
    assert forall|i: int|
        0 <= i < nv.tiles.len() && #[trigger] nv.tiles[i].group_id != -1 && !nv.tiles[i].measured
            implies nv.members(nv.tiles[i].group_id).len() <= 4 && nv.tiles[i].prob.0 == size_prob(nv.members(nv.tiles[i].group_id).len() as int) by {
        assert(nv.tiles[i] == v.tiles[i]);
    }
    assert forall|i: int|
        0 <= i < nv.tiles.len() && #[trigger] nv.tiles[i].group_id != -1 && nv.tiles[i].measured
            implies nv.has_mine(nv.tiles[i].group_id) by {
        let h = nv.tiles[i].group_id;
        if h == g {
            assert(nv.tiles[mine].group_id == g && nv.tiles[mine].prob.0 == 12);
        } else {
            assert(nv.tiles[i] == v.tiles[i]);
            assert(v.has_mine(h));
            let m = choose|m: int| 0 <= m < v.tiles.len() && #[trigger] v.tiles[m].group_id == h && v.tiles[m].prob.0 == 12;
            assert(nv.tiles[m] == v.tiles[m]);
        }
    }
    assert forall|i: int, j: int|
        0 <= i < nv.tiles.len() && 0 <= j < nv.tiles.len() && #[trigger] nv.tiles[i].group_id
            == #[trigger] nv.tiles[j].group_id && nv.tiles[i].group_id != -1 && nv.tiles[i].prob.0 == 12
            && nv.tiles[j].prob.0 == 12 && nv.tiles[i].measured implies i == j by {
        if nv.tiles[i].group_id == g {
            if i != mine {
                assert(nv.tiles[i].prob.0 == 0);
            }
            if j != mine {
                assert(nv.tiles[j].prob.0 == 0);
            }
        } else {
            assert(nv.tiles[i] == v.tiles[i] && nv.tiles[j] == v.tiles[j]);
        }
    }
}

/// Measuring a lone tile keeps the board invariants.
pub proof fn lemma_simple_ok(v: FieldView, i: int)
    requires
        v.board_ok(),
        0 <= i < v.tiles.len(),
        v.tiles[i].group_id == -1,
    ensures
        (FieldView { tiles: simple_measured(v, i), ..v }).board_ok(),
{
    let nv = FieldView { tiles: simple_measured(v, i), ..v };
    lemma_members_same(nv, v);
    assert forall|j: int|
        0 <= j < nv.tiles.len() && #[trigger] nv.tiles[j].group_id != -1 && !nv.tiles[j].measured
            implies nv.members(nv.tiles[j].group_id).len() <= 4 && nv.tiles[j].prob.0 == size_prob(nv.members(nv.tiles[j].group_id).len() as int) by {
        assert(nv.tiles[j] == v.tiles[j]);
    }
    assert forall|j: int|
        0 <= j < nv.tiles.len() && #[trigger] nv.tiles[j].group_id != -1 && nv.tiles[j].measured
            implies nv.has_mine(nv.tiles[j].group_id) by {
        let h = nv.tiles[j].group_id;
        assert(nv.tiles[j] == v.tiles[j]);
        let m = choose|m: int| 0 <= m < v.tiles.len() && #[trigger] v.tiles[m].group_id == h && v.tiles[m].prob.0 == 12;
        assert(nv.tiles[m] == v.tiles[m]);
    }
}

/// What resolving quantum-flagged groups does to one tile: its group stays, an opened tile is
/// untouched, and it keeps its probability and mark or ends measured as a certain mine or
/// blank, or, alone, ends measured with its probability.
proof fn lemma_quant_tile(old: FieldView, new: FieldView, keys: Set<i8>, i: int)
    requires
        quant_outcome(old, new, keys),
        0 <= i < old.tiles.len(),
    ensures
        new.tiles[i].group_id == old.tiles[i].group_id,
        new.tiles[i].status == TileStatus::Opened ==> new.tiles[i] == old.tiles[i],
        (new.tiles[i].measured == old.tiles[i].measured && new.tiles[i].prob == old.tiles[i].prob)
            || (new.tiles[i].measured && (new.tiles[i].prob.0 == 0 || new.tiles[i].prob.0 == 12))
            || (old.tiles[i].group_id == -1 && new.tiles[i].measured && new.tiles[i].prob
            == old.tiles[i].prob),
{
    if clears(old, keys, i) && old.tiles[i].group_id != -1 {
        let g = old.tiles[i].group_id;
        assert(group_settled(old, new.tiles, g));
        let m = old.members(g);
        if !(m.len() == 0 || old.tiles[m[0]].measured) {
            let p = choose|p: int| 0 <= p < m.len() && #[trigger] settled_with(old, new.tiles, g, p);
            let nt = new.tiles;
            assert(settled_with(old, nt, g, p));
            assert(nt[i].prob == resolved_tiles(old, g, p)[i].prob);
            assert(new.tiles[i].prob == resolved_tiles(old, g, p)[i].prob && new.tiles[i].measured);
            assert(resolved_tiles(old, g, p)[i].prob.0 == 0 || resolved_tiles(old, g, p)[i].prob.0
                == 12);
        } else {
            let nt = new.tiles;
            assert(nt[i].prob == old.tiles[i].prob);
            assert(new.tiles[i].prob == old.tiles[i].prob && new.tiles[i].measured
                == old.tiles[i].measured);
        }
    } else if clears(old, keys, i) {
        assert(new.tiles[i].measured && new.tiles[i].prob == old.tiles[i].prob);
    } else {
        assert(new.tiles[i] == old.tiles[i]);
    }
}

/// After resolving quantum-flagged groups, members of one group are still measured together.
proof fn lemma_quant_pair(old: FieldView, new: FieldView, keys: Set<i8>, i: int, j: int)
    requires
        old.board_ok(),
        quant_outcome(old, new, keys),
        0 <= i < old.tiles.len(),
        0 <= j < old.tiles.len(),
        old.tiles[i].group_id == old.tiles[j].group_id,
        old.tiles[i].group_id != -1,
    ensures
        new.tiles[i].measured == new.tiles[j].measured,
{
    let g = old.tiles[i].group_id;
    if keys.contains(g) {
        assert(clears(old, keys, i) && clears(old, keys, j));
        assert(group_settled(old, new.tiles, g));
        let m = old.members(g);
        if !(m.len() == 0 || old.tiles[m[0]].measured) {
            let p = choose|p: int| 0 <= p < m.len() && #[trigger] settled_with(old, new.tiles, g, p);
            assert(new.tiles[i].prob == resolved_tiles(old, g, p)[i].prob);
            assert(new.tiles[j].prob == resolved_tiles(old, g, p)[j].prob);
        } else {
            assert(new.tiles[i].prob == old.tiles[i].prob);
            assert(new.tiles[j].prob == old.tiles[j].prob);
        }
    } else {
        assert(!clears(old, keys, i) && !clears(old, keys, j));
    }
}

/// After resolving quantum-flagged groups, a measured group still holds its mine, and only one.
proof fn lemma_quant_mine(old: FieldView, new: FieldView, keys: Set<i8>, i: int, j: int)
    requires
        old.board_ok(),
        quant_outcome(old, new, keys),
        0 <= i < old.tiles.len(),
        0 <= j < old.tiles.len(),
        old.tiles[i].group_id != -1,
        new.tiles[i].measured,
    ensures
        new.has_mine(old.tiles[i].group_id),
        old.tiles[j].group_id == old.tiles[i].group_id && new.tiles[i].prob.0 == 12
            && new.tiles[j].prob.0 == 12 ==> i == j,
{
    let h = old.tiles[i].group_id;
    let nt = new.tiles;
    lemma_quant_tile(old, new, keys, j);
    let m = old.members(h);
    if keys.contains(h) && !(m.len() == 0 || old.tiles[m[0]].measured) {
        assert(clears(old, keys, i) && group_settled(old, new.tiles, h));
        let p = choose|p: int| 0 <= p < m.len() && #[trigger] settled_with(old, new.tiles, h, p);
        assert(settled_with(old, nt, h, p));
        lemma_one_mine(old, h, p);
        let mine = m[p];
        assert(nt[mine].prob == resolved_tiles(old, h, p)[mine].prob);
        lemma_quant_tile(old, new, keys, mine);
        assert(new.tiles[mine].group_id == h);
        assert(nt[i].prob == resolved_tiles(old, h, p)[i].prob);
        if old.tiles[j].group_id == h {
            assert(nt[j].prob == resolved_tiles(old, h, p)[j].prob);
        }
    } else {
        if keys.contains(h) {
            assert(clears(old, keys, i) && group_settled(old, new.tiles, h));
            assert(nt[i].prob == old.tiles[i].prob);
            assert(nt[i].measured == old.tiles[i].measured);
            if old.tiles[j].group_id == h {
                assert(nt[j].prob == old.tiles[j].prob);
            }
        } else {
            assert(!clears(old, keys, i));
            if old.tiles[j].group_id == h {
                assert(!clears(old, keys, j));
            }
        }
        assert(old.tiles[i].measured);
        assert(old.has_mine(h));
        let w = choose|w: int| 0 <= w < old.tiles.len() && #[trigger] old.tiles[w].group_id == h && old.tiles[w].prob.0 == 12;
        if keys.contains(h) {
            assert(clears(old, keys, w) && group_settled(old, new.tiles, h));
            assert(nt[w].prob == old.tiles[w].prob);
        } else {
            assert(!clears(old, keys, w));
        }
        lemma_quant_tile(old, new, keys, w);
        assert(new.tiles[w].group_id == h);
    }
}

/// Resolving quantum-flagged groups keeps the board invariants.
pub proof fn lemma_quant_ok(old: FieldView, new: FieldView, keys: Set<i8>)
    requires
        old.board_ok(),
        quant_outcome(old, new, keys),
    ensures
        new.board_ok(),
{
    let n = old.tiles.len();
    assert forall|i: int| 0 <= i < n implies #[trigger] new.tiles[i].group_id == old.tiles[i].group_id by {
        lemma_quant_tile(old, new, keys, i);
    }
    lemma_members_same(new, old);
    assert forall|i: int|
        0 <= i < n && #[trigger] new.tiles[i].group_id != -1 && !new.tiles[i].measured implies new.members(new.tiles[i].group_id).len() <= 4
        && new.tiles[i].prob.0 == size_prob(new.members(new.tiles[i].group_id).len() as int) by {
        lemma_quant_tile(old, new, keys, i);
    }
    assert forall|i: int|
        0 <= i < n && #[trigger] new.tiles[i].group_id != -1 && new.tiles[i].measured implies new.has_mine(
        new.tiles[i].group_id,
    ) by {
        lemma_quant_mine(old, new, keys, i, i);
    }
    assert forall|i: int, j: int|
        0 <= i < n && 0 <= j < n && #[trigger] new.tiles[i].group_id == #[trigger] new.tiles[j].group_id
            && new.tiles[i].group_id != -1 && new.tiles[i].prob.0 == 12 && new.tiles[j].prob.0 == 12
            && new.tiles[i].measured implies i == j by {
        lemma_quant_mine(old, new, keys, i, j);
    }
    assert forall|i: int| 0 <= i < n implies (#[trigger] new.tiles[i].measured ==> new.tiles[i].prob.0
        == 0 || new.tiles[i].prob.0 == 12) && (new.tiles[i].status == TileStatus::Opened
        ==> new.tiles[i].measured) && (new.tiles[i].group_id == -1 && !new.tiles[i].measured
        ==> new.tiles[i].prob.0 == 0) by {
        lemma_quant_tile(old, new, keys, i);
    }
    assert forall|i: int, j: int|
        0 <= i < n && 0 <= j < n && #[trigger] new.tiles[i].group_id == #[trigger] new.tiles[j].group_id
            && new.tiles[i].group_id != -1 implies new.tiles[i].measured == new.tiles[j].measured by {
        lemma_quant_tile(old, new, keys, i);
        lemma_quant_tile(old, new, keys, j);
        lemma_quant_pair(old, new, keys, i, j);
    }
}

/// A tile of an in-bounds index has a place in its group's member list.
pub(crate) proof fn lemma_member_listed(v: FieldView, i: int)
    requires
        0 <= i < v.tiles.len(),
    ensures
        v.members(v.tiles[i].group_id).len() > 0,
{
    lemma_group_indices(v.tiles, v.tiles[i].group_id, v.tiles.len());
}

/// Appends the cell of index `i` and its in-bounds neighbours.
fn push_area(f: &Field, out: &mut Vec<(i32, i32)>, i: usize)
    requires
        f@.wf(),
        f@.addressable(),
        i < f@.tiles.len(),
    ensures
        area_listed(f@, i as int, final(out)@),
        forall|c: (i32, i32)| old(out)@.contains(c) ==> #[trigger] final(out)@.contains(c),
        forall|k: int|
            0 <= k < final(out)@.len() ==> (k < old(out)@.len() && #[trigger] final(out)@[k] == old(
                out,
            )@[k]) || f@.in_bounds(final(out)@[k].0 as int, final(out)@[k].1 as int),
        old(out)@.len() <= final(out)@.len(),
{
    let w = f.width as usize;
    proof {
        lemma_coords_index(i as int, w as int, f.height as int);
    }
    let x = (i % w) as i32;
    let y = (i / w) as i32;
    let ghost start = out@;
    out.push((x, y));
    assert(out@[start.len() as int] == (x, y));
    let mut k: usize = 0;
    while k < 8
        invariant
            f@.wf(),
            f@.width <= 0x8000_0000,
            f@.height <= 0x8000_0000,
            0 <= x < f@.width,
            0 <= y < f@.height,
            (x, y) == cell_of(f@, i as int),
            (x as int, y as int) == f@.coords(i as int),
            k <= 8,
            start.len() < out@.len(),
            forall|j: int| 0 <= j < start.len() ==> #[trigger] out@[j] == start[j],
            out@.contains((x, y)),
            forall|j: int|
                0 <= j < out@.len() ==> (j < start.len() && #[trigger] out@[j] == start[j])
                    || f@.in_bounds(out@[j].0 as int, out@[j].1 as int),
            forall|j: int|
                0 <= j < k && f@.in_bounds(x + direction(j).0, y + direction(j).1) ==> out@.contains(
                    ((x + #[trigger] direction(j).0) as i32, (y + direction(j).1) as i32),
                ),
        decreases 8 - k,
    {
        let (dx, dy) = direction_at(k);
        let nx = x as i64 + dx;
        let ny = y as i64 + dy;
        let ghost before = out@;
        if 0 <= nx && 0 <= ny && nx < f.width as i64 && ny < f.height as i64 {
            out.push((nx as i32, ny as i32));
            assert(out@[before.len() as int] == (nx as i32, ny as i32));
        }
        assert forall|j: int|
            0 <= j < k + 1 && f@.in_bounds(x + direction(j).0, y + direction(j).1) implies out@.contains(
            ((x + #[trigger] direction(j).0) as i32, (y + direction(j).1) as i32),
        ) by {
            if j < k {
                let c = ((x + direction(j).0) as i32, (y + direction(j).1) as i32);
                let q = choose|q: int| 0 <= q < before.len() && before[q] == c;
                assert(out@[q] == c);
            }
        }
        assert(out@.contains((x, y))) by {
            let q = choose|q: int| 0 <= q < before.len() && before[q] == (x, y);
            assert(out@[q] == (x, y));
        }
        k = k + 1;
    }
    assert forall|c: (i32, i32)| start.contains(c) implies #[trigger] out@.contains(c) by {
        let q = choose|q: int| 0 <= q < start.len() && start[q] == c;
        assert(out@[q] == c);
    }
}

/// Whether hiding group `g` touches tile `t`; -1 stands for the flagged lone tiles.
pub open spec fn hides(t: Tile, g: i8) -> bool {
    if g == -1 {
        t.group_id == -1 && t.status == TileStatus::QuantFlag
    } else {
        t.group_id == g
    }
}

/// A tile touched by hiding group `g`: hidden again, and measured if it was a lone tile.
pub open spec fn hidden(t: Tile, g: i8) -> Tile {
    if g == -1 {
        Tile { status: TileStatus::Hidden, measured: true, ..t }
    } else {
        Tile { status: TileStatus::Hidden, ..t }
    }
}

/// Hides the tiles of group `g` (for -1, the flagged lone tiles, which count as measured) and
/// appends each with its neighbours to `out`.
fn hide_cleared(f: &mut Field, g: i8, out: &mut Vec<(i32, i32)>)
    requires
        old(f)@.wf(),
        old(f)@.addressable(),
    ensures
        final(f)@.width == old(f)@.width,
        final(f)@.height == old(f)@.height,
        final(f)@.tiles.len() == old(f)@.tiles.len(),
        forall|i: int|
            0 <= i < old(f)@.tiles.len() ==> #[trigger] final(f)@.tiles[i] == if hides(
                old(f)@.tiles[i],
                g,
            ) {
                hidden(old(f)@.tiles[i], g)
            } else {
                old(f)@.tiles[i]
            },
        forall|c: (i32, i32)| old(out)@.contains(c) ==> #[trigger] final(out)@.contains(c),
        forall|k: int|
            0 <= k < final(out)@.len() ==> (k < old(out)@.len() && #[trigger] final(out)@[k] == old(out)@[k]) || old(f)@.in_bounds(final(out)@[k].0 as int, final(out)@[k].1 as int),
        forall|i: int|
            0 <= i < old(f)@.tiles.len() && hides(old(f)@.tiles[i], g) ==> #[trigger] area_listed(
                old(f)@,
                i,
                final(out)@,
            ),
{
    let ghost old_v = f@;
    let ghost old_out = out@;
    let n = f.tiles.len();
    let mut i: usize = 0;
    while i < n
        invariant
            old_v.wf(),
            old_v.addressable(),
            n == old_v.tiles.len(),
            i <= n,
            f@.width == old_v.width,
            f@.height == old_v.height,
            f@.tiles.len() == n,
            forall|j: int|
                0 <= j < i ==> #[trigger] f@.tiles[j] == if hides(old_v.tiles[j], g) {
                    hidden(old_v.tiles[j], g)
                } else {
                    old_v.tiles[j]
                },
            forall|j: int| i <= j < n ==> #[trigger] f@.tiles[j] == old_v.tiles[j],
            forall|c: (i32, i32)| old_out.contains(c) ==> #[trigger] out@.contains(c),
            old_out.len() <= out@.len(),
            forall|k: int|
                0 <= k < out@.len() ==> (k < old_out.len() && #[trigger] out@[k] == old_out[k])
                    || old_v.in_bounds(out@[k].0 as int, out@[k].1 as int),
            forall|j: int|
                0 <= j < i && hides(old_v.tiles[j], g) ==> #[trigger] area_listed(old_v, j, out@),
        decreases n - i,
    {
        let t = f.tiles[i];
        let touched = if g == -1 {
            t.group_id == -1 && t.status == TileStatus::QuantFlag
        } else {
            t.group_id == g
        };
        if touched {
            let mut u = t;
            u.status = TileStatus::Hidden;
            if g == -1 {
                u.measured = true;
            }
            f.tiles.set(i, u);
            let ghost prev = out@;
            push_area(f, out, i);
            assert forall|j: int| 0 <= j < i && hides(old_v.tiles[j], g) implies #[trigger] area_listed(
                old_v,
                j,
                out@,
            ) by {
                assert(area_listed(old_v, j, prev));
            }
        }
        i = i + 1;
    }
}

/// Measuring group `g` changes its members alone, and no group id.
proof fn lemma_collapse_frame(before: FieldView, mid: FieldView, g: i8)
    requires
        mid == before || (mid.width == before.width && mid.height == before.height && exists|p: int|
            0 <= p < before.members(g).len() && mid.tiles == #[trigger] resolved_tiles(before, g, p)),
    ensures
        mid.width == before.width,
        mid.height == before.height,
        mid.tiles.len() == before.tiles.len(),
        forall|i: int|
            0 <= i < before.tiles.len() ==> #[trigger] mid.tiles[i].group_id == before.tiles[i].group_id,
        forall|i: int|
            0 <= i < before.tiles.len() && before.tiles[i].group_id != g ==> #[trigger] mid.tiles[i]
                == before.tiles[i],
{
    if mid != before {
        let p = choose|p: int|
            0 <= p < before.members(g).len() && mid.tiles == #[trigger] resolved_tiles(before, g, p);
    }
}

/// A group whose members keep their probabilities and marks stays settled.
proof fn lemma_settle_frame(old: FieldView, a: Seq<Tile>, b: Seq<Tile>, g: i8)
    requires
        group_settled(old, a, g),
        forall|i: int|
            0 <= i < old.tiles.len() && old.tiles[i].group_id == g ==> #[trigger] b[i].prob == a[i].prob
                && b[i].measured == a[i].measured,
    ensures
        group_settled(old, b, g),
{
    let m = old.members(g);
    if !(m.len() == 0 || old.tiles[m[0]].measured) {
        let p = choose|p: int| 0 <= p < m.len() && #[trigger] settled_with(old, a, g, p);
        assert(settled_with(old, a, g, p));
        assert forall|i: int| 0 <= i < old.tiles.len() && old.tiles[i].group_id == g implies #[trigger] b[i].prob
            == resolved_tiles(old, g, p)[i].prob && b[i].measured by {
            assert(a[i].prob == resolved_tiles(old, g, p)[i].prob);
            assert(b[i].prob == a[i].prob && b[i].measured == a[i].measured);
        }
        assert(settled_with(old, b, g, p));
    }
}

/// Measuring a group whose members still hold their first values, then hiding it, settles it.
proof fn lemma_settle_step(old: FieldView, before: FieldView, mid: FieldView, after: FieldView, g: i8)
    requires
        g != -1,
        before.tiles.len() == old.tiles.len(),
        mid.tiles.len() == old.tiles.len(),
        after.tiles.len() == old.tiles.len(),
        before.members(g) == old.members(g),
        forall|i: int|
            0 <= i < old.tiles.len() && old.tiles[i].group_id == g ==> #[trigger] before.tiles[i]
                == old.tiles[i],
        old.members(g).len() == 0 ==> mid == before,
        old.members(g).len() > 0 && before.tiles[old.members(g)[0]].measured ==> mid == before,
        old.members(g).len() > 0 && !before.tiles[old.members(g)[0]].measured ==> exists|p: int|
            0 <= p < before.members(g).len() && mid.tiles == #[trigger] resolved_tiles(before, g, p),
        forall|i: int|
            0 <= i < old.tiles.len() ==> #[trigger] after.tiles[i] == if hides(mid.tiles[i], g) {
                hidden(mid.tiles[i], g)
            } else {
                mid.tiles[i]
            },
        forall|i: int| 0 <= i < old.tiles.len() ==> #[trigger] before.tiles[i].group_id == old.tiles[i].group_id,
    ensures
        group_settled(old, after.tiles, g),
{
    let m = old.members(g);
    lemma_group_indices(old.tiles, g, old.tiles.len());
    if m.len() > 0 {
        assert(old.tiles[m[0]].group_id == g);
    }
    if !(m.len() == 0 || old.tiles[m[0]].measured) {
        let p = choose|p: int|
            0 <= p < before.members(g).len() && mid.tiles == #[trigger] resolved_tiles(before, g, p);
        assert forall|i: int| 0 <= i < old.tiles.len() && old.tiles[i].group_id == g implies #[trigger] after.tiles[i].prob
            == resolved_tiles(old, g, p)[i].prob && after.tiles[i].measured by {
            assert(mid.tiles[i] == resolved_tiles(before, g, p)[i]);
        }
        assert(settled_with(old, after.tiles, g, p));
    }
}

/// Measurement of tiles and entangled groups.
pub trait Collapser: View<V = FieldView> + Sized {
    /// Measures a lone tile: it becomes a certain blank. Only a measured tile is refused.
    fn collapse_simple_tile(&mut self, x: i32, y: i32) -> (r: Result<(), FieldError>)
        requires
            old(self)@.wf(),
        ensures
            final(self)@.wf(),
            !old(self)@.in_bounds(x as int, y as int) ==> r == Err::<(), FieldError>(
                FieldError::BadCoord,
            ) && final(self)@ == old(self)@,
            old(self)@.in_bounds(x as int, y as int) && old(self)@.tile(x as int, y as int).measured
                ==> r == Err::<(), FieldError>(FieldError::AlreadyMeasured) && final(self)@ == old(
                self)@,
            old(self)@.in_bounds(x as int, y as int) && !old(self)@.tile(x as int, y as int).measured
                ==> r == Ok::<
                (),
                FieldError,
            >(()) && final(self)@ == (FieldView {
                tiles: simple_measured(old(self)@, old(self)@.index(x as int, y as int)),
                ..old(self)@
            }),
            old(self)@.board_ok() && (!old(self)@.in_bounds(x as int, y as int) || old(self)@.tile(
                x as int,
                y as int,
            ).group_id == -1) ==> final(self)@.board_ok(),
    ;

    /// Settles the mine of group `group_id` on its member number `pick`.
    fn resolve_group(&mut self, group_id: i8, pick: usize)
        requires
            old(self)@.wf(),
            pick < old(self)@.members(group_id).len(),
        ensures
            final(self)@.wf(),
            final(self)@ == (FieldView {
                tiles: resolved_tiles(old(self)@, group_id, pick as int),
                ..old(self)@
            }),
            old(self)@.board_ok() ==> final(self)@.board_ok(),
    ;

    /// Measures group `group_id`, settling its mine on a member drawn at random. An empty
    /// group is left as it is.
    fn collapse_group(&mut self, group_id: i8) -> (r: Result<(), FieldError>)
        requires
            old(self)@.wf(),
        ensures
            final(self)@.wf(),
            old(self)@.members(group_id).len() == 0 ==> r == Ok::<(), FieldError>(()) && final(self)@ == old(self)@,
            old(self)@.members(group_id).len() > 0 && old(self)@.tiles[old(self)@.members(group_id)[0]].measured ==> r == Err::<(), FieldError>(
                FieldError::AlreadyMeasured,
            ) && final(self)@ == old(self)@,
            old(self)@.members(group_id).len() > 0 && !old(self)@.tiles[old(self)@.members(group_id)[0]].measured ==> r == Ok::<(), FieldError>(()) && final(self)@.width
                == old(self)@.width && final(self)@.height == old(self)@.height && exists|p: int|
                0 <= p < old(self)@.members(group_id).len() && final(self)@.tiles
                    == #[trigger] resolved_tiles(old(self)@, group_id, p),
            old(self)@.board_ok() ==> final(self)@.board_ok(),
    ;

    /// Measures the tile at (x, y): a lone tile becomes blank, a group member has its whole
    /// group measured.
    fn collapse(&mut self, x: i32, y: i32) -> (r: Result<(), FieldError>)
        requires
            old(self)@.wf(),
        ensures
            final(self)@.wf(),
            !old(self)@.in_bounds(x as int, y as int) ==> r == Err::<(), FieldError>(
                FieldError::BadCoord,
            ) && final(self)@ == old(self)@,
            old(self)@.in_bounds(x as int, y as int) && measure_refused(old(self)@, x as int, y as int)
                ==> r == Err::<(), FieldError>(FieldError::AlreadyMeasured) && final(self)@ == old(self)@,
            old(self)@.in_bounds(x as int, y as int) && !measure_refused(
                old(self)@,
                x as int,
                y as int,
            ) ==> r == Ok::<(), FieldError>(()) && final(self)@.width == old(self)@.width && final(self)@.height == old(self)@.height && measured_at(
                old(self)@,
                x as int,
                y as int,
                final(self)@.tiles,
            ),
            old(self)@.board_ok() ==> final(self)@.board_ok(),
    ;

    /// The distinct group ids of the tiles that carry a quantum flag.
    fn get_tiles_with_quant_flags(&self) -> (r: Vec<i8>)
        ensures
            r@.no_duplicates(),
            forall|g: i8| r@.contains(g) <==> #[trigger] quant_groups(self@).contains(g),
    ;

    /// Resolves each of `quantum_groups` and hides its tiles; -1 stands for the flagged lone
    /// tiles. Returns the cells that may look different now.
    fn collapse_quant_flag_groups(&mut self, quantum_groups: &Vec<i8>) -> (r: Vec<(i32, i32)>)
        requires
            old(self)@.wf(),
            old(self)@.addressable(),
            quantum_groups@.no_duplicates(),
        ensures
            final(self)@.wf(),
            quant_outcome(old(self)@, final(self)@, quantum_groups@.to_set()),
            reports(old(self)@, quantum_groups@.to_set(), r@),
            old(self)@.board_ok() ==> final(self)@.board_ok(),
    ;

    /// Resolves every group that holds a quantum flag. Returns the cells that may look
    /// different now.
    fn collapse_quant_flags(&mut self) -> (r: Vec<(i32, i32)>)
        requires
            old(self)@.wf(),
            old(self)@.addressable(),
        ensures
            final(self)@.wf(),
            quant_outcome(old(self)@, final(self)@, quant_groups(old(self)@)),
            reports(old(self)@, quant_groups(old(self)@), r@),
            old(self)@.board_ok() ==> final(self)@.board_ok(),
    ;
}

/// The row-major indices of the members of group `g`.
fn member_indices(f: &Field, g: i8) -> (r: Vec<usize>)
    requires
        f@.wf(),
    ensures
        r@.len() == f@.members(g).len(),
        forall|k: int| 0 <= k < r@.len() ==> #[trigger] r@[k] as int == f@.members(g)[k],
{
    let mut out: Vec<usize> = Vec::new();
    let mut i: usize = 0;
    while i < f.tiles.len()
        invariant
            i <= f@.tiles.len(),
            out@.len() == group_indices(f@.tiles, g, i as nat).len(),
            forall|k: int| 0 <= k < out@.len() ==> #[trigger] out@[k] as int == group_indices(
                f@.tiles,
                g,
                i as nat,
            )[k],
        decreases f@.tiles.len() - i,
    {
        if f.tiles[i].group_id == g {
            out.push(i);
        }
        i = i + 1;
    }
    out
}

impl Collapser for Field {
    fn collapse_simple_tile(&mut self, x: i32, y: i32) -> (r: Result<(), FieldError>) {
        if !self.is_inside_bounds(x, y) {
            return Err(FieldError::BadCoord);
        }
        let i = index_of(self, x as i64, y as i64);
        let mut t = self.tiles[i];
        if t.measured {
            return Err(FieldError::AlreadyMeasured);
        }
        t.measured = true;
        t.prob = Prob(0);
        let ghost old_v = self@;
        self.tiles.set(i, t);
        proof {
            if old_v.board_ok() && old_v.tiles[i as int].group_id == -1 {
                lemma_simple_ok(old_v, i as int);
                assert(self@ == (FieldView { tiles: simple_measured(old_v, i as int), ..old_v }));
            }
        }
        Ok(())
    }

    fn resolve_group(&mut self, group_id: i8, pick: usize) {
        let ghost old_v = self@;
        let n = self.tiles.len();
        let mut seen: usize = 0;
        let mut i: usize = 0;
        proof {
            lemma_group_indices(old_v.tiles, group_id, n as nat);
        }
        while i < n
            invariant
                old_v.wf(),
                n == old_v.tiles.len(),
                pick < old_v.members(group_id).len(),
                self@.width == old_v.width,
                self@.height == old_v.height,
                self@.tiles.len() == n,
                i <= n,
                seen <= i,
                seen == group_indices(old_v.tiles, group_id, i as nat).len(),
                forall|a: int, b: int|
                    0 <= a < b < old_v.members(group_id).len() ==> #[trigger] old_v.members(
                        group_id,
                    )[a] < #[trigger] old_v.members(group_id)[b],
                forall|j: int|
                    0 <= j < i ==> #[trigger] self@.tiles[j] == resolved_tiles(
                        old_v,
                        group_id,
                        pick as int,
                    )[j],
                forall|j: int| i <= j < n ==> #[trigger] self@.tiles[j] == old_v.tiles[j],
            decreases n - i,
        {
            let mut t = self.tiles[i];
            if t.group_id == group_id {
                proof {
                    lemma_group_indices_prefix(old_v.tiles, group_id, (i + 1) as nat, n as nat);
                    assert(group_indices(old_v.tiles, group_id, (i + 1) as nat) == group_indices(
                        old_v.tiles,
                        group_id,
                        i as nat,
                    ).push(i as int));
                    assert(old_v.members(group_id)[seen as int] == i);
                }
                t.measured = true;
                t.prob = if seen == pick {
                    Prob(12)
                } else {
                    Prob(0)
                };
                self.tiles.set(i, t);
                seen = seen + 1;
            }
            i = i + 1;
        }
        assert(self@.tiles =~= resolved_tiles(old_v, group_id, pick as int));
        proof {
            if old_v.board_ok() {
                lemma_resolved_ok(old_v, group_id, pick as int);
            }
        }
    }

    fn collapse_group(&mut self, group_id: i8) -> (r: Result<(), FieldError>) {
        let members = member_indices(self, group_id);
        if members.len() == 0 {
            return Ok(());
        }
        proof {
            lemma_group_indices(self@.tiles, group_id, self@.tiles.len());
            assert(self@.members(group_id)[0] == members@[0] as int);
        }
        if self.tiles[members[0]].measured {
            return Err(FieldError::AlreadyMeasured);
        }
        let pick = random_below(&mut self.rng, members.len());
        self.resolve_group(group_id, pick);
        Ok(())
    }

    fn collapse(&mut self, x: i32, y: i32) -> (r: Result<(), FieldError>) {
        if !self.is_inside_bounds(x, y) {
            return Err(FieldError::BadCoord);
        }
        let i = index_of(self, x as i64, y as i64);
        let t = self.tiles[i];
        if t.measured {
            return Err(FieldError::AlreadyMeasured);
        }
        if t.group_id == -1 {
            self.collapse_simple_tile(x, y)
        } else {
            proof {
                lemma_member_listed(self@, i as int);
            }
            let members = member_indices(self, t.group_id);
            let pick = random_below(&mut self.rng, members.len());
            let ghost before = self@;
            self.resolve_group(t.group_id, pick);
            assert(self@.tiles == resolved_tiles(before, t.group_id, pick as int));
            Ok(())
        }
    }

    fn get_tiles_with_quant_flags(&self) -> (r: Vec<i8>) {
        let mut found: Vec<i8> = Vec::new();
        let mut i: usize = 0;
        while i < self.tiles.len()
            invariant
                i <= self@.tiles.len(),
                found@.no_duplicates(),
                forall|q: int|
                    0 <= q < found@.len() ==> #[trigger] quant_groups(self@).contains(found@[q]),
                forall|j: int|
                    0 <= j < i && #[trigger] self@.tiles[j].status == TileStatus::QuantFlag
                        ==> found@.contains(self@.tiles[j].group_id),
            decreases self@.tiles.len() - i,
        {
            let t = self.tiles[i];
            if t.status == TileStatus::QuantFlag {
                let mut known = false;
                let mut k: usize = 0;
                while k < found.len()
                    invariant
                        k <= found@.len(),
                        known <==> exists|q: int| 0 <= q < k && found@[q] == t.group_id,
                    decreases found@.len() - k,
                {
                    if found[k] == t.group_id {
                        known = true;
                    }
                    k = k + 1;
                }
                assert(quant_groups(self@).contains(t.group_id)) by {
                    assert(self@.tiles[i as int].status == TileStatus::QuantFlag);
                }
                let ghost prev = found@;
                if !known {
                    found.push(t.group_id);
                    assert(found@[prev.len() as int] == t.group_id);
                    assert forall|c: i8| prev.contains(c) implies found@.contains(c) by {
                        let q = choose|q: int| 0 <= q < prev.len() && prev[q] == c;
                        assert(found@[q] == c);
                    }
                }
                assert(found@.contains(t.group_id));
            }
            i = i + 1;
        }
        assert forall|g: i8| #[trigger] quant_groups(self@).contains(g) implies found@.contains(g) by {
            let j = choose|j: int|
                0 <= j < self@.tiles.len() && #[trigger] self@.tiles[j].status == TileStatus::QuantFlag
                    && self@.tiles[j].group_id == g;
        }
        found
    }

    fn collapse_quant_flag_groups(&mut self, quantum_groups: &Vec<i8>) -> (r: Vec<(i32, i32)>) {
        let ghost old_v = self@;
        let mut modified: Vec<(i32, i32)> = Vec::new();
        let n = self.tiles.len();
        let mut j: usize = 0;
        while j < quantum_groups.len()
            invariant
                old_v.wf(),
                old_v.addressable(),
                self@.wf(),
                n == old_v.tiles.len(),
                quantum_groups@.no_duplicates(),
                j <= quantum_groups@.len(),
                self@.width == old_v.width,
                self@.height == old_v.height,
                self@.tiles.len() == n,
                forall|i: int|
                    0 <= i < n ==> #[trigger] self@.tiles[i].group_id == old_v.tiles[i].group_id,
                forall|i: int|
                    0 <= i < n && !clears(old_v, quantum_groups@.subrange(0, j as int).to_set(), i)
                        ==> #[trigger] self@.tiles[i] == old_v.tiles[i],
                forall|i: int|
                    0 <= i < n && clears(old_v, quantum_groups@.subrange(0, j as int).to_set(), i)
                        ==> #[trigger] self@.tiles[i].status == TileStatus::Hidden,
                forall|i: int|
                    0 <= i < n && clears(old_v, quantum_groups@.subrange(0, j as int).to_set(), i)
                        && old_v.tiles[i].group_id == -1 ==> #[trigger] self@.tiles[i].measured
                        && self@.tiles[i].prob == old_v.tiles[i].prob,
                forall|g: i8|
                    quantum_groups@.subrange(0, j as int).contains(g) && g != -1
                        ==> #[trigger] group_settled(old_v, self@.tiles, g),
                reports(old_v, quantum_groups@.subrange(0, j as int).to_set(), modified@),
            decreases quantum_groups@.len() - j,
        {
            let g = quantum_groups[j];
            let ghost done = quantum_groups@.subrange(0, j as int);
            let ghost done_next = quantum_groups@.subrange(0, j as int + 1);
            assert(done_next =~= done.push(g));
            assert(done_next[j as int] == g);
            assert(done_next.to_set().contains(g));
            assert(!done.contains(g)) by {
                if done.contains(g) {
                    let q = choose|q: int| 0 <= q < done.len() && done[q] == g;
                    assert(quantum_groups@[q] == quantum_groups@[j as int]);
                }
            }
            let ghost before = self@;
            proof {
                lemma_group_indices_same(before.tiles, old_v.tiles, g, n as nat);
            }
            if g != -1 {
                let _ = self.collapse_group(g);
            }
            let ghost mid = self@;
            proof {
                if g != -1 {
                    lemma_collapse_frame(before, mid, g);
                }
            }
            let ghost old_out = modified@;
            hide_cleared(self, g, &mut modified);
            proof {
                assert forall|i: int|
                    0 <= i < n && !clears(old_v, done_next.to_set(), i) implies #[trigger] self@.tiles[i]
                    == old_v.tiles[i] by {
                    assert(!clears(old_v, done.to_set(), i));
                    assert(before.tiles[i] == old_v.tiles[i]);
                    if g != -1 {
                        assert(old_v.tiles[i].group_id != g);
                    }
                    assert(mid.tiles[i] == before.tiles[i]);
                    assert(!hides(mid.tiles[i], g));
                }
                assert forall|i: int| 0 <= i < n && old_v.tiles[i].group_id == g implies #[trigger] before.tiles[i]
                    == old_v.tiles[i] by {
                    if g != -1 {
                        assert(!clears(old_v, done.to_set(), i));
                    }
                }
                assert forall|g2: i8| done_next.contains(g2) && g2 != -1 implies #[trigger] group_settled(
                    old_v,
                    self@.tiles,
                    g2,
                ) by {
                    if g2 == g {
                        lemma_settle_step(old_v, before, mid, self@, g);
                    } else {
                        assert(done.contains(g2));
                        assert(group_settled(old_v, before.tiles, g2));
                        lemma_settle_frame(old_v, before.tiles, self@.tiles, g2);
                    }
                }
                assert forall|i: int|
                    0 <= i < n && clears(old_v, done_next.to_set(), i) implies #[trigger] area_listed(
                    old_v,
                    i,
                    modified@,
                ) by {
                    if clears(old_v, done.to_set(), i) {
                        assert(area_listed(old_v, i, old_out));
                    } else {
                        assert(area_listed(mid, i, modified@));
                    }
                }
            }
            j = j + 1;
        }
        assert(quantum_groups@.subrange(0, j as int) =~= quantum_groups@);
        proof {
            if old_v.board_ok() {
                lemma_quant_ok(old_v, self@, quantum_groups@.to_set());
            }
        }
        modified
    }

    fn collapse_quant_flags(&mut self) -> (r: Vec<(i32, i32)>) {
        let groups = self.get_tiles_with_quant_flags();
        let r = self.collapse_quant_flag_groups(&groups);
        assert(groups@.to_set() =~= quant_groups(old(self)@));
        r
    }
}

} // verus!
