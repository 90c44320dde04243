use vstd::prelude::*;

use crate::field::{index_of, Field, FieldError, FieldView, MiscMethods};
use crate::rng::{random_choice, random_shuffle};
use crate::tile::{Prob, Tile};

verus! {

/// The largest number of groups a board may hold: group ids run from 0 to 126.
pub const MAX_GROUPS: usize = 127;

/// The largest number of cells in a group.
pub const MAX_GROUP_SIZE: usize = 4;

/// No cell lies in two groups, nor twice in one.
pub open spec fn groups_disjoint(gs: Seq<Vec<usize>>) -> bool {
    forall|g1: int, pa: int, g2: int, pb: int|
        0 <= g1 < gs.len() && 0 <= g2 < gs.len() && 0 <= pa < gs[g1]@.len() && 0 <= pb
            < gs[g2]@.len() && (g1 != g2 || pa != pb) ==> #[trigger] gs[g1]@[pa]
            != #[trigger] gs[g2]@[pb]
}

/// Every group has between one and four cells.
pub open spec fn sizes_ok(gs: Seq<Vec<usize>>) -> bool {
    forall|g: int| 0 <= g < gs.len() ==> 1 <= #[trigger] gs[g]@.len() <= MAX_GROUP_SIZE
}

/// Some group holds cell `i`.
pub open spec fn in_some_group(gs: Seq<Vec<usize>>, i: int) -> bool {
    exists|g: int, p: int| 0 <= g < gs.len() && 0 <= p < gs[g]@.len() && #[trigger] gs[g]@[p] == i
}

/// The number of cells in the first `k` groups.
pub open spec fn total_size(gs: Seq<Vec<usize>>, k: int) -> int
    decreases k,
{
    if k <= 0 {
        0
    } else {
        total_size(gs, k - 1) + gs[k - 1]@.len()
    }
}

/// Adding one cell to group `gi` adds one to the count.
proof fn lemma_total_grow(a: Seq<Vec<usize>>, b: Seq<Vec<usize>>, gi: int, k: int)
    requires
        0 <= k <= a.len(),
        a.len() == b.len(),
        0 <= gi < a.len(),
        b[gi]@.len() == a[gi]@.len() + 1,
        forall|g: int| 0 <= g < a.len() && g != gi ==> #[trigger] b[g]@.len() == a[g]@.len(),
    ensures
        total_size(b, k) == total_size(a, k) + if gi < k { 1int } else { 0int },
    decreases k,
{
    if k > 0 {
        lemma_total_grow(a, b, gi, k - 1);
    }
}

/// With at most four cells a group, the count is at most four a group, and reaches that only
/// when every group is full.
proof fn lemma_total_bound(gs: Seq<Vec<usize>>, k: int)
    requires
        0 <= k <= gs.len(),
        forall|g: int| 0 <= g < gs.len() ==> #[trigger] gs[g]@.len() <= MAX_GROUP_SIZE,
    ensures
        total_size(gs, k) <= 4 * k,
        total_size(gs, k) == 4 * k <==> forall|g: int| 0 <= g < k ==> #[trigger] gs[g]@.len() == MAX_GROUP_SIZE,
    decreases k,
{
    if k > 0 {
        lemma_total_bound(gs, k - 1);
    }
}

/// Groups of one cell each hold as many cells as there are groups.
proof fn lemma_total_singletons(gs: Seq<Vec<usize>>, k: int)
    requires
        0 <= k <= gs.len(),
        forall|g: int| 0 <= g < gs.len() ==> #[trigger] gs[g]@.len() == 1,
    ensures
        total_size(gs, k) == k,
    decreases k,
{
    if k > 0 {
        lemma_total_singletons(gs, k - 1);
    }
}

/// Every group is full.
pub open spec fn all_full(gs: Seq<Vec<usize>>) -> bool {
    forall|g: int| 0 <= g < gs.len() ==> #[trigger] gs[g]@.len() == MAX_GROUP_SIZE
}

/// The indices below `n` other than `k`, in order.
pub open spec fn all_but(n: int, k: int) -> Seq<usize> {
    Seq::new((n - 1) as nat, |i: int| (if i < k { i } else { i + 1 }) as usize)
}

/// Every tile is hidden, unmeasured, outside all groups.
pub open spec fn fresh(v: FieldView) -> bool {
    forall|i: int| 0 <= i < v.tiles.len() ==> #[trigger] v.tiles[i] == Tile::empty_spec()
}

/// The number of cells a request for `candidates` gives on a board of `n` cells: at least
/// one, at most every cell but the first click.
pub open spec fn candidate_count(candidates: usize, n: int) -> int {
    let c = if candidates == 0 {
        1
    } else {
        candidates as int
    };
    if c > n - 1 {
        n - 1
    } else {
        c
    }
}

/// The number of cells `groups` groups take when `candidates` cells are asked for: each group
/// has at least one, and none more than four.
pub open spec fn cell_count(groups: int, candidates: int) -> int {
    let wanted = if candidates > groups {
        candidates
    } else {
        groups
    };
    if wanted > 4 * groups {
        4 * groups
    } else {
        wanted
    }
}

/// The group count a requested count gives: at least one.
pub open spec fn group_count(groups: usize) -> int {
    if groups == 0 {
        1
    } else {
        groups as int
    }
}

/// Splits off the first `total_groups` cells, one per new group.
pub fn make_groups(available_tiles: &mut Vec<usize>, total_groups: usize) -> (r: Result<
    Vec<Vec<usize>>,
    FieldError,
>)
    ensures
        old(available_tiles)@.len() < total_groups ==> r == Err::<Vec<Vec<usize>>, FieldError>(
            FieldError::TooManyGroups,
        ) && final(available_tiles)@ == old(available_tiles)@,
        old(available_tiles)@.len() >= total_groups ==> r is Ok && final(available_tiles)@ == old(available_tiles)@.subrange(total_groups as int, old(available_tiles)@.len() as int),
        r is Ok ==> r->Ok_0@.len() == total_groups && forall|g: int|
            0 <= g < total_groups ==> (#[trigger] r->Ok_0@[g])@ == seq![old(available_tiles)@[g]],
{
    if available_tiles.len() < total_groups {
        return Err(FieldError::TooManyGroups);
    }
    let ghost start = available_tiles@;
    let mut rest = available_tiles.split_off(total_groups);
    std::mem::swap(available_tiles, &mut rest);
    let mut groups: Vec<Vec<usize>> = Vec::new();
    let mut g: usize = 0;
    while g < total_groups
        invariant
            g <= total_groups,
            total_groups <= start.len(),
            rest@ == start.subrange(0, total_groups as int),
            groups@.len() == g,
            forall|q: int| 0 <= q < g ==> (#[trigger] groups@[q])@ == seq![start[q]],
        decreases total_groups - g,
    {
        let mut one: Vec<usize> = Vec::new();
        one.push(rest[g]);
        groups.push(one);
        g = g + 1;
    }
    Ok(groups)
}

/// The indices of the groups with room for another cell.
fn open_groups(groups: &Vec<Vec<usize>>) -> (r: Vec<usize>)
    ensures
        forall|q: int|
            0 <= q < r@.len() ==> #[trigger] r@[q] < groups@.len() && groups@[r@[q] as int]@.len()
                < MAX_GROUP_SIZE,
        forall|g: int|
            0 <= g < groups@.len() && groups@[g]@.len() < MAX_GROUP_SIZE ==> r@.contains(g as usize),
{
    let mut out: Vec<usize> = Vec::new();
    let mut g: usize = 0;
    while g < groups.len()
        invariant
            g <= groups@.len(),
            forall|q: int|
                0 <= q < out@.len() ==> #[trigger] out@[q] < groups@.len() && groups@[out@[q] as int]@.len()
                    < MAX_GROUP_SIZE,
            forall|h: int|
                0 <= h < g && groups@[h]@.len() < MAX_GROUP_SIZE ==> out@.contains(h as usize),
        decreases groups@.len() - g,
    {
        if groups[g].len() < MAX_GROUP_SIZE {
            let ghost before = out@;
            out.push(g);
            assert(out@[before.len() as int] == g);
            assert forall|h: int|
                0 <= h < g + 1 && groups@[h]@.len() < MAX_GROUP_SIZE implies out@.contains(h as usize) by {
                if h < g {
                    let q = choose|q: int| 0 <= q < before.len() && before[q] == h as usize;
                    assert(out@[q] == h as usize);
                }
            }
        }
        g = g + 1;
    }
    out
}

/// Adds each of the first `available_candidates` cells to a group with room, drawn at random;
/// a cell is left out when every group is full.
pub fn distribute_tiles(
    rng: &mut fastrand::Rng,
    available_tiles: &Vec<usize>,
    groups: &mut Vec<Vec<usize>>,
    available_candidates: usize,
)
    requires
        available_candidates <= available_tiles@.len(),
        available_tiles@.no_duplicates(),
        groups_disjoint(old(groups)@),
        sizes_ok(old(groups)@),
        forall|g: int, p: int|
            0 <= g < old(groups)@.len() && 0 <= p < old(groups)@[g]@.len() ==> !available_tiles@.subrange(
                0,
                available_candidates as int,
            ).contains(#[trigger] old(groups)@[g]@[p]),
    ensures
        final(groups)@.len() == old(groups)@.len(),
        groups_disjoint(final(groups)@),
        sizes_ok(final(groups)@),
        forall|g: int, p: int|
            0 <= g < old(groups)@.len() && 0 <= p < old(groups)@[g]@.len() ==> #[trigger] final(groups)@[g]@[p] == old(groups)@[g]@[p],
        forall|g: int, p: int|
            0 <= g < final(groups)@.len() && old(groups)@[g]@.len() <= p < final(groups)@[g]@.len()
                ==> available_tiles@.subrange(0, available_candidates as int).contains(
                #[trigger] final(groups)@[g]@[p],
            ),
        forall|q: int|
            0 <= q < available_candidates ==> (in_some_group(
                final(groups)@,
                #[trigger] available_tiles@[q] as int,
            ) <==> total_size(old(groups)@, old(groups)@.len() as int) + q < 4 * old(groups)@.len()),
        forall|g: int, pa: int, pb: int, qa: int, qb: int|
            0 <= g < final(groups)@.len() && old(groups)@[g]@.len() <= pa < pb < final(groups)@[g]@.len()
                && 0 <= qa < available_tiles@.len() && 0 <= qb < available_tiles@.len()
                && #[trigger] available_tiles@[qa] == #[trigger] final(groups)@[g]@[pa] && #[trigger] available_tiles@[qb]
                == #[trigger] final(groups)@[g]@[pb] ==> qa < qb,
        total_size(final(groups)@, final(groups)@.len() as int) == if total_size(
            old(groups)@,
            old(groups)@.len() as int,
        ) + available_candidates <= 4 * old(groups)@.len() {
            total_size(old(groups)@, old(groups)@.len() as int) + available_candidates
        } else {
            4 * old(groups)@.len() as int
        },
{
    let ghost start = groups@;
    proof {
        lemma_total_bound(start, start.len() as int);
        assert forall|q: int| 0 <= q < available_candidates implies !in_some_group(
            start,
            #[trigger] available_tiles@[q] as int,
        ) by {
            if in_some_group(start, available_tiles@[q] as int) {
                let (g, p) = choose|g: int, p: int|
                    0 <= g < start.len() && 0 <= p < start[g]@.len() && #[trigger] start[g]@[p]
                        == available_tiles@[q] as int;
                assert(available_tiles@.subrange(0, available_candidates as int)[q] == start[g]@[p]);
            }
        }
    }
    let mut j: usize = 0;
    while j < available_candidates
        invariant
            j <= available_candidates,
            available_candidates <= available_tiles@.len(),
            available_tiles@.no_duplicates(),
            groups@.len() == start.len(),
            groups_disjoint(groups@),
            sizes_ok(groups@),
            forall|g: int| 0 <= g < start.len() ==> start[g]@.len() <= (#[trigger] groups@[g])@.len(),
            forall|g: int, p: int|
                0 <= g < start.len() && 0 <= p < start[g]@.len() ==> #[trigger] groups@[g]@[p]
                    == start[g]@[p],
            forall|g: int, p: int|
                0 <= g < start.len() && 0 <= p < start[g]@.len() ==> !available_tiles@.subrange(
                    0,
                    available_candidates as int,
                ).contains(#[trigger] start[g]@[p]),
            forall|g: int, p: int|
                0 <= g < groups@.len() && start[g]@.len() <= p < groups@[g]@.len()
                    ==> available_tiles@.subrange(0, j as int).contains(#[trigger] groups@[g]@[p]),
            forall|q: int|
                0 <= q < j ==> (in_some_group(groups@, #[trigger] available_tiles@[q] as int)
                    <==> total_size(start, start.len() as int) + q < 4 * start.len()),
            forall|q: int|
                j <= q < available_candidates ==> !in_some_group(
                    groups@,
                    #[trigger] available_tiles@[q] as int,
                ),
            forall|g: int, pa: int, pb: int, qa: int, qb: int|
                0 <= g < groups@.len() && start[g]@.len() <= pa < pb < groups@[g]@.len() && 0 <= qa
                    < available_tiles@.len() && 0 <= qb < available_tiles@.len() && #[trigger] available_tiles@[qa]
                    == #[trigger] groups@[g]@[pa] && #[trigger] available_tiles@[qb] == #[trigger] groups@[g]@[pb]
                    ==> qa < qb,
            total_size(groups@, groups@.len() as int) == if total_size(start, start.len() as int) + j
                <= 4 * start.len() {
                total_size(start, start.len() as int) + j
            } else {
                4 * start.len() as int
            },
        decreases available_candidates - j,
    {
        let tile = available_tiles[j];
        let ghost before = groups@;
        proof {
            lemma_total_bound(before, before.len() as int);
        }
        let open = open_groups(groups);
        let choice = random_choice(rng, open);
        proof {
            assert forall|g: int, p: int|
                0 <= g < groups@.len() && start[g]@.len() <= p < groups@[g]@.len() implies available_tiles@.subrange(
                0,
                j + 1,
            ).contains(#[trigger] groups@[g]@[p]) by {
                let q = choose|q: int|
                    0 <= q < j && available_tiles@.subrange(0, j as int)[q] == groups@[g]@[p];
                assert(available_tiles@.subrange(0, j + 1)[q] == groups@[g]@[p]);
            }
        }
        match choice {
            Some(gi) => {
                proof {
                    let q = choose|q: int| 0 <= q < open@.len() && open@[q] == gi;
                    assert(open@[q] < groups@.len());
                }
                groups[gi].push(tile);
                proof {
                    assert(available_tiles@.subrange(0, j + 1)[j as int] == tile);
                    assert forall|g: int, p: int|
                        0 <= g < groups@.len() && 0 <= p < groups@[g]@.len() && (g != gi || p
                            != before[gi as int]@.len()) implies #[trigger] groups@[g]@[p] != tile by {
                        assert(groups@[g]@[p] == before[g]@[p]);
                        if p < start[g]@.len() {
                            assert(available_tiles@.subrange(0, available_candidates as int)[j as int]
                                == tile);
                        } else {
                            let q = choose|q: int|
                                0 <= q < j && available_tiles@.subrange(0, j as int)[q]
                                    == before[g]@[p];
                            assert(available_tiles@[q] != available_tiles@[j as int]);
                        }
                    }
                    assert(groups_disjoint(groups@)) by {
                        assert forall|g1: int, pa: int, g2: int, pb: int|
                            0 <= g1 < groups@.len() && 0 <= g2 < groups@.len() && 0 <= pa
                                < groups@[g1]@.len() && 0 <= pb < groups@[g2]@.len() && (g1 != g2
                                || pa != pb) implies #[trigger] groups@[g1]@[pa]
                            != #[trigger] groups@[g2]@[pb] by {
                            let last = before[gi as int]@.len() as int;
                            if (g1 == gi && pa == last) {
                                assert(groups@[g1]@[pa] == tile);
                            } else if (g2 == gi && pb == last) {
                                assert(groups@[g2]@[pb] == tile);
                            } else {
                                assert(groups@[g1]@[pa] == before[g1]@[pa]);
                                assert(groups@[g2]@[pb] == before[g2]@[pb]);
                            }
                        }
                    }
                    assert forall|g: int, p: int|
                        0 <= g < groups@.len() && start[g]@.len() <= p < groups@[g]@.len() implies available_tiles@.subrange(
                        0,
                        j + 1,
                    ).contains(#[trigger] groups@[g]@[p]) by {
                        if g == gi && p == before[gi as int]@.len() {
                            assert(available_tiles@.subrange(0, j + 1)[j as int] == tile);
                        } else {
                            assert(groups@[g]@[p] == before[g]@[p]);
                        }
                    }
                }
            },
            None => {
                assert(all_full(groups@)) by {
                    assert forall|g: int| 0 <= g < groups@.len() implies #[trigger] groups@[g]@.len()
                        == MAX_GROUP_SIZE by {
                        if groups@[g]@.len() < MAX_GROUP_SIZE {
                            assert(open@.contains(g as usize));
                        }
                    }
                }
            },
        }
        proof {
            if choice is Some {
                let gi = choice->0;
                let k = choose|k: int| 0 <= k < open@.len() && open@[k] == gi;
                lemma_total_grow(before, groups@, gi as int, before.len() as int);
                assert(!all_full(before));
            } else {
                assert(all_full(groups@));
            }
            let after = groups@;
            let tot0 = total_size(start, start.len() as int);
            assert(available_tiles@.subrange(0, available_candidates as int)[j as int] == tile);
            assert(!in_some_group(before, tile as int));
            // The cells of `after` are those of `before`, and `tile` when it was placed.
            assert forall|g: int, p: int|
                0 <= g < after.len() && 0 <= p < after[g]@.len() && #[trigger] after[g]@[p] != tile
                    implies p < before[g]@.len() && after[g]@[p] == before[g]@[p] by {
                if choice is Some {
                    let gi = choice->0;
                    if g == gi as int && p == before[gi as int]@.len() {
                        assert(after[g]@[p] == tile);
                    }
                }
            }
            assert forall|q: int| 0 <= q < j + 1 implies (in_some_group(
                after,
                #[trigger] available_tiles@[q] as int,
            ) <==> tot0 + q < 4 * start.len()) by {
                if q == j {
                    if choice is Some {
                        let gi = choice->0;
                        assert(after[gi as int]@[before[gi as int]@.len() as int] == tile);
                        assert(!all_full(before));
                    } else {
                        if in_some_group(after, tile as int) {
                            let (g, p) = choose|g: int, p: int|
                                0 <= g < after.len() && 0 <= p < after[g]@.len() && #[trigger] after[g]@[p]
                                    == tile as int;
                            assert(after[g]@[p] == before[g]@[p]);
                        }
                    }
                } else {
                    assert(available_tiles@[q] != tile);
                    if in_some_group(before, available_tiles@[q] as int) {
                        let (g, p) = choose|g: int, p: int|
                            0 <= g < before.len() && 0 <= p < before[g]@.len() && #[trigger] before[g]@[p]
                                == available_tiles@[q] as int;
                        assert(after[g]@[p] == before[g]@[p]);
                    }
                    if in_some_group(after, available_tiles@[q] as int) {
                        let (g, p) = choose|g: int, p: int|
                            0 <= g < after.len() && 0 <= p < after[g]@.len() && #[trigger] after[g]@[p]
                                == available_tiles@[q] as int;
                        assert(before[g]@[p] == available_tiles@[q]);
                    }
                }
            }
            assert forall|q: int| j + 1 <= q < available_candidates implies !in_some_group(
                after,
                #[trigger] available_tiles@[q] as int,
            ) by {
                assert(available_tiles@[q] != tile);
                if in_some_group(after, available_tiles@[q] as int) {
                    let (g, p) = choose|g: int, p: int|
                        0 <= g < after.len() && 0 <= p < after[g]@.len() && #[trigger] after[g]@[p]
                            == available_tiles@[q] as int;
                    assert(before[g]@[p] == available_tiles@[q]);
                }
            }
            assert forall|g: int, pa: int, pb: int, qa: int, qb: int|
                0 <= g < after.len() && start[g]@.len() <= pa < pb < after[g]@.len() && 0 <= qa
                    < available_tiles@.len() && 0 <= qb < available_tiles@.len() && #[trigger] available_tiles@[qa]
                    == #[trigger] after[g]@[pa] && #[trigger] available_tiles@[qb] == #[trigger] after[g]@[pb]
                    implies qa < qb by {
                if after[g]@[pb] == tile {
                    assert(qb == j) by {
                        if qb != j {
                            assert(available_tiles@[qb] != available_tiles@[j as int]);
                        }
                    }
                    assert(after[g]@[pa] != tile);
                    assert(before[g]@[pa] == after[g]@[pa]);
                    let w = choose|w: int|
                        0 <= w < j && available_tiles@.subrange(0, j as int)[w] == before[g]@[pa];
                    assert(qa == w) by {
                        if qa != w {
                            assert(available_tiles@[qa] != available_tiles@[w]);
                        }
                    }
                } else {
                    assert(after[g]@[pa] != tile) by {
                        if after[g]@[pa] == tile {
                            assert(after[g]@[pb] == before[g]@[pb]);
                            let w = choose|w: int|
                                0 <= w < j && available_tiles@.subrange(0, j as int)[w] == before[g]@[pb];
                            assert(available_tiles@[w] != available_tiles@[j as int]);
                        }
                    }
                    assert(before[g]@[pa] == after[g]@[pa] && before[g]@[pb] == after[g]@[pb]);
                }
            }
        }
        j = j + 1;
    }
}

/// Draws every tile of group number `g` with the probability its size gives.
pub open spec fn member_tile(old: Tile, g: int, size: int) -> Tile {
    Tile { group_id: g as i8, prob: Prob(size_prob_u8(size)), ..old }
}

pub open spec fn size_prob_u8(size: int) -> u8 {
    crate::field::size_prob(size) as u8
}

/// The probability a group of `size` cells gives each member.
fn prob_for_size(size: usize) -> (r: Option<Prob>)
    ensures
        1 <= size <= MAX_GROUP_SIZE ==> r == Some(Prob(size_prob_u8(size as int))),
        !(1 <= size <= MAX_GROUP_SIZE) ==> r is None,
{
    if size == 1 {
        Some(Prob(12))
    } else if size == 2 {
        Some(Prob(6))
    } else if size == 3 {
        Some(Prob(4))
    } else if size == 4 {
        Some(Prob(3))
    } else {
        None
    }
}

/// On a fresh board, `new` holds the groups `gs`: each listed cell carries its group number and
/// the probability its group's size gives, every other cell is as it was.
pub open spec fn holds_groups(old: FieldView, new: FieldView, gs: Seq<Vec<usize>>) -> bool {
    &&& new.width == old.width
    &&& new.height == old.height
    &&& new.tiles.len() == old.tiles.len()
    &&& gs.len() <= MAX_GROUPS
    &&& groups_disjoint(gs)
    &&& sizes_ok(gs)
    &&& forall|g: int, p: int|
        0 <= g < gs.len() && 0 <= p < gs[g]@.len() ==> #[trigger] gs[g]@[p] < old.tiles.len()
    &&& forall|g: int, p: int|
        0 <= g < gs.len() && 0 <= p < gs[g]@.len() ==> new.tiles[#[trigger] gs[g]@[p] as int]
            == member_tile(old.tiles[gs[g]@[p] as int], g, gs[g]@.len() as int)
    &&& forall|i: int|
        0 <= i < old.tiles.len() && !in_some_group(gs, i) ==> #[trigger] new.tiles[i] == old.tiles[i]
}

/// The members of group `g` are the cells its list names, so there are as many.
proof fn lemma_group_size(old: FieldView, new: FieldView, gs: Seq<Vec<usize>>, g: int)
    requires
        fresh(old),
        holds_groups(old, new, gs),
        0 <= g < gs.len(),
    ensures
        new.members(g as i8).len() == gs[g]@.len(),
{
    let n = new.tiles.len();
    let m = new.members(g as i8);
    crate::field::lemma_group_indices(new.tiles, g as i8, n);
    let listed = gs[g]@.map_values(|e: usize| e as int);
    assert(m.no_duplicates()) by {
        assert forall|a: int, b: int| 0 <= a < m.len() && 0 <= b < m.len() && a != b implies m[a]
            != m[b] by {
            if a < b {
                assert(m[a] < m[b]);
            } else {
                assert(m[b] < m[a]);
            }
        }
    }
    assert(listed.no_duplicates()) by {
        assert forall|a: int, b: int| 0 <= a < listed.len() && 0 <= b < listed.len() && a != b implies listed[a]
            != listed[b] by {
            assert(gs[g]@[a] != gs[g]@[b]);
        }
    }
    assert forall|i: int| m.to_set().contains(i) <==> listed.to_set().contains(i) by {
        if m.to_set().contains(i) {
            let k = choose|k: int| 0 <= k < m.len() && m[k] == i;
            assert(new.tiles[i].group_id == g as i8);
            if !in_some_group(gs, i) {
                assert(new.tiles[i] == old.tiles[i]);
            } else {
                let (h, p) = choose|h: int, p: int|
                    0 <= h < gs.len() && 0 <= p < gs[h]@.len() && #[trigger] gs[h]@[p] == i;
                assert(new.tiles[gs[h]@[p] as int] == member_tile(
                    old.tiles[gs[h]@[p] as int],
                    h,
                    gs[h]@.len() as int,
                ));
                assert(h == g);
                assert(listed[p] == i);
            }
        }
        if listed.to_set().contains(i) {
            let p = choose|p: int| 0 <= p < listed.len() && listed[p] == i;
            assert(gs[g]@[p] == i);
            assert(new.tiles[gs[g]@[p] as int] == member_tile(
                old.tiles[gs[g]@[p] as int],
                g,
                gs[g]@.len() as int,
            ));
            assert(new.tiles[i].group_id == g as i8);
        }
    }
    assert(m.to_set() =~= listed.to_set());
    m.unique_seq_to_set();
    listed.unique_seq_to_set();
}

/// On a fresh board that holds the groups `gs`: every group has one to four members, every
/// member carries the probability its group's size gives, every other cell is untouched.
proof fn lemma_fresh_layout(old: FieldView, new: FieldView, gs: Seq<Vec<usize>>)
    requires
        fresh(old),
        holds_groups(old, new, gs),
    ensures
        forall|g: int|
            0 <= g < gs.len() ==> 1 <= #[trigger] new.members(g as i8).len() <= MAX_GROUP_SIZE,
        forall|i: int|
            0 <= i < new.tiles.len() && new.tiles[i].group_id != -1 ==> 0
                <= #[trigger] new.tiles[i].group_id < gs.len() && new.tiles[i] == member_tile(
                old.tiles[i],
                new.tiles[i].group_id as int,
                new.members(new.tiles[i].group_id).len() as int,
            ),
        forall|i: int|
            0 <= i < new.tiles.len() && new.tiles[i].group_id == -1 ==> #[trigger] new.tiles[i]
                == old.tiles[i],
{
    assert forall|g: int| 0 <= g < gs.len() implies 1 <= #[trigger] new.members(g as i8).len()
        <= MAX_GROUP_SIZE by {
        lemma_group_size(old, new, gs, g);
    }
    assert forall|i: int| 0 <= i < new.tiles.len() && new.tiles[i].group_id != -1 implies 0
        <= #[trigger] new.tiles[i].group_id < gs.len() && new.tiles[i] == member_tile(
        old.tiles[i],
        new.tiles[i].group_id as int,
        new.members(new.tiles[i].group_id).len() as int,
    ) by {
        if !in_some_group(gs, i) {
            assert(new.tiles[i] == old.tiles[i]);
        }
        let (h, p) = choose|h: int, p: int|
            0 <= h < gs.len() && 0 <= p < gs[h]@.len() && #[trigger] gs[h]@[p] == i;
        assert(new.tiles[gs[h]@[p] as int] == member_tile(
            old.tiles[gs[h]@[p] as int],
            h,
            gs[h]@.len() as int,
        ));
        lemma_group_size(old, new, gs, h);
    }
    assert forall|i: int| 0 <= i < new.tiles.len() && new.tiles[i].group_id == -1 implies #[trigger] new.tiles[i]
        == old.tiles[i] by {
        if in_some_group(gs, i) {
            let (h, p) = choose|h: int, p: int|
                0 <= h < gs.len() && 0 <= p < gs[h]@.len() && #[trigger] gs[h]@[p] == i;
            assert(new.tiles[gs[h]@[p] as int] == member_tile(
                old.tiles[gs[h]@[p] as int],
                h,
                gs[h]@.len() as int,
            ));
        }
    }
}

/// Laying the entangled groups on a board.
pub trait Generator: View<V = FieldView> + Sized {
    /// Lays `max(1, groups)` entangled groups over the cells other than the first click, with
    /// `max(1, candidates)` cells in all (fewer when the board or the groups are full), drawn
    /// at random. `groups` and `candidates` are the rounded products of the number of other
    /// cells and the two fractions.
    fn generate(&mut self, first_click_x: i32, first_click_y: i32, groups: usize, candidates: usize) -> (r:
        Result<(), FieldError>)
        requires
            old(self)@.wf(),
        ensures
            final(self)@.wf(),
            final(self)@.width == old(self)@.width,
            final(self)@.height == old(self)@.height,
            !old(self)@.in_bounds(first_click_x as int, first_click_y as int) ==> r == Err::<
                (),
                FieldError,
            >(FieldError::BadFirstClick) && final(self)@ == old(self)@,
            old(self)@.in_bounds(first_click_x as int, first_click_y as int) && (group_count(groups)
                > old(self)@.tiles.len() - 1 || group_count(groups) > MAX_GROUPS) ==> r == Err::<
                (),
                FieldError,
            >(FieldError::TooManyGroups) && final(self)@ == old(self)@,
            old(self)@.in_bounds(first_click_x as int, first_click_y as int) && group_count(groups)
                <= old(self)@.tiles.len() - 1 && group_count(groups) <= MAX_GROUPS ==> r == Ok::<
                (),
                FieldError,
            >(()) && final(self)@.tile(first_click_x as int, first_click_y as int) == old(self)@.tile(
                first_click_x as int,
                first_click_y as int,
            ) && exists|gs: Seq<Vec<usize>>|
                gs.len() == group_count(groups) && #[trigger] holds_groups(old(self)@, final(self)@, gs)
                    && total_size(gs, gs.len() as int) == cell_count(
                    group_count(groups),
                    candidate_count(candidates, old(self)@.tiles.len() as int),
                ),
            fresh(old(self)@) ==> final(self)@.board_ok(),
            r is Ok && fresh(old(self)@) ==> final(self)@.tile(first_click_x as int, first_click_y as int).group_id
                == -1 && final(self)@.tile(first_click_x as int, first_click_y as int).prob.0 == 0,
            r is Ok && fresh(old(self)@) ==> (forall|g: int|
                0 <= g < group_count(groups) ==> 1 <= #[trigger] final(self)@.members(g as i8).len()
                    <= MAX_GROUP_SIZE) && (forall|i: int|
                0 <= i < final(self)@.tiles.len() && final(self)@.tiles[i].group_id != -1 ==> 0
                    <= #[trigger] final(self)@.tiles[i].group_id < group_count(groups)
                    && final(self)@.tiles[i] == member_tile(
                    old(self)@.tiles[i],
                    final(self)@.tiles[i].group_id as int,
                    final(self)@.members(final(self)@.tiles[i].group_id).len() as int,
                )) && (forall|i: int|
                0 <= i < final(self)@.tiles.len() && final(self)@.tiles[i].group_id == -1
                    ==> #[trigger] final(self)@.tiles[i] == old(self)@.tiles[i]),
    ;

    /// The indices of all cells but the first click's, in order.
    fn get_available_tiles(&self, total_tiles: usize, fcx: i32, fcy: i32) -> (r: Vec<usize>)
        requires
            self@.wf(),
            self@.in_bounds(fcx as int, fcy as int),
            total_tiles == self@.tiles.len(),
        ensures
            r@ == all_but(total_tiles as int, self@.index(fcx as int, fcy as int)),
    ;

    /// Writes group number and probability into the tiles of every group.
    fn set_probabilites(&mut self, groups: &Vec<Vec<usize>>) -> (r: Result<(), FieldError>)
        requires
            old(self)@.wf(),
            groups@.len() <= MAX_GROUPS,
            groups_disjoint(groups@),
            forall|g: int, p: int|
                0 <= g < groups@.len() && 0 <= p < groups@[g]@.len() ==> #[trigger] groups@[g]@[p]
                    < old(self)@.tiles.len(),
        ensures
            final(self)@.wf(),
            !sizes_ok(groups@) ==> r == Err::<(), FieldError>(FieldError::BadGroupSize) && final(self)@
                == old(self)@,
            sizes_ok(groups@) ==> r == Ok::<(), FieldError>(()) && final(self)@.width == old(self)@.width
                && final(self)@.height == old(self)@.height && final(self)@.tiles.len() == old(self)@.tiles.len() && (forall|g: int, p: int|
                0 <= g < groups@.len() && 0 <= p < groups@[g]@.len() ==> final(self)@.tiles[#[trigger] groups@[g]@[p] as int]
                    == member_tile(old(self)@.tiles[groups@[g]@[p] as int], g, groups@[g]@.len() as int))
                && (forall|i: int|
                0 <= i < old(self)@.tiles.len() && !in_some_group(groups@, i) ==> #[trigger] final(self)@.tiles[i] == old(self)@.tiles[i]),
    ;
}

impl Generator for Field {
    fn generate(&mut self, first_click_x: i32, first_click_y: i32, groups: usize, candidates: usize) -> (r:
        Result<(), FieldError>) {
        if !self.is_inside_bounds(first_click_x, first_click_y) {
            return Err(FieldError::BadFirstClick);
        }
        let total_tiles = self.tiles.len();
        let total_groups: usize = if groups == 0 {
            1
        } else {
            groups
        };
        let mut total_candidates: usize = if candidates == 0 {
            1
        } else {
            candidates
        };
        let skip = index_of(self, first_click_x as i64, first_click_y as i64);
        let mut available = self.get_available_tiles(total_tiles, first_click_x, first_click_y);
        if total_groups > available.len() || total_groups > MAX_GROUPS {
            return Err(FieldError::TooManyGroups);
        }
        if total_candidates > available.len() {
            total_candidates = available.len();
        }
        let ghost ordered = available@;
        assert(ordered.no_duplicates());
        random_shuffle(&mut self.rng, &mut available);
        let ghost shuffled = available@;
        proof {
            ordered.lemma_multiset_has_no_duplicates();
            assert forall|x: usize| shuffled.to_multiset().contains(x) implies shuffled.to_multiset().count(x) == 1 by {}
            shuffled.lemma_multiset_has_no_duplicates_conv();
            assert forall|q: int| 0 <= q < shuffled.len() implies #[trigger] shuffled[q] < total_tiles
                && shuffled[q] != skip by {
                vstd::seq_lib::to_multiset_contains(shuffled, shuffled[q]);
                vstd::seq_lib::to_multiset_contains(ordered, shuffled[q]);
                let k = choose|k: int| 0 <= k < ordered.len() && ordered[k] == shuffled[q];
            }
            shuffled.to_multiset_ensures();
            ordered.to_multiset_ensures();
        }
        let mut layout = match make_groups(&mut available, total_groups) {
            Ok(gs) => gs,
            Err(e) => {
                return Err(e);
            },
        };
        let extra: usize = if total_candidates > total_groups {
            total_candidates - total_groups
        } else {
            0
        };
        proof {
            assert(available@ == shuffled.subrange(total_groups as int, shuffled.len() as int));
            assert forall|g: int, p: int|
                0 <= g < layout@.len() && 0 <= p < layout@[g]@.len() implies !available@.subrange(
                0,
                extra as int,
            ).contains(#[trigger] layout@[g]@[p]) by {
                assert(layout@[g]@ == seq![shuffled[g]]);
                if available@.subrange(0, extra as int).contains(layout@[g]@[p]) {
                    let q = choose|q: int| 0 <= q < extra && available@.subrange(0, extra as int)[q] == layout@[g]@[p];
                    assert(shuffled[total_groups + q] == shuffled[g]);
                }
            }
            assert forall|g1: int, pa: int, g2: int, pb: int|
                0 <= g1 < layout@.len() && 0 <= g2 < layout@.len() && 0 <= pa < layout@[g1]@.len()
                    && 0 <= pb < layout@[g2]@.len() && (g1 != g2 || pa != pb) implies #[trigger] layout@[g1]@[pa]
                != #[trigger] layout@[g2]@[pb] by {
                assert(layout@[g1]@ == seq![shuffled[g1]]);
                assert(layout@[g2]@ == seq![shuffled[g2]]);
            }
            assert forall|g: int| 0 <= g < layout@.len() implies 1 <= #[trigger] layout@[g]@.len() <= MAX_GROUP_SIZE by {
                assert(layout@[g]@ == seq![shuffled[g]]);
            }
            assert(available@.no_duplicates());
        }
        let ghost seeded = layout@;
        proof {
            lemma_total_singletons(seeded, seeded.len() as int);
        }
        distribute_tiles(&mut self.rng, &available, &mut layout, extra);
        proof {
            assert forall|g: int, p: int|
                0 <= g < layout@.len() && 0 <= p < layout@[g]@.len() implies #[trigger] layout@[g]@[p]
                < total_tiles && layout@[g]@[p] != skip by {
                if p < seeded[g]@.len() {
                    assert(seeded[g]@ == seq![shuffled[g]]);
                    assert(layout@[g]@[p] == shuffled[g]);
                } else {
                    let q = choose|q: int| 0 <= q < extra && available@.subrange(0, extra as int)[q] == layout@[g]@[p];
                    assert(available@[q] == shuffled[total_groups + q]);
                }
            }
        }
        let ghost before = self@;
        let r = self.set_probabilites(&layout);
        proof {
            assert(holds_groups(before, self@, layout@));
            assert(!in_some_group(layout@, skip as int));
            if fresh(before) {
                lemma_fresh_layout(before, self@, layout@);
                crate::field::lemma_index_coords(first_click_x as int, first_click_y as int, before.width as int, before.height as int);
                assert(before.tile(first_click_x as int, first_click_y as int) == Tile::empty_spec());
                let nv = self@;
                assert forall|i: int, j: int|
                    0 <= i < nv.tiles.len() && 0 <= j < nv.tiles.len() && #[trigger] nv.tiles[i].group_id
                        == #[trigger] nv.tiles[j].group_id && nv.tiles[i].group_id != -1 implies nv.tiles[i].measured
                    == nv.tiles[j].measured by {
                    assert(!nv.tiles[i].measured);
                    assert(!nv.tiles[j].measured);
                }
            }
        }
        r
    }

    fn get_available_tiles(&self, total_tiles: usize, fcx: i32, fcy: i32) -> (r: Vec<usize>) {
        let skip = index_of(self, fcx as i64, fcy as i64);
        let mut out: Vec<usize> = Vec::new();
        let mut i: usize = 0;
        while i < total_tiles
            invariant
                i <= total_tiles,
                skip < total_tiles,
                out@ == all_but(i as int + 1, skip as int).take(
                    if i <= skip { i as int } else { i as int - 1 },
                ),
            decreases total_tiles - i,
        {
            if i != skip {
                out.push(i);
            }
            proof {
                let k = if i + 1 <= skip { i as int + 1 } else { i as int };
                assert(out@ =~= all_but(i as int + 2, skip as int).take(k));
            }
            i = i + 1;
        }
        assert(out@ =~= all_but(total_tiles as int, skip as int));
        out
    }

    fn set_probabilites(&mut self, groups: &Vec<Vec<usize>>) -> (r: Result<(), FieldError>) {
        let mut g: usize = 0;
        while g < groups.len()
            invariant
                self@.wf(),
                g <= groups@.len(),
                forall|h: int| 0 <= h < g ==> 1 <= #[trigger] groups@[h]@.len() <= MAX_GROUP_SIZE,
            decreases groups@.len() - g,
        {
            if prob_for_size(groups[g].len()).is_none() {
                return Err(FieldError::BadGroupSize);
            }
            g = g + 1;
        }
        let ghost old_v = self@;
        let mut g: usize = 0;
        while g < groups.len()
            invariant
                old_v.wf(),
                g <= groups@.len(),
                groups@.len() <= MAX_GROUPS,
                sizes_ok(groups@),
                groups_disjoint(groups@),
                forall|h: int, p: int|
                    0 <= h < groups@.len() && 0 <= p < groups@[h]@.len() ==> #[trigger] groups@[h]@[p]
                        < old_v.tiles.len(),
                self@.width == old_v.width,
                self@.height == old_v.height,
                self@.tiles.len() == old_v.tiles.len(),
                forall|h: int, p: int|
                    0 <= h < g && 0 <= p < groups@[h]@.len() ==> self@.tiles[#[trigger] groups@[h]@[p] as int]
                        == member_tile(old_v.tiles[groups@[h]@[p] as int], h, groups@[h]@.len() as int),
                forall|i: int|
                    0 <= i < old_v.tiles.len() && !(exists|h: int, p: int|
                        0 <= h < g && 0 <= p < groups@[h]@.len() && #[trigger] groups@[h]@[p] == i)
                        ==> #[trigger] self@.tiles[i] == old_v.tiles[i],
            decreases groups@.len() - g,
        {
            let group = &groups[g];
            let prob = prob_for_size(group.len()).unwrap();
            let mut p: usize = 0;
            while p < group.len()
                invariant
                    old_v.wf(),
                    g < groups@.len(),
                    groups@.len() <= MAX_GROUPS,
                    group@ == groups@[g as int]@,
                    prob == Prob(size_prob_u8(group@.len() as int)),
                    p <= group@.len(),
                    groups_disjoint(groups@),
                    forall|h: int, q: int|
                        0 <= h < groups@.len() && 0 <= q < groups@[h]@.len() ==> #[trigger] groups@[h]@[q]
                            < old_v.tiles.len(),
                    self@.width == old_v.width,
                    self@.height == old_v.height,
                    self@.tiles.len() == old_v.tiles.len(),
                    forall|h: int, q: int|
                        0 <= h < g && 0 <= q < groups@[h]@.len() ==> self@.tiles[#[trigger] groups@[h]@[q] as int]
                            == member_tile(old_v.tiles[groups@[h]@[q] as int], h, groups@[h]@.len() as int),
                    forall|q: int|
                        0 <= q < p ==> self@.tiles[#[trigger] group@[q] as int] == member_tile(
                            old_v.tiles[group@[q] as int],
                            g as int,
                            group@.len() as int,
                        ),
                    forall|i: int|
                        0 <= i < old_v.tiles.len() && !(exists|h: int, q: int|
                            0 <= h < g && 0 <= q < groups@[h]@.len() && #[trigger] groups@[h]@[q] == i)
                            && !(exists|q: int| 0 <= q < p && #[trigger] group@[q] == i)
                            ==> #[trigger] self@.tiles[i] == old_v.tiles[i],
                decreases group@.len() - p,
            {
                let id = group[p];
                let ghost prev = self@.tiles;
                assert(!(exists|h: int, q: int|
                    0 <= h < g && 0 <= q < groups@[h]@.len() && #[trigger] groups@[h]@[q] == id)) by {
                    if exists|h: int, q: int|
                        0 <= h < g && 0 <= q < groups@[h]@.len() && #[trigger] groups@[h]@[q] == id {
                        let (h, q) = choose|h: int, q: int|
                            0 <= h < g && 0 <= q < groups@[h]@.len() && #[trigger] groups@[h]@[q] == id;
                        assert(groups@[h]@[q] != groups@[g as int]@[p as int]);
                    }
                }
                assert(!(exists|q: int| 0 <= q < p && #[trigger] group@[q] == id)) by {
                    if exists|q: int| 0 <= q < p && #[trigger] group@[q] == id {
                        let q = choose|q: int| 0 <= q < p && #[trigger] group@[q] == id;
                        assert(groups@[g as int]@[q] != groups@[g as int]@[p as int]);
                    }
                }
                let mut t = self.tiles[id];
                t.group_id = g as i8;
                t.prob = prob;
                self.tiles.set(id, t);
                proof {
                    assert forall|h: int, q: int|
                        0 <= h < g && 0 <= q < groups@[h]@.len() implies self@.tiles[#[trigger] groups@[h]@[q] as int]
                        == member_tile(old_v.tiles[groups@[h]@[q] as int], h, groups@[h]@.len() as int) by {
                        assert(groups@[h]@[q] != groups@[g as int]@[p as int]);
                    }
                    assert forall|q: int| 0 <= q < p + 1 implies self@.tiles[#[trigger] group@[q] as int]
                        == member_tile(old_v.tiles[group@[q] as int], g as int, group@.len() as int) by {
                        if q < p {
                            assert(groups@[g as int]@[q] != groups@[g as int]@[p as int]);
                        }
                    }
                }
                p = p + 1;
            }
            proof {
                assert forall|i: int|
                    0 <= i < old_v.tiles.len() && !(exists|h: int, q: int|
                        0 <= h < g + 1 && 0 <= q < groups@[h]@.len() && #[trigger] groups@[h]@[q] == i)
                        implies #[trigger] self@.tiles[i] == old_v.tiles[i] by {
                    assert(!(exists|q: int| 0 <= q < p && #[trigger] group@[q] == i)) by {
                        if exists|q: int| 0 <= q < p && #[trigger] group@[q] == i {
                            let q = choose|q: int| 0 <= q < p && #[trigger] group@[q] == i;
                            assert(groups@[g as int]@[q] == i);
                        }
                    }
                }
            }
            g = g + 1;
        }
        Ok(())
    }
}

} // verus!
