use vstd::prelude::*;

use rand_chacha::ChaCha20Rng;

use crate::game::{
    borders_earlier, claimed, dice_total, distinct, generated, grown, holds, joins_land, mapped, owned_count,
    partitioned, touches, Board, Region, RegionView, DICE_BUDGET, NUMBER_OF_PATCHES,
};
use crate::hex::{adjacent, lemma_adjacent_symmetric, steppable, HexCoord};
use crate::tiered_prng::{draw_in, pick_one, visiting_order};

verus! {

/// Side of the square window, in cells, in which patches are seeded.
pub const BOARD_SIZE: isize = 20;

/// Seeds are drawn in `-HALF_BOARD_SIZE..HALF_BOARD_SIZE` on both axes (half the side, less one).
pub const HALF_BOARD_SIZE: isize = 9;

/// Attempts at placing one patch before generation gives up.
pub const MAX_ATTEMPTS: usize = 10000;

/// Why no board could be generated.
#[derive(Debug, Clone, Copy, PartialEq, Eq)]
pub enum GenerationError {
    /// No player, or so many that a patch could not grow past its seed.
    InvalidPlayerCount,
    /// A patch could not be placed within the allowed number of attempts.
    GenerationFailed,
}

/// Player counts for which a board can be generated: at least one player, and few enough
/// that a patch may grow by at least one cell, `BOARD_SIZE^2 / (2 * NUMBER_OF_PATCHES * n) >= 1`,
/// that is `32 * n <= 400`.
pub open spec fn valid_player_count(n: usize) -> bool {
    n >= 1 && 32 * n <= 400
}

/// The cell map `m` extended by the cells of a patch, all owned by `player`.
pub open spec fn with_patch(m: Seq<((isize, isize), usize)>, patch: Seq<(isize, isize)>, player: usize)
    -> Seq<((isize, isize), usize)> {
    m + patch.map_values(|h: (isize, isize)| (h, player))
}

/// Every cell of `s` lies within `bound` of the origin on both axes.
pub open spec fn within(s: Seq<(isize, isize)>, bound: int) -> bool {
    forall|j: int|
        0 <= j < s.len() ==> -bound <= (#[trigger] s[j]).0 <= bound && -bound <= s[j].1 <= bound
}

/// Whether `c` is a key of the cell map.
fn is_assigned(m: &Vec<((isize, isize), usize)>, c: (isize, isize)) -> (r: bool)
    ensures
        r == mapped(m@, c),
{
    let mut k: usize = 0;
    while k < m.len()
        invariant
            k <= m@.len(),
            forall|j: int| 0 <= j < k ==> (#[trigger] m@[j]).0 != c,
        decreases m@.len() - k,
    {
        let e = m[k].0;
        if e.0 == c.0 && e.1 == c.1 {
            assert(m@[k as int].0 == c);
            return true;
        }
        k = k + 1;
    }
    false
}

/// A copy of the cell map.
fn copy_cells(m: &Vec<((isize, isize), usize)>) -> (r: Vec<((isize, isize), usize)>)
    ensures
        r@ == m@,
{
    let mut r: Vec<((isize, isize), usize)> = Vec::new();
    let mut k: usize = 0;
    while k < m.len()
        invariant
            k <= m@.len(),
            r@ == m@.take(k as int),
        decreases m@.len() - k,
    {
        r.push(m[k]);
        k = k + 1;
        assert(r@ =~= m@.take(k as int));
    }
    assert(r@ =~= m@);
    r
}

/// The neighbours of `h` that are not keys of the cell map, in direction order.
fn free_neighbors(m: &Vec<((isize, isize), usize)>, h: (isize, isize)) -> (r: Vec<(isize, isize)>)
    requires
        steppable(h),
    ensures
        forall|j: int| 0 <= j < r@.len() ==> adjacent(h, #[trigger] r@[j]) && !mapped(m@, r@[j]),
        forall|c: (isize, isize)| adjacent(h, c) && !mapped(m@, c) ==> r@.contains(c),
{
    let hc = HexCoord::new(h.0, h.1);
    assert(hc.pair() == h);
    let ns = hc.neighbors();
    let mut r: Vec<(isize, isize)> = Vec::new();
    let mut k: usize = 0;
    while k < 6
        invariant
            k <= 6,
            ns@.len() == 6,
            forall|j: int| 0 <= j < 6 ==> adjacent(h, #[trigger] ns@[j].pair()),
            forall|j: int| 0 <= j < r@.len() ==> adjacent(h, #[trigger] r@[j]) && !mapped(m@, r@[j]),
            forall|j: int| 0 <= j < k && !mapped(m@, #[trigger] ns@[j].pair()) ==> r@.contains(ns@[j].pair()),
        decreases 6 - k,
    {
        let c = (ns[k].q, ns[k].r);
        let ghost old_r = r@;
        assert(c == ns@[k as int].pair());
        assert(adjacent(h, c));
        if !is_assigned(m, c) {
            r.push(c);
        }
        assert forall|j: int| 0 <= j <= k && !mapped(m@, #[trigger] ns@[j].pair()) implies r@.contains(
            ns@[j].pair(),
        ) by {
            if j < k {
                assert(old_r.contains(ns@[j].pair()));
                let w = choose|w: int| 0 <= w < old_r.len() && old_r[w] == ns@[j].pair();
                assert(r@[w] == old_r[w]);
            } else {
                assert(r@[r@.len() - 1] == c);
            }
        }
        k = k + 1;
    }
    assert forall|c: (isize, isize)| adjacent(h, c) && !mapped(m@, c) implies r@.contains(c) by {
        let j = choose|j: int| 0 <= j < 6 && #[trigger] ns@[j].pair() == c;
        assert(!mapped(m@, ns@[j].pair()));
    }
    r
}


/// What a growing patch guarantees: it starts at `seed`, is grown by adjacency, repeats no
/// cell, avoids every cell already on the board, stays near the window, and `snapshot` is the
/// board's cell map extended by the patch.
pub open spec fn patch_ok(
    board: Seq<((isize, isize), usize)>,
    seed: (isize, isize),
    player: usize,
    patch: Seq<(isize, isize)>,
    snapshot: Seq<((isize, isize), usize)>,
) -> bool {
    &&& patch.len() >= 1
    &&& patch[0] == seed
    &&& grown(patch)
    &&& distinct(patch)
    &&& forall|j: int| 0 <= j < patch.len() ==> !mapped(board, #[trigger] patch[j])
    &&& within(patch, HALF_BOARD_SIZE + patch.len())
    &&& snapshot == with_patch(board, patch, player)
}

/// Grows a patch from `seed` by up to `patch_size` cells, each a free neighbour of a cell
/// already in the patch; stops early when no cell of the patch has a free neighbour.
fn grow_patch(
    rng: &mut ChaCha20Rng,
    board: &Vec<((isize, isize), usize)>,
    seed: (isize, isize),
    player: usize,
    patch_size: usize,
) -> (res: Vec<(isize, isize)>)
    requires
        !mapped(board@, seed),
        -HALF_BOARD_SIZE <= seed.0 <= HALF_BOARD_SIZE,
        -HALF_BOARD_SIZE <= seed.1 <= HALF_BOARD_SIZE,
        patch_size <= 12,
    ensures
        patch_ok(board@, seed, player, res@, with_patch(board@, res@, player)),
        res@.len() <= patch_size + 1,
{
    let mut snapshot = copy_cells(board);
    snapshot.push((seed, player));
    let mut patch: Vec<(isize, isize)> = Vec::new();
    patch.push(seed);
    proof {
        assert(patch@.map_values(|h: (isize, isize)| (h, player)) =~= seq![(seed, player)]);
        assert(snapshot@ =~= with_patch(board@, patch@, player));
        assert(grown(patch@));
    }
    let mut step: usize = 0;
    let mut stuck = false;
    while step < patch_size && !stuck
        invariant
            patch_size <= 12,
            step <= patch_size,
            patch@.len() <= step + 1,
            patch_ok(board@, seed, player, patch@, snapshot@),
        decreases patch_size - step,
    {
        let order = visiting_order(rng, &patch);
        let mut cands: Vec<(isize, isize)> = Vec::new();
        let mut found = false;
        let mut i: usize = 0;
        let ghost mut source: (isize, isize) = seed;
        while i < order.len() && !found
            invariant
                order@ == patch@,
                patch@.len() <= 13,
                i <= order@.len(),
                patch_ok(board@, seed, player, patch@, snapshot@),
                found ==> cands@.len() > 0 && patch@.contains(source) && forall|j: int|
                    0 <= j < cands@.len() ==> adjacent(source, #[trigger] cands@[j]) && !mapped(
                        snapshot@,
                        cands@[j],
                    ),
            decreases order@.len() - i,
        {
            let h = order[i];
            assert(patch@[i as int] == h);
            assert(-(HALF_BOARD_SIZE + patch@.len()) <= h.0 <= HALF_BOARD_SIZE + patch@.len());
            assert(-(HALF_BOARD_SIZE + patch@.len()) <= h.1 <= HALF_BOARD_SIZE + patch@.len());
            let free = free_neighbors(&snapshot, h);
            if free.len() > 0 {
                cands = free;
                found = true;
                proof {
                    source = h;
                }
            }
            i = i + 1;
        }
        if !found {
            stuck = true;
        } else {
            match pick_one(rng, &cands) {
                None => {
                    stuck = true;
                },
                Some(c) => {
                    let ghost old_patch = patch@;
                    let ghost w = choose|w: int| 0 <= w < cands@.len() && cands@[w] == c;
                    assert(adjacent(source, cands@[w]) && !mapped(snapshot@, cands@[w]));
                    proof {
                        lemma_not_mapped_with_patch(board@, patch@, player, c);
                    }
                    patch.push(c);
                    snapshot.push((c, player));
                    proof {
                        let ghost si = choose|si: int| 0 <= si < old_patch.len() && old_patch[si] == source;
                        assert(borders_earlier(patch@, patch@.len() - 1)) by {
                            assert(adjacent(patch@[si], patch@[patch@.len() - 1]));
                        }
                        assert forall|j: int| 0 < j < patch@.len() implies #[trigger] borders_earlier(patch@, j) by {
                            if j < patch@.len() - 1 {
                                assert(borders_earlier(old_patch, j));
                                let a = choose|a: int| 0 <= a < j && #[trigger] adjacent(old_patch[a], old_patch[j]);
                                assert(adjacent(patch@[a], patch@[j]));
                            }
                        }
                        assert(patch@.map_values(|h: (isize, isize)| (h, player)) =~= old_patch.map_values(
                            |h: (isize, isize)| (h, player),
                        ).push((c, player)));
                        assert(snapshot@ =~= with_patch(board@, patch@, player));
                        lemma_adjacent_within(source, c, HALF_BOARD_SIZE + old_patch.len());
                        assert(within(patch@, HALF_BOARD_SIZE + patch@.len()));
                    }
                },
            }
        }
        step = step + 1;
    }
    patch
}

/// A cell absent from the board's map and from the patch is absent from their union.
proof fn lemma_not_mapped_with_patch(
    board: Seq<((isize, isize), usize)>,
    patch: Seq<(isize, isize)>,
    player: usize,
    c: (isize, isize),
)
    ensures
        !mapped(with_patch(board, patch, player), c) <==> (!mapped(board, c) && !patch.contains(c)),
{
    let m = with_patch(board, patch, player);
    if mapped(board, c) {
        let k = choose|k: int| 0 <= k < board.len() && (#[trigger] board[k]).0 == c;
        assert(m[k].0 == c);
    }
    if patch.contains(c) {
        let j = choose|j: int| 0 <= j < patch.len() && patch[j] == c;
        assert(m[board.len() + j].0 == c);
    }
    if mapped(m, c) {
        let k = choose|k: int| 0 <= k < m.len() && (#[trigger] m[k]).0 == c;
        if k < board.len() {
            assert(board[k].0 == c);
        } else {
            assert(patch[k - board.len()] == c);
        }
    }
}

/// A neighbour of a cell within `b` of the origin lies within `b + 1`.
proof fn lemma_adjacent_within(a: (isize, isize), c: (isize, isize), b: int)
    requires
        adjacent(a, c),
        -b <= a.0 <= b,
        -b <= a.1 <= b,
    ensures
        -(b + 1) <= c.0 <= b + 1,
        -(b + 1) <= c.1 <= b + 1,
{
    let k = choose|k: int| 0 <= k < 6 && #[trigger] crate::hex::direction(k) == (c.0 - a.0, c.1 - a.1);
}


/// Some cell of `cells` borders a cell of the map.
pub open spec fn borders_land(m: Seq<((isize, isize), usize)>, cells: Seq<(isize, isize)>) -> bool {
    exists|j: int, k: int| 0 <= j < cells.len() && 0 <= k < m.len() && #[trigger] adjacent(cells[j], m[k].0)
}

/// `cells` can become a region beside the map `m`: non-empty, grown by adjacency, free of
/// repeats, and sharing no cell with the map.
pub open spec fn placeable(m: Seq<((isize, isize), usize)>, cells: Seq<(isize, isize)>) -> bool {
    &&& cells.len() > 0
    &&& grown(cells)
    &&& distinct(cells)
    &&& forall|j: int| 0 <= j < cells.len() ==> !mapped(m, #[trigger] cells[j])
}

/// Whether some cell of `cells` borders a cell of the map.
fn touches_map(m: &Vec<((isize, isize), usize)>, cells: &Vec<(isize, isize)>) -> (r: bool)
    ensures
        r == borders_land(m@, cells@),
{
    let mut j: usize = 0;
    while j < cells.len()
        invariant
            j <= cells@.len(),
            forall|a: int, k: int| 0 <= a < j && 0 <= k < m@.len() ==> !#[trigger] adjacent(cells@[a], m@[k].0),
        decreases cells@.len() - j,
    {
        let mut k: usize = 0;
        while k < m.len()
            invariant
                j < cells@.len(),
                k <= m@.len(),
                forall|a: int, x: int| 0 <= a < j && 0 <= x < m@.len() ==> !#[trigger] adjacent(cells@[a], m@[x].0),
                forall|x: int| 0 <= x < k ==> !#[trigger] adjacent(cells@[j as int], m@[x].0),
            decreases m@.len() - k,
        {
            if crate::hex::is_adjacent(cells[j], m[k].0) {
                assert(adjacent(cells@[j as int], m@[k as int].0));
                return true;
            }
            k = k + 1;
        }
        j = j + 1;
    }
    false
}

/// Whether `cells` can become a region beside the map.
fn check_placeable(m: &Vec<((isize, isize), usize)>, cells: &Vec<(isize, isize)>) -> (r: bool)
    ensures
        r == placeable(m@, cells@),
{
    if cells.len() == 0 {
        return false;
    }
    let mut j: usize = 0;
    while j < cells.len()
        invariant
            0 < cells@.len(),
            j <= cells@.len(),
            forall|x: int| 0 < x < j ==> #[trigger] borders_earlier(cells@, x),
            forall|a: int, b: int| 0 <= a < j && 0 <= b < j && #[trigger] cells@[a] == #[trigger] cells@[b] ==> a == b,
            forall|x: int| 0 <= x < j ==> !mapped(m@, #[trigger] cells@[x]),
        decreases cells@.len() - j,
    {
        let c = cells[j];
        if is_assigned(m, c) {
            assert(!placeable(m@, cells@));
            return false;
        }
        let mut found = j == 0;
        let mut i: usize = 0;
        while i < j
            invariant
                j < cells@.len(),
                i <= j,
                c == cells@[j as int],
                j == 0 ==> found,
                found ==> (j == 0 || borders_earlier(cells@, j as int)),
                !found ==> forall|x: int| 0 <= x < i ==> !#[trigger] adjacent(cells@[x], cells@[j as int]),
                forall|x: int| 0 <= x < i ==> cells@[x] != c,
            decreases j - i,
        {
            let d = cells[i];
            if d.0 == c.0 && d.1 == c.1 {
                assert(cells@[i as int] == cells@[j as int]);
                assert(!distinct(cells@));
                return false;
            }
            if crate::hex::is_adjacent(d, c) {
                assert(adjacent(cells@[i as int], cells@[j as int]));
                found = true;
            }
            i = i + 1;
        }
        if !found {
            assert(!borders_earlier(cells@, j as int));
            assert(!grown(cells@));
            return false;
        }
        assert forall|a: int, b: int| 0 <= a < j + 1 && 0 <= b < j + 1 && #[trigger] cells@[a] == #[trigger] cells@[b] implies a == b by {
            if a == j && b < j {
                assert(cells@[b] != c);
            } else if b == j && a < j {
                assert(cells@[a] != c);
            }
        }
        j = j + 1;
    }
    true
}

/// Places `cells` on the board as a region of `player` when they can become one and, unless
/// the region is the first, border the land already there; every cell is mapped to `player`.
pub fn place_patch(board: &mut Board, cells: Vec<(isize, isize)>, player: usize, first: bool) -> (placed:
    bool)
    ensures
        placed == (placeable(old(board)@.hexes, cells@) && (first || borders_land(
            old(board)@.hexes,
            cells@,
        ))),
        placed ==> final(board)@.hexes == with_patch(old(board)@.hexes, cells@, player),
        placed ==> final(board)@.regions == old(board)@.regions.push(
            patch_region(cells@, player, old(board)@.regions.len() as int),
        ),
        !placed ==> final(board)@ == old(board)@,
        partitioned(old(board)@) ==> partitioned(final(board)@),
        partitioned(old(board)@) && placed && !first ==> joins_land(
            final(board)@.regions,
            old(board)@.regions.len() as int,
        ),
{
    if !check_placeable(&board.hexes, &cells) {
        return false;
    }
    if !first && !touches_map(&board.hexes, &cells) {
        return false;
    }
    let ghost pre = board@;
    let mut k: usize = 0;
    while k < cells.len()
        invariant
            board.regions@.map_values(|r: Region| r@) == pre.regions,
            k <= cells@.len(),
            board.hexes@ == with_patch(pre.hexes, cells@.take(k as int), player),
        decreases cells@.len() - k,
    {
        board.hexes.push((cells[k], player));
        k = k + 1;
        assert(cells@.take(k as int) =~= cells@.take(k - 1).push(cells@[k - 1]));
        assert(board.hexes@ =~= with_patch(pre.hexes, cells@.take(k as int), player));
    }
    assert(cells@.take(k as int) =~= cells@);
    let id = board.regions.len();
    let ghost c = cells@;
    board.regions.push(Region { hexes: cells, owner: player, num_dice: 0, id });
    assert(board@.regions =~= pre.regions.push(patch_region(c, player, id as int)));
    proof {
        if partitioned(pre) {
            lemma_accept_patch(pre, player, c, board@.hexes);
            if !first {
                lemma_patch_joins_land(pre, c, player);
            }
        }
    }
    true
}

/// The region a new patch becomes.
pub open spec fn patch_region(patch: Seq<(isize, isize)>, player: usize, id: int) -> RegionView {
    RegionView { hexes: patch, owner: player, num_dice: 0, id: id as usize }
}

/// Adding one region more keeps the count of every other owner.
pub proof fn lemma_counts_push(rs: Seq<RegionView>, x: RegionView, p: usize)
    ensures
        owned_count(rs.push(x), p) == owned_count(rs, p) + if x.owner == p {
            1nat
        } else {
            0nat
        },
        dice_total(rs.push(x), p) == dice_total(rs, p) + if x.owner == p {
            x.num_dice as nat
        } else {
            0nat
        },
{
    assert(rs.push(x).drop_last() =~= rs);
}

/// Accepting a patch as a new region keeps the board partitioned.
proof fn lemma_accept_patch(
    board: crate::game::BoardView,
    player: usize,
    patch: Seq<(isize, isize)>,
    snapshot: Seq<((isize, isize), usize)>,
)
    requires
        partitioned(board),
        placeable(board.hexes, patch),
        snapshot == with_patch(board.hexes, patch, player),
        board.regions.len() <= usize::MAX,
    ensures
        partitioned(
            crate::game::BoardView {
                hexes: snapshot,
                regions: board.regions.push(patch_region(patch, player, board.regions.len() as int)),
            },
        ),
{
    let rs = board.regions;
    let m = board.hexes;
    let nl = rs.len() as int;
    let rs2 = rs.push(patch_region(patch, player, nl));
    let m2 = snapshot;
    let ml = m.len() as int;
    assert forall|i: int| 0 <= i < rs2.len() implies (#[trigger] rs2[i]).id == i && rs2[i].hexes.len()
        > 0 && grown(rs2[i].hexes) by {
        if i < nl {
            assert(rs2[i] == rs[i]);
        }
    }
    assert forall|k1: int, k2: int|
        0 <= k1 < m2.len() && 0 <= k2 < m2.len() && (#[trigger] m2[k1]).0 == (#[trigger] m2[k2]).0
            implies k1 == k2 by {
        if k1 < ml && k2 >= ml {
            assert(m2[k2].0 == patch[k2 - ml]);
            assert(!mapped(m, patch[k2 - ml]));
            assert(m[k1].0 == m2[k1].0);
        } else if k2 < ml && k1 >= ml {
            assert(m2[k1].0 == patch[k1 - ml]);
            assert(!mapped(m, patch[k1 - ml]));
            assert(m[k2].0 == m2[k2].0);
        } else if k1 >= ml && k2 >= ml {
            assert(patch[k1 - ml] == patch[k2 - ml]);
        } else {
            assert(m[k1] == m2[k1] && m[k2] == m2[k2]);
        }
    }
    assert forall|k: int| 0 <= k < m2.len() implies claimed(rs2, #[trigger] m2[k]) by {
        if k < ml {
            assert(m2[k] == m[k]);
            assert(claimed(rs, m[k]));
            let i = choose|i: int| #[trigger] holds(rs, i, m[k].0) && rs[i].owner == m[k].1;
            assert(rs2[i] == rs[i]);
            assert(holds(rs2, i, m2[k].0));
        } else {
            assert(m2[k] == (patch[k - ml], player));
            assert(rs2[nl].hexes[k - ml] == patch[k - ml]);
            assert(holds(rs2, nl, m2[k].0));
        }
    }
    assert forall|i: int, c: (isize, isize)| #[trigger] holds(rs2, i, c) implies mapped(m2, c) by {
        if i < nl {
            assert(rs2[i] == rs[i]);
            assert(holds(rs, i, c));
            let k = choose|k: int| 0 <= k < m.len() && (#[trigger] m[k]).0 == c;
            assert(m2[k] == m[k]);
        } else {
            let j = choose|j: int| 0 <= j < patch.len() && patch[j] == c;
            assert(m2[ml + j].0 == c);
        }
    }
    assert forall|i1: int, i2: int, c: (isize, isize)|
        #[trigger] holds(rs2, i1, c) && #[trigger] holds(rs2, i2, c) implies i1 == i2 by {
        if i1 < nl && i2 < nl {
            assert(rs2[i1] == rs[i1] && rs2[i2] == rs[i2]);
            assert(holds(rs, i1, c) && holds(rs, i2, c));
        } else if i1 < nl || i2 < nl {
            let io = if i1 < nl { i1 } else { i2 };
            assert(rs2[io] == rs[io]);
            assert(holds(rs, io, c));
            assert(mapped(m, c));
            let j = choose|j: int| 0 <= j < patch.len() && patch[j] == c;
            assert(!mapped(m, patch[j]));
        }
    }
}


/// A patch that borders the board's land borders one of its regions.
proof fn lemma_patch_joins_land(board: crate::game::BoardView, patch: Seq<(isize, isize)>, player: usize)
    requires
        partitioned(board),
        borders_land(board.hexes, patch),
    ensures
        joins_land(board.regions.push(patch_region(patch, player, board.regions.len() as int)), board.regions.len() as int),
{
    let rs = board.regions;
    let rs2 = rs.push(patch_region(patch, player, rs.len() as int));
    let (j, k) = choose|j: int, k: int|
        0 <= j < patch.len() && 0 <= k < board.hexes.len() && #[trigger] adjacent(patch[j], board.hexes[k].0);
    let c = board.hexes[k].0;
    assert(claimed(rs, board.hexes[k]));
    let i0 = choose|i: int| #[trigger] holds(rs, i, board.hexes[k].0) && rs[i].owner == board.hexes[k].1;
    let t = choose|t: int| 0 <= t < rs[i0].hexes.len() && rs[i0].hexes[t] == c;
    lemma_adjacent_symmetric(patch[j], c);
    assert(rs2[i0] == rs[i0]);
    assert(rs2[rs.len() as int].hexes == patch);
    assert(adjacent(rs2[i0].hexes[t], rs2[rs.len() as int].hexes[j]));
    assert(touches(rs2[i0].hexes, rs2[rs.len() as int].hexes));
}

/// The two region sequences differ at most in their dice.
pub open spec fn same_layout(a: Seq<RegionView>, b: Seq<RegionView>) -> bool {
    &&& a.len() == b.len()
    &&& forall|i: int|
        0 <= i < a.len() ==> (#[trigger] a[i]).hexes == b[i].hexes && a[i].owner == b[i].owner
            && a[i].id == b[i].id
}

/// A prefix holds no more regions of an owner than the whole sequence.
proof fn lemma_count_prefix(s: Seq<RegionView>, k: int, p: usize)
    requires
        0 <= k <= s.len(),
    ensures
        owned_count(s.take(k), p) <= owned_count(s, p),
    decreases s.len(),
{
    if k < s.len() {
        assert(s.drop_last().take(k) =~= s.take(k));
        lemma_count_prefix(s.drop_last(), k, p);
    } else {
        assert(s.take(k) =~= s);
    }
}

/// Region counts depend on the owners alone.
proof fn lemma_count_layout(a: Seq<RegionView>, b: Seq<RegionView>, p: usize)
    requires
        same_layout(a, b),
    ensures
        owned_count(a, p) == owned_count(b, p),
    decreases a.len(),
{
    if a.len() > 0 {
        assert(same_layout(a.drop_last(), b.drop_last()));
        lemma_count_layout(a.drop_last(), b.drop_last(), p);
    }
}

/// Being partitioned does not depend on the dice.
proof fn lemma_partitioned_layout(m: Seq<((isize, isize), usize)>, a: Seq<RegionView>, b: Seq<RegionView>)
    requires
        same_layout(a, b),
        partitioned(crate::game::BoardView { hexes: m, regions: a }),
    ensures
        partitioned(crate::game::BoardView { hexes: m, regions: b }),
{
    let ba = crate::game::BoardView { hexes: m, regions: a };
    assert(ba.hexes == m && ba.regions == a);
    assert(partitioned(ba));
    assert forall|i: int, c: (isize, isize)| holds(a, i, c) == holds(b, i, c) by {
        if 0 <= i < a.len() {
            assert(a[i].hexes == b[i].hexes);
        }
    }
    assert forall|k: int| 0 <= k < m.len() implies claimed(b, #[trigger] m[k]) by {
        assert(claimed(ba.regions, ba.hexes[k]));
        let i = choose|i: int| #[trigger] holds(a, i, m[k].0) && a[i].owner == m[k].1;
        assert(holds(b, i, m[k].0));
    }
    assert forall|i: int| 0 <= i < b.len() implies (#[trigger] b[i]).id == i && b[i].hexes.len() > 0
        && grown(b[i].hexes) && distinct(b[i].hexes) by {
        assert(a[i].hexes == b[i].hexes);
        assert(ba.regions[i].id == i);
        assert(distinct(a[i].hexes));
    }
    assert forall|i1: int, i2: int, c: (isize, isize)|
        #[trigger] holds(b, i1, c) && #[trigger] holds(b, i2, c) implies i1 == i2 by {
        assert(holds(a, i1, c) && holds(a, i2, c));
    }
}

/// Dice a region may receive when its owner has `left` to give: `1..min(4, left)`.
pub open spec fn dice_allowed(left: usize, dice: usize) -> bool {
    1 <= dice && dice < 4 && dice < left
}

/// Gives region `i` the drawn count `dice` out of its owner's remaining `budget`, when the
/// count lies in `1..min(4, remaining)`; otherwise changes nothing.
pub fn grant_dice(board: &mut Board, budget: &mut Vec<usize>, i: usize, dice: usize) -> (granted: bool)
    ensures
        granted == (i < old(board)@.regions.len() && old(board)@.regions[i as int].owner < old(budget)@.len()
            && dice_allowed(old(budget)@[old(board)@.regions[i as int].owner as int], dice)),
        granted ==> final(board)@.regions == old(board)@.regions.update(
            i as int,
            RegionView { num_dice: dice, ..old(board)@.regions[i as int] },
        ),
        granted ==> final(budget)@ == old(budget)@.update(
            old(board)@.regions[i as int].owner as int,
            (old(budget)@[old(board)@.regions[i as int].owner as int] - dice) as usize,
        ),
        granted ==> final(board)@.hexes == old(board)@.hexes,
        !granted ==> final(board)@ == old(board)@ && final(budget)@ == old(budget)@,
{
    if i >= board.regions.len() {
        return false;
    }
    let owner = board.regions[i].owner;
    if owner >= budget.len() {
        return false;
    }
    let left = budget[owner];
    if !(1 <= dice && dice < 4 && dice < left) {
        return false;
    }
    let ghost pre = board@;
    board.regions[i].num_dice = dice;
    budget[owner] = left - dice;
    assert(board@.regions =~= pre.regions.update(i as int, RegionView { num_dice: dice, ..pre.regions[i as int] }));
    true
}

/// Gives each region, in order, a random number of dice in `1..min(4, budget)`, where
/// `budget` is what its owner has left of `DICE_BUDGET`.
fn allocate_dice(rng: &mut ChaCha20Rng, board: &mut Board, n: usize)
    requires
        partitioned(old(board)@),
        forall|i: int| 0 < i < old(board)@.regions.len() ==> #[trigger] joins_land(old(board)@.regions, i),
        1 <= n <= 12,
        forall|i: int| 0 <= i < old(board)@.regions.len() ==> (#[trigger] old(board)@.regions[i]).owner < n,
        forall|p: usize| p < n ==> #[trigger] owned_count(old(board)@.regions, p) <= NUMBER_OF_PATCHES,
    ensures
        generated(final(board)@, n),
        same_layout(old(board)@.regions, final(board)@.regions),
        final(board)@.hexes == old(board)@.hexes,
{
    let ghost orig = board@.regions;
    let mut budget: Vec<usize> = Vec::new();
    let mut p: usize = 0;
    while p < n
        invariant
            p <= n,
            budget@.len() == p,
            forall|x: int| 0 <= x < p ==> budget@[x] == DICE_BUDGET,
        decreases n - p,
    {
        budget.push(DICE_BUDGET);
        p = p + 1;
    }
    let len = board.regions.len();
    let mut i: usize = 0;
    while i < len
        invariant
            len == board.regions@.len(),
            i <= len,
            1 <= n <= 12,
            budget@.len() == n,
            same_layout(orig, board@.regions),
            board@.hexes == old(board)@.hexes,
            orig == old(board)@.regions,
            forall|x: int| 0 <= x < orig.len() ==> (#[trigger] orig[x]).owner < n,
            forall|q: usize| q < n ==> #[trigger] owned_count(orig, q) <= NUMBER_OF_PATCHES,
            forall|x: int| 0 <= x < i ==> 1 <= (#[trigger] board@.regions[x]).num_dice <= 3,
            forall|q: usize|
                q < n ==> budget@[q as int] + #[trigger] dice_total(board@.regions.take(i as int), q)
                    == DICE_BUDGET,
            forall|q: usize|
                q < n ==> #[trigger] dice_total(board@.regions.take(i as int), q) <= 3 * owned_count(
                    board@.regions.take(i as int),
                    q,
                ),
        decreases len - i,
    {
        let ghost before = board@.regions;
        let owner = board.regions[i].owner;
        assert(orig[i as int].owner == owner);
        proof {
            assert(same_layout(before.take(i as int), orig.take(i as int)));
            lemma_count_layout(before.take(i as int), orig.take(i as int), owner);
            lemma_counts_push(orig.take(i as int), orig[i as int], owner);
            assert(orig.take(i as int).push(orig[i as int]) =~= orig.take(i + 1));
            lemma_count_prefix(orig, i + 1, owner);
        }
        assert(dice_total(before.take(i as int), owner) <= 3 * owned_count(before.take(i as int), owner));
        assert(owned_count(orig, owner) <= NUMBER_OF_PATCHES);
        assert(budget@[owner as int] + dice_total(before.take(i as int), owner) == DICE_BUDGET);
        let left = budget[owner];
        let upper = if left < 4 {
            left
        } else {
            4
        };
        let dice = draw_in(rng, 1, upper);
        let granted = grant_dice(board, &mut budget, i, dice);
        assert(granted);
        proof {
            let after = board@.regions;
            assert(after[i as int].num_dice == dice);
            assert(after.take(i as int) =~= before.take(i as int));
            assert(after.take(i + 1) =~= after.take(i as int).push(after[i as int]));
            assert forall|q: usize| q < n implies budget@[q as int] + #[trigger] dice_total(
                after.take(i + 1),
                q,
            ) == DICE_BUDGET && dice_total(after.take(i + 1), q) <= 3 * owned_count(
                after.take(i + 1),
                q,
            ) by {
                lemma_counts_push(after.take(i as int), after[i as int], q);
            }
            assert(same_layout(orig, after));
            assert forall|x: int| 0 <= x < i + 1 implies 1 <= (#[trigger] after[x]).num_dice <= 3 by {
                if x < i {
                    assert(after.take(i as int)[x] == before.take(i as int)[x]);
                }
            }
        }
        i = i + 1;
    }
    proof {
        let fin = board@.regions;
        assert(fin.take(len as int) =~= fin);
        lemma_partitioned_layout(board@.hexes, orig, fin);
        assert forall|i: int| 0 < i < fin.len() implies #[trigger] joins_land(fin, i) by {
            assert(joins_land(orig, i));
            let j = choose|j: int| 0 <= j < i && #[trigger] touches(orig[j].hexes, orig[i].hexes);
            assert(orig[j].hexes == fin[j].hexes);
            assert(orig[i].hexes == fin[i].hexes);
            assert(touches(fin[j].hexes, fin[i].hexes));
        }
        assert forall|x: int| 0 <= x < fin.len() implies (#[trigger] fin[x]).owner < n && 1 <= fin[x].num_dice
            <= 3 by {
            assert(orig[x].owner == fin[x].owner);
        }
        assert forall|q: usize| q < n implies #[trigger] dice_total(fin, q) <= DICE_BUDGET by {
            assert(dice_total(fin.take(len as int), q) + budget@[q as int] == DICE_BUDGET);
        }
    }
}


/// Cells a patch may grow by, for `n` players: `BOARD_SIZE^2 / (2 * NUMBER_OF_PATCHES * n)`.
pub open spec fn patch_size_of(n: usize) -> int {
    400int / (32 * n as int)
}

/// Partitions the window into regions for `number_of_players` players, drawing every random
/// choice from `rng`, then deals out the dice.
///
/// For each of `NUMBER_OF_PATCHES` rounds and each player in turn, a seed cell is drawn in the
/// window and grown into a patch; a patch that does not border the land already placed (but
/// the very first) is drawn again. After `MAX_ATTEMPTS` draws for one patch generation fails.
/// So region `i` belongs to player `i % number_of_players`.
pub fn generate_board(number_of_players: usize, rng: ChaCha20Rng) -> (res: Result<Board, GenerationError>)
    ensures
        (res matches Err(GenerationError::InvalidPlayerCount)) <==> !valid_player_count(number_of_players),
        res matches Ok(b) ==> generated(b@, number_of_players),
        res matches Ok(b) ==> b@.regions.len() == NUMBER_OF_PATCHES * number_of_players,
        res matches Ok(b) ==> forall|i: int|
            0 <= i < b@.regions.len() ==> (#[trigger] b@.regions[i]).owner == i % number_of_players as int
                && b@.regions[i].hexes.len() <= patch_size_of(number_of_players) + 1,
{
    let n = number_of_players;
    if n == 0 || n > 12 {
        return Err(GenerationError::InvalidPlayerCount);
    }
    let mut rng = rng;
    let area: usize = (BOARD_SIZE * BOARD_SIZE) as usize;
    let patch_size: usize = area / (NUMBER_OF_PATCHES * n * 2);
    proof {
        assert(NUMBER_OF_PATCHES * n * 2 == 32 * n);
        vstd::arithmetic::div_mod::lemma_div_is_ordered_by_denominator(400, 32, (32 * n) as int);
    }
    assert(patch_size == patch_size_of(n));
    let mut board = Board { hexes: Vec::new(), regions: Vec::new() };
    proof {
        assert(board@.regions =~= Seq::<RegionView>::empty());
    }
    let mut patch: usize = 0;
    while patch < NUMBER_OF_PATCHES
        invariant
            1 <= n <= 12,
            n == number_of_players,
            patch <= NUMBER_OF_PATCHES,
            patch_size <= 12,
            patch_size == patch_size_of(n),
            partitioned(board@),
            forall|i: int| 0 < i < board@.regions.len() ==> #[trigger] joins_land(board@.regions, i),
            board@.regions.len() == patch * n,
            forall|i: int|
                0 <= i < board@.regions.len() ==> (#[trigger] board@.regions[i]).owner == i % n as int
                    && board@.regions[i].hexes.len() <= patch_size + 1,
            forall|q: usize| q < n ==> #[trigger] owned_count(board@.regions, q) <= patch,
        decreases NUMBER_OF_PATCHES - patch,
    {
        let mut player: usize = 0;
        while player < n
            invariant
                1 <= n <= 12,
                n == number_of_players,
                patch < NUMBER_OF_PATCHES,
                player <= n,
                patch_size <= 12,
                patch_size == patch_size_of(n),
                partitioned(board@),
                forall|i: int| 0 < i < board@.regions.len() ==> #[trigger] joins_land(board@.regions, i),
                board@.regions.len() == patch * n + player,
                forall|i: int|
                    0 <= i < board@.regions.len() ==> (#[trigger] board@.regions[i]).owner == i % n as int
                        && board@.regions[i].hexes.len() <= patch_size + 1,
                forall|q: usize|
                    q < n ==> #[trigger] owned_count(board@.regions, q) <= patch + if q < player {
                        1int
                    } else {
                        0int
                    },
            decreases n - player,
        {
            let mut attempts: usize = 0;
            let mut settled = false;
            while !settled
                invariant
                    1 <= n <= 12,
                    n == number_of_players,
                    patch < NUMBER_OF_PATCHES,
                    player < n,
                    patch_size <= 12,
                    patch_size == patch_size_of(n),
                    attempts <= MAX_ATTEMPTS,
                    partitioned(board@),
                    forall|i: int| 0 < i < board@.regions.len() ==> #[trigger] joins_land(board@.regions, i),
                    board@.regions.len() == patch * n + player + if settled {
                        1int
                    } else {
                        0int
                    },
                    forall|i: int|
                        0 <= i < board@.regions.len() ==> (#[trigger] board@.regions[i]).owner == i % n as int
                            && board@.regions[i].hexes.len() <= patch_size + 1,
                    forall|q: usize|
                        q < n ==> #[trigger] owned_count(board@.regions, q) <= patch + if q < player || (
                        settled && q == player) {
                            1int
                        } else {
                            0int
                        },
                decreases MAX_ATTEMPTS - attempts,
            {
                if attempts == MAX_ATTEMPTS {
                    return Err(GenerationError::GenerationFailed);
                }
                attempts = attempts + 1;
                let span: usize = (2 * HALF_BOARD_SIZE) as usize;
                let q = draw_in(&mut rng, 0, span) as isize - HALF_BOARD_SIZE;
                let r = draw_in(&mut rng, 0, span) as isize - HALF_BOARD_SIZE;
                let seed = (q, r);
                if !is_assigned(&board.hexes, seed) {
                    let cells = grow_patch(&mut rng, &board.hexes, seed, player, patch_size);
                    let ghost old_view = board@;
                    let ghost c = cells@;
                    let first = patch == 0 && player == 0;
                    proof {
                        assert(placeable(old_view.hexes, c));
                        if !first {
                            assert(patch * n + player > 0) by (nonlinear_arith)
                                requires patch > 0 || player > 0, n >= 1;
                        }
                    }
                    if place_patch(&mut board, cells, player, first) {
                        proof {
                            let idx = old_view.regions.len() as int;
                            let x = patch_region(c, player, idx);
                            assert(board@.regions == old_view.regions.push(x));
                            vstd::arithmetic::div_mod::lemma_fundamental_div_mod_converse(
                                idx,
                                n as int,
                                patch as int,
                                player as int,
                            );
                            assert(idx == patch * n + player) by (nonlinear_arith)
                                requires idx == patch * n + player;
                            assert forall|i: int|
                                0 <= i < board@.regions.len() implies (#[trigger] board@.regions[i]).owner == i
                                % n as int && board@.regions[i].hexes.len() <= patch_size + 1 by {
                                if i < idx {
                                    assert(board@.regions[i] == old_view.regions[i]);
                                }
                            }
                            assert forall|i: int| 0 < i < board@.regions.len() implies #[trigger] joins_land(
                                board@.regions,
                                i,
                            ) by {
                                if i < idx {
                                    assert(joins_land(old_view.regions, i));
                                    let j = choose|j: int| 0 <= j < i && #[trigger] touches(
                                        old_view.regions[j].hexes,
                                        old_view.regions[i].hexes,
                                    );
                                    assert(board@.regions[j] == old_view.regions[j]);
                                    assert(board@.regions[i] == old_view.regions[i]);
                                }
                            }
                            assert forall|q: usize| q < n implies #[trigger] owned_count(board@.regions, q)
                                <= patch + if q < player || q == player {
                                1int
                            } else {
                                0int
                            } by {
                                lemma_counts_push(old_view.regions, x, q);
                            }
                        }
                        settled = true;
                    }
                }
            }
            player = player + 1;
        }
        patch = patch + 1;
        proof {
            assert((patch - 1) * n + n == patch * n) by (nonlinear_arith);
        }
    }
    let ghost placed = board@.regions;
    allocate_dice(&mut rng, &mut board, n);
    proof {
        assert forall|i: int| 0 <= i < board@.regions.len() implies (#[trigger] board@.regions[i]).owner == i
            % number_of_players as int && board@.regions[i].hexes.len() <= patch_size_of(number_of_players) + 1 by {
            assert(placed[i].owner == board@.regions[i].owner);
        }
    }
    Ok(board)
}

} // verus!
