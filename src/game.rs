use vstd::prelude::*;

use crate::hex::{adjacent, is_adjacent, lemma_adjacent_symmetric, HexCoord};

pub use crate::events::SelectedRegion;
pub use crate::generation::generate_board;

verus! {

/// Mathematical picture of a region.
pub struct RegionView {
    pub hexes: Seq<(isize, isize)>,
    pub owner: usize,
    pub num_dice: usize,
    pub id: usize,
}

/// One territory: its cells, its owner, its dice and its index on the board.
#[derive(Debug, Default, PartialEq, Eq)]
pub struct Region {
    pub hexes: Vec<(isize, isize)>,
    pub owner: usize,
    pub num_dice: usize,
    pub id: usize,
}

impl View for Region {
    type V = RegionView;

    open spec fn view(&self) -> RegionView {
        RegionView { hexes: self.hexes@, owner: self.owner, num_dice: self.num_dice, id: self.id }
    }
}

impl Clone for Region {
    fn clone(&self) -> (r: Self)
        ensures
            r@ == self@,
    {
        let mut hexes: Vec<(isize, isize)> = Vec::new();
        let mut i: usize = 0;
        while i < self.hexes.len()
            invariant
                i <= self.hexes@.len(),
                hexes@ == self.hexes@.take(i as int),
            decreases self.hexes@.len() - i,
        {
            hexes.push(self.hexes[i]);
            i = i + 1;
            assert(hexes@ =~= self.hexes@.take(i as int));
        }
        assert(hexes@ =~= self.hexes@);
        Region { hexes, owner: self.owner, num_dice: self.num_dice, id: self.id }
    }
}

/// Some cell of `a` is adjacent to some cell of `b`.
pub open spec fn touches(a: Seq<(isize, isize)>, b: Seq<(isize, isize)>) -> bool {
    exists|i: int, j: int| 0 <= i < a.len() && 0 <= j < b.len() && #[trigger] adjacent(a[i], b[j])
}

/// Two regions with different owners that share a border.
pub open spec fn opponents(a: RegionView, b: RegionView) -> bool {
    a.owner != b.owner && touches(a.hexes, b.hexes)
}

/// Being opponents does not depend on the order of the two regions.
pub proof fn lemma_opponents_symmetric(a: RegionView, b: RegionView)
    ensures
        opponents(a, b) == opponents(b, a),
{
    if touches(a.hexes, b.hexes) {
        let (i, j) = choose|i: int, j: int|
            0 <= i < a.hexes.len() && 0 <= j < b.hexes.len() && #[trigger] adjacent(
                a.hexes[i],
                b.hexes[j],
            );
        lemma_adjacent_symmetric(a.hexes[i], b.hexes[j]);
        assert(adjacent(b.hexes[j], a.hexes[i]));
    }
    if touches(b.hexes, a.hexes) {
        let (i, j) = choose|i: int, j: int|
            0 <= i < b.hexes.len() && 0 <= j < a.hexes.len() && #[trigger] adjacent(
                b.hexes[i],
                a.hexes[j],
            );
        lemma_adjacent_symmetric(b.hexes[i], a.hexes[j]);
        assert(adjacent(a.hexes[j], b.hexes[i]));
    }
}

/// Sum of the first coordinates.
pub open spec fn sum_q(s: Seq<(isize, isize)>) -> int
    decreases s.len(),
{
    if s.len() == 0 {
        0
    } else {
        sum_q(s.drop_last()) + s.last().0
    }
}

/// Sum of the second coordinates.
pub open spec fn sum_r(s: Seq<(isize, isize)>) -> int
    decreases s.len(),
{
    if s.len() == 0 {
        0
    } else {
        sum_r(s.drop_last()) + s.last().1
    }
}

/// Squared distance from `h` to the centre of mass of `s`, scaled by `len(s)^2`.
pub open spec fn spread(s: Seq<(isize, isize)>, h: (isize, isize)) -> int {
    let n = s.len() as int;
    (n * h.0 - sum_q(s)) * (n * h.0 - sum_q(s)) + (n * h.1 - sum_r(s)) * (n * h.1 - sum_r(s))
}

/// Largest coordinate magnitude and cell count for which the centre is computed.
pub const CENTER_LIMIT: isize = 16777216;

/// The cells are few enough and close enough to the origin for exact centring.
pub open spec fn centrable(s: Seq<(isize, isize)>) -> bool {
    &&& s.len() <= CENTER_LIMIT
    &&& forall|i: int|
        0 <= i < s.len() ==> -CENTER_LIMIT <= (#[trigger] s[i]).0 <= CENTER_LIMIT && -CENTER_LIMIT
            <= s[i].1 <= CENTER_LIMIT
}

impl Region {
    /// True iff the owners differ and some cell of `self` borders some cell of `other`.
    pub fn is_opponent(&self, other: &Region) -> (res: bool)
        ensures
            res == opponents(self@, other@),
    {
        if self.owner == other.owner {
            return false;
        }
        let mut i: usize = 0;
        while i < self.hexes.len()
            invariant
                self.owner != other.owner,
                i <= self.hexes@.len(),
                forall|a: int, b: int|
                    0 <= a < i && 0 <= b < other.hexes@.len() ==> !#[trigger] adjacent(
                        self.hexes@[a],
                        other.hexes@[b],
                    ),
            decreases self.hexes@.len() - i,
        {
            let mut j: usize = 0;
            while j < other.hexes.len()
                invariant
                    self.owner != other.owner,
                    i < self.hexes@.len(),
                    j <= other.hexes@.len(),
                    forall|a: int, b: int|
                        0 <= a < i && 0 <= b < other.hexes@.len() ==> !#[trigger] adjacent(
                            self.hexes@[a],
                            other.hexes@[b],
                        ),
                    forall|b: int| 0 <= b < j ==> !#[trigger] adjacent(self.hexes@[i as int], other.hexes@[b]),
                decreases other.hexes@.len() - j,
            {
                if is_adjacent(self.hexes[i], other.hexes[j]) {
                    assert(adjacent(self.hexes@[i as int], other.hexes@[j as int]));
                    assert(touches(self@.hexes, other@.hexes));
                    return true;
                }
                j = j + 1;
            }
            i = i + 1;
        }
        false
    }

    /// The member cell nearest to the region's centre of mass; the first such cell on ties,
    /// and the origin for an empty region.
    pub fn center_hex(&self) -> (c: HexCoord)
        requires
            centrable(self.hexes@),
        ensures
            self.hexes@.len() == 0 ==> c.q == 0 && c.r == 0,
            self.hexes@.len() > 0 ==> exists|k: int|
                0 <= k < self.hexes@.len() && #[trigger] self.hexes@[k] == c.pair() && (forall|j: int|
                    0 <= j < self.hexes@.len() ==> spread(self.hexes@, c.pair()) <= spread(
                        self.hexes@,
                        #[trigger] self.hexes@[j],
                    )) && (forall|j: int|
                    0 <= j < k ==> spread(self.hexes@, c.pair()) < spread(
                        self.hexes@,
                        #[trigger] self.hexes@[j],
                    )),
    {
        let s = Ghost(self.hexes@);
        let n = self.hexes.len();
        if n == 0 {
            return HexCoord::new(0, 0);
        }
        let mut sq: i128 = 0;
        let mut sr: i128 = 0;
        let mut i: usize = 0;
        while i < n
            invariant
                n == s@.len(),
                s@ == self.hexes@,
                centrable(s@),
                i <= n,
                sq == sum_q(s@.take(i as int)),
                sr == sum_r(s@.take(i as int)),
                -16777216 * i <= sq <= 16777216 * i,
                -16777216 * i <= sr <= 16777216 * i,
            decreases n - i,
        {
            assert(s@.take(i + 1).drop_last() =~= s@.take(i as int));
            let h = self.hexes[i];
            assert(-CENTER_LIMIT <= s@[i as int].0 <= CENTER_LIMIT && -CENTER_LIMIT <= s@[i as int].1
                <= CENTER_LIMIT);
            assert(16777216 * i <= 281474976710656);
            sq = sq + h.0 as i128;
            sr = sr + h.1 as i128;
            i = i + 1;
        }
        assert(s@.take(n as int) =~= s@);
        let nn: i128 = n as i128;
        let mut best: usize = 0;
        let mut best_key: i128 = 0;
        let mut k: usize = 0;
        while k < n
            invariant
                n == s@.len(),
                n > 0,
                s@ == self.hexes@,
                centrable(s@),
                nn == n,
                sq == sum_q(s@),
                sr == sum_r(s@),
                -16777216 * n <= sq <= 16777216 * n,
                -16777216 * n <= sr <= 16777216 * n,
                k <= n,
                best < n,
                k > 0 ==> best < k,
                k > 0 ==> best_key == spread(s@, s@[best as int]),
                forall|j: int| 0 <= j < k ==> best_key <= spread(s@, #[trigger] s@[j]),
                forall|j: int| 0 <= j < best ==> best_key < spread(s@, #[trigger] s@[j]),
            decreases n - k,
        {
            let h = self.hexes[k];
            proof {
                assert(-CENTER_LIMIT <= s@[k as int].0 <= CENTER_LIMIT && -CENTER_LIMIT <= s@[k as int].1
                    <= CENTER_LIMIT);
                assert(-281474976710656 <= nn * (h.0 as i128) <= 281474976710656) by (nonlinear_arith)
                    requires 0 < nn <= CENTER_LIMIT, -CENTER_LIMIT <= h.0 <= CENTER_LIMIT;
                assert(-281474976710656 <= nn * (h.1 as i128) <= 281474976710656) by (nonlinear_arith)
                    requires 0 < nn <= CENTER_LIMIT, -CENTER_LIMIT <= h.1 <= CENTER_LIMIT;
                assert(16777216 * n <= 281474976710656);
            }
            let dq: i128 = nn * (h.0 as i128) - sq;
            let dr: i128 = nn * (h.1 as i128) - sr;
            assert(-562949953421312 <= dq <= 562949953421312);
            assert(-562949953421312 <= dr <= 562949953421312);
            proof {
                assert(dq * dq <= 316912650057057350374175801344) by (nonlinear_arith)
                    requires -562949953421312 <= dq <= 562949953421312;
                assert(dr * dr <= 316912650057057350374175801344) by (nonlinear_arith)
                    requires -562949953421312 <= dr <= 562949953421312;
                assert(dq * dq >= 0 && dr * dr >= 0) by (nonlinear_arith);
            }
            let key: i128 = dq * dq + dr * dr;
            assert(key == spread(s@, s@[k as int]));
            if k == 0 || key < best_key {
                best = k;
                best_key = key;
            }
            k = k + 1;
        }
        let c = self.hexes[best];
        HexCoord::new(c.0, c.1)
    }
}


/// Mathematical picture of a board.
pub struct BoardView {
    pub hexes: Seq<((isize, isize), usize)>,
    pub regions: Seq<RegionView>,
}

/// The playable cells with their owners, and the regions that partition them.
#[derive(Debug, PartialEq, Eq)]
pub struct Board {
    pub hexes: Vec<((isize, isize), usize)>,
    pub regions: Vec<Region>,
}

impl View for Board {
    type V = BoardView;

    open spec fn view(&self) -> BoardView {
        BoardView { hexes: self.hexes@, regions: self.regions@.map_values(|r: Region| r@) }
    }
}

/// `c` is a key of the cell map `m`.
pub open spec fn mapped(m: Seq<((isize, isize), usize)>, c: (isize, isize)) -> bool {
    exists|k: int| 0 <= k < m.len() && (#[trigger] m[k]).0 == c
}

/// Region `i` holds cell `c`.
pub open spec fn holds(rs: Seq<RegionView>, i: int, c: (isize, isize)) -> bool {
    0 <= i < rs.len() && rs[i].hexes.contains(c)
}

/// Cell `j` borders a cell that comes before it.
pub open spec fn borders_earlier(s: Seq<(isize, isize)>, j: int) -> bool {
    exists|i: int| 0 <= i < j && #[trigger] adjacent(s[i], s[j])
}

/// Some region holds the cell of `e` and is owned by the owner that `e` records.
pub open spec fn claimed(rs: Seq<RegionView>, e: ((isize, isize), usize)) -> bool {
    exists|i: int| #[trigger] holds(rs, i, e.0) && rs[i].owner == e.1
}

/// Each cell after the first borders an earlier one.
pub open spec fn grown(s: Seq<(isize, isize)>) -> bool {
    forall|j: int| 0 < j < s.len() ==> #[trigger] borders_earlier(s, j)
}

/// Number of regions owned by `p`.
pub open spec fn owned_count(rs: Seq<RegionView>, p: usize) -> nat
    decreases rs.len(),
{
    if rs.len() == 0 {
        0
    } else {
        owned_count(rs.drop_last(), p) + if rs.last().owner == p {
            1nat
        } else {
            0nat
        }
    }
}

/// Number of dice on the regions owned by `p`.
pub open spec fn dice_total(rs: Seq<RegionView>, p: usize) -> nat
    decreases rs.len(),
{
    if rs.len() == 0 {
        0
    } else {
        dice_total(rs.drop_last(), p) + if rs.last().owner == p {
            rs.last().num_dice as nat
        } else {
            0nat
        }
    }
}

/// Territory generation places this many patches per player.
pub const NUMBER_OF_PATCHES: usize = 16;

/// Dice a player may receive in total at the start.
pub const DICE_BUDGET: usize = NUMBER_OF_PATCHES * 4;

/// No cell repeats in `s`.
pub open spec fn distinct(s: Seq<(isize, isize)>) -> bool {
    forall|a: int, b: int| 0 <= a < s.len() && 0 <= b < s.len() && #[trigger] s[a] == #[trigger] s[b] ==> a == b
}

/// The regions partition the mapped cells and are well formed: ids follow positions,
/// footprints are non-empty, grown by adjacency, free of repeats and pairwise disjoint, every cell of a region
/// is mapped to that region's owner, and the map has no repeated key.
pub open spec fn partitioned(b: BoardView) -> bool {
    let rs = b.regions;
    let m = b.hexes;
    &&& forall|i: int| 0 <= i < rs.len() ==> (#[trigger] rs[i]).id == i && rs[i].hexes.len() > 0
        && grown(rs[i].hexes) && distinct(rs[i].hexes)
    &&& forall|k1: int, k2: int|
        0 <= k1 < m.len() && 0 <= k2 < m.len() && (#[trigger] m[k1]).0 == (#[trigger] m[k2]).0
            ==> k1 == k2
    &&& forall|k: int| 0 <= k < m.len() ==> claimed(rs, #[trigger] m[k])
    &&& forall|i: int, c: (isize, isize)| #[trigger] holds(rs, i, c) ==> mapped(m, c)
    &&& forall|i1: int, i2: int, c: (isize, isize)|
        #[trigger] holds(rs, i1, c) && #[trigger] holds(rs, i2, c) ==> i1 == i2
}

/// Region `i` shares a border with a region placed before it.
pub open spec fn joins_land(rs: Seq<RegionView>, i: int) -> bool {
    exists|j: int| 0 <= j < i && #[trigger] touches(rs[j].hexes, rs[i].hexes)
}

/// A freshly generated board for `n` players: partitioned, one landmass (each region after the
/// first borders an earlier one), every owner a player, at least one die per region, and no
/// player given more dice than the budget.
pub open spec fn generated(b: BoardView, n: usize) -> bool {
    &&& partitioned(b)
    &&& forall|i: int| 0 < i < b.regions.len() ==> #[trigger] joins_land(b.regions, i)
    &&& forall|i: int|
        0 <= i < b.regions.len() ==> (#[trigger] b.regions[i]).owner < n && 1 <= b.regions[i].num_dice
            <= 3
    &&& forall|p: usize| p < n ==> #[trigger] dice_total(b.regions, p) <= DICE_BUDGET
}


/// Mathematical picture of a log entry.
pub struct LogView {
    pub turn_counter: usize,
    pub turn_of_player: usize,
    pub region_1: RegionView,
    pub region_2: RegionView,
    pub dice_1_sum: usize,
    pub dice_2_sum: usize,
}

/// One clash: when it happened, the attacker and defender as they stood, and the dice sums
/// (both zero until the roll is in).
#[derive(Debug, PartialEq, Eq)]
pub struct GameLogEntry {
    pub turn_counter: usize,
    pub turn_of_player: usize,
    pub region_1: Region,
    pub region_2: Region,
    pub dice_1_sum: usize,
    pub dice_2_sum: usize,
}

impl View for GameLogEntry {
    type V = LogView;

    open spec fn view(&self) -> LogView {
        LogView {
            turn_counter: self.turn_counter,
            turn_of_player: self.turn_of_player,
            region_1: self.region_1@,
            region_2: self.region_2@,
            dice_1_sum: self.dice_1_sum,
            dice_2_sum: self.dice_2_sum,
        }
    }
}

impl Clone for GameLogEntry {
    fn clone(&self) -> (r: Self)
        ensures
            r@ == self@,
    {
        GameLogEntry {
            turn_counter: self.turn_counter,
            turn_of_player: self.turn_of_player,
            region_1: self.region_1.clone(),
            region_2: self.region_2.clone(),
            dice_1_sum: self.dice_1_sum,
            dice_2_sum: self.dice_2_sum,
        }
    }
}

impl Clone for Board {
    fn clone(&self) -> (r: Self)
        ensures
            r@ == self@,
    {
        let mut hexes: Vec<((isize, isize), usize)> = Vec::new();
        let mut k: usize = 0;
        while k < self.hexes.len()
            invariant
                k <= self.hexes@.len(),
                hexes@ == self.hexes@.take(k as int),
            decreases self.hexes@.len() - k,
        {
            hexes.push(self.hexes[k]);
            k = k + 1;
            assert(hexes@ =~= self.hexes@.take(k as int));
        }
        let mut regions: Vec<Region> = Vec::new();
        let mut i: usize = 0;
        while i < self.regions.len()
            invariant
                i <= self.regions@.len(),
                regions@.len() == i,
                forall|j: int| 0 <= j < i ==> (#[trigger] regions@[j])@ == self.regions@[j]@,
            decreases self.regions@.len() - i,
        {
            regions.push(self.regions[i].clone());
            i = i + 1;
        }
        assert(hexes@ =~= self.hexes@);
        let r = Board { hexes, regions };
        assert(r@.regions =~= self@.regions);
        r
    }
}

/// Mathematical picture of a game.
pub struct GameView {
    pub board: BoardView,
    pub turn_of_player: usize,
    pub turn_counter: usize,
    pub number_of_players: usize,
    pub game_log: Seq<LogView>,
}

/// A game in progress: the board, whose turn it is, how many turns have passed, and the log.
#[derive(Debug)]
pub struct GameState {
    pub board: Board,
    pub turn_of_player: usize,
    pub turn_counter: usize,
    pub number_of_players: usize,
    pub game_log: Vec<GameLogEntry>,
}

impl View for GameState {
    type V = GameView;

    open spec fn view(&self) -> GameView {
        GameView {
            board: self.board@,
            turn_of_player: self.turn_of_player,
            turn_counter: self.turn_counter,
            number_of_players: self.number_of_players,
            game_log: self.game_log@.map_values(|e: GameLogEntry| e@),
        }
    }
}

impl Clone for GameState {
    fn clone(&self) -> (r: Self)
        ensures
            r@ == self@,
    {
        let mut game_log: Vec<GameLogEntry> = Vec::new();
        let mut i: usize = 0;
        while i < self.game_log.len()
            invariant
                i <= self.game_log@.len(),
                game_log@.len() == i,
                forall|j: int| 0 <= j < i ==> (#[trigger] game_log@[j])@ == self.game_log@[j]@,
            decreases self.game_log@.len() - i,
        {
            game_log.push(self.game_log[i].clone());
            i = i + 1;
        }
        let r = GameState {
            board: self.board.clone(),
            turn_of_player: self.turn_of_player,
            turn_counter: self.turn_counter,
            number_of_players: self.number_of_players,
            game_log,
        };
        assert(r@.game_log =~= self@.game_log);
        r
    }
}

/// The attacks open to region `a` against the regions of `rs`, in board order.
pub open spec fn attacks_from(a: RegionView, rs: Seq<RegionView>) -> Seq<(RegionView, RegionView)>
    decreases rs.len(),
{
    if rs.len() == 0 {
        Seq::empty()
    } else {
        attacks_from(a, rs.drop_last()) + if opponents(a, rs.last()) {
            seq![(a, rs.last())]
        } else {
            Seq::empty()
        }
    }
}

/// The attacks open to the regions of `rs` owned by `player`, against the regions of `all`:
/// attackers in the order of `rs`, and for each, defenders in the order of `all`.
pub open spec fn moves_among(rs: Seq<RegionView>, all: Seq<RegionView>, player: usize) -> Seq<
    (RegionView, RegionView),
>
    decreases rs.len(),
{
    if rs.len() == 0 {
        Seq::empty()
    } else {
        moves_among(rs.drop_last(), all, player) + if rs.last().owner == player {
            attacks_from(rs.last(), all)
        } else {
            Seq::empty()
        }
    }
}

/// The pairs of regions in a list of moves.
pub open spec fn move_views(ms: Seq<(Region, Region)>) -> Seq<(RegionView, RegionView)> {
    ms.map_values(|m: (Region, Region)| (m.0@, m.1@))
}

impl GameState {
    /// Every (own region, opponent region) pair for the player whose turn it is.
    pub fn possible_moves(self) -> (moves: Vec<(Region, Region)>)
        ensures
            move_views(moves@) == moves_among(
                self@.board.regions,
                self@.board.regions,
                self.turn_of_player,
            ),
    {
        let rs = Ghost(self@.board.regions);
        let player = self.turn_of_player;
        let regions = &self.board.regions;
        let mut moves: Vec<(Region, Region)> = Vec::new();
        let mut i: usize = 0;
        while i < regions.len()
            invariant
                rs@ == regions@.map_values(|r: Region| r@),
                i <= regions@.len(),
                move_views(moves@) == moves_among(rs@.take(i as int), rs@, player),
            decreases regions@.len() - i,
        {
            assert(rs@.take(i + 1).drop_last() =~= rs@.take(i as int));
            if regions[i].owner == player {
                let mut j: usize = 0;
                while j < regions.len()
                    invariant
                        rs@ == regions@.map_values(|r: Region| r@),
                        i < regions@.len(),
                        regions@[i as int].owner == player,
                        j <= regions@.len(),
                        move_views(moves@) == moves_among(rs@.take(i as int), rs@, player) + attacks_from(
                            rs@[i as int],
                            rs@.take(j as int),
                        ),
                    decreases regions@.len() - j,
                {
                    assert(rs@.take(j + 1).drop_last() =~= rs@.take(j as int));
                    if regions[i].is_opponent(&regions[j]) {
                        let a = regions[i].clone();
                        let b = regions[j].clone();
                        let ghost before = moves@;
                        moves.push((a, b));
                        assert(move_views(moves@) =~= move_views(before).push((rs@[i as int], rs@[j as int])));
                    }
                    j = j + 1;
                }
                assert(rs@.take(regions@.len() as int) =~= rs@);
            }
            i = i + 1;
        }
        assert(rs@.take(regions@.len() as int) =~= rs@);
        moves
    }
}

} // verus!
