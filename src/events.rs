use vstd::prelude::*;

use rand_chacha::ChaCha20Rng;

use crate::game::{claimed, holds, partitioned};
use crate::game::{opponents, Board, BoardView, GameLogEntry, GameState, GameView, LogView, Region, RegionView};
use crate::tiered_prng::draw_in;

verus! {

/// The region picked as the attacker, if any, with the handle of what shows it.
#[derive(Debug, Default)]
pub struct SelectedRegion {
    pub entity: Option<u64>,
    pub region: Option<Region>,
}

impl SelectedRegion {
    pub fn select(&mut self, entity: u64, region: Region)
        ensures
            final(self).entity == Some(entity),
            final(self).region matches Some(r) && r@ == region@,
    {
        self.entity = Some(entity);
        self.region = Some(region);
    }

    pub fn deselect(&mut self)
        ensures
            final(self).entity is None,
            final(self).region is None,
    {
        self.entity = None;
        self.region = None;
    }
}

/// An attack to be rolled: the attacking and the defending region.
#[derive(Debug)]
pub struct ClashStart {
    pub region_1: Region,
    pub region_2: Region,
}

/// Why the game could not take a step.
#[derive(Debug, Clone, Copy, PartialEq, Eq)]
pub enum GameError {
    /// The log holds no clash to complete.
    NoPendingClash,
    /// A roll did not have exactly two sides, or a side's sum does not fit.
    MalformedRoll,
    /// The pending clash names a region the board lacks, or the winning region's dice changed.
    StaleClash,
    /// The captured region's dice fall outside `1..` the winner's dice.
    InvalidDraw,
}

/// What a settled clash did.
#[derive(Debug, Clone, Copy, PartialEq, Eq)]
pub struct ClashOutcome {
    /// The attacker's sum beat the defender's.
    pub attacker_won: bool,
    /// The turn passed to the next player.
    pub turn_passed: bool,
    /// The owner of every region, when one player owns them all.
    pub winner: Option<usize>,
}

/// Sum of a list of face values.
pub open spec fn total(s: Seq<usize>) -> int
    decreases s.len(),
{
    if s.len() == 0 {
        0
    } else {
        total(s.drop_last()) + s.last()
    }
}

/// Region with this id has attacked during turn `tc` of player `tp`.
pub open spec fn has_moved(log: Seq<LogView>, tc: usize, tp: usize, id: usize) -> bool {
    exists|k: int|
        0 <= k < log.len() && (#[trigger] log[k]).turn_counter == tc && log[k].turn_of_player == tp
            && log[k].region_1.id == id
}

/// Region `i` belongs to the player whose turn it is, has not attacked this turn, and has an
/// opponent on the board.
pub open spec fn can_still_attack(g: GameView, i: int) -> bool {
    let rs = g.board.regions;
    &&& 0 <= i < rs.len()
    &&& rs[i].owner == g.turn_of_player
    &&& !has_moved(g.game_log, g.turn_counter, g.turn_of_player, rs[i].id)
    &&& exists|j: int| 0 <= j < rs.len() && #[trigger] opponents(rs[j], rs[i])
}

/// No region of the player whose turn it is can still attack.
pub open spec fn turn_blocked(g: GameView) -> bool {
    forall|i: int| !#[trigger] can_still_attack(g, i)
}

/// The player after `tp`, wrapping to the first.
pub open spec fn next_player(tp: usize, n: usize) -> usize {
    if tp + 1 >= n {
        0
    } else {
        (tp + 1) as usize
    }
}

/// `post` is `pre` after the end-of-turn evaluation: when the turn is blocked, play passes on and the turn
/// counter moves up by one; otherwise nothing changes. Board and log never change.
pub open spec fn turn_step(pre: GameView, post: GameView, passed: bool) -> bool {
    &&& passed == turn_blocked(pre)
    &&& post.board == pre.board
    &&& post.game_log == pre.game_log
    &&& post.number_of_players == pre.number_of_players
    &&& passed ==> post.turn_of_player == next_player(pre.turn_of_player, pre.number_of_players)
        && post.turn_counter == pre.turn_counter + 1
    &&& !passed ==> post.turn_of_player == pre.turn_of_player && post.turn_counter == pre.turn_counter
}

/// The owner of all regions, when there is at least one region and they share one owner.
pub open spec fn sole_owner(rs: Seq<RegionView>) -> Option<usize> {
    if rs.len() > 0 && forall|i: int| 0 <= i < rs.len() ==> (#[trigger] rs[i]).owner == rs[0].owner {
        Some(rs[0].owner)
    } else {
        None
    }
}

/// `post` is `pre` with a clash of `a` on `d` opened in the log.
pub open spec fn clash_started(pre: GameView, post: GameView, a: RegionView, d: RegionView) -> bool {
    &&& post.board == pre.board
    &&& post.turn_of_player == pre.turn_of_player
    &&& post.turn_counter == pre.turn_counter
    &&& post.number_of_players == pre.number_of_players
    &&& post.game_log == pre.game_log.push(
        LogView {
            turn_counter: pre.turn_counter,
            turn_of_player: pre.turn_of_player,
            region_1: a,
            region_2: d,
            dice_1_sum: 0,
            dice_2_sum: 0,
        },
    )
}

/// `post` is `pre` with the sums of a roll stored in the last log entry.
pub open spec fn roll_recorded(pre: GameView, post: GameView, s1: int, s2: int) -> bool {
    let last = pre.game_log.len() - 1;
    &&& pre.game_log.len() > 0
    &&& post.board == pre.board
    &&& post.turn_of_player == pre.turn_of_player
    &&& post.turn_counter == pre.turn_counter
    &&& post.number_of_players == pre.number_of_players
    &&& post.game_log == pre.game_log.update(
        last,
        LogView { dice_1_sum: s1 as usize, dice_2_sum: s2 as usize, ..pre.game_log[last] },
    )
}

/// The captured region and its new owner and dice, for the pending clash of `e` and a drawn
/// count `c`: the attacker wins on a strictly greater sum, the defender on ties.
pub open spec fn captured_board(b: BoardView, e: LogView, c: usize) -> Seq<RegionView> {
    let w = clash_winner(e);
    let l = clash_loser(e);
    let rs = b.regions;
    let rs1 = rs.update(l.id as int, RegionView { owner: w.owner, ..rs[l.id as int] });
    if w.num_dice > 1 {
        let rs2 = rs1.update(l.id as int, RegionView { num_dice: c, ..rs1[l.id as int] });
        rs2.update(
            w.id as int,
            RegionView { num_dice: (rs2[w.id as int].num_dice - (c - 1)) as usize, ..rs2[w.id as int] },
        )
    } else {
        rs1
    }
}

/// The winning side of a clash entry: the attacker on a strictly greater sum.
pub open spec fn clash_winner(e: LogView) -> RegionView {
    if e.dice_1_sum > e.dice_2_sum {
        e.region_1
    } else {
        e.region_2
    }
}

/// The losing side of a clash entry.
pub open spec fn clash_loser(e: LogView) -> RegionView {
    if e.dice_1_sum > e.dice_2_sum {
        e.region_2
    } else {
        e.region_1
    }
}

/// The pending clash still matches the board: both regions exist and the winner's dice are
/// as they were when the clash began.
pub open spec fn clash_current(g: GameView) -> bool {
    let e = g.game_log.last();
    &&& g.game_log.len() > 0
    &&& clash_winner(e).id < g.board.regions.len()
    &&& clash_loser(e).id < g.board.regions.len()
    &&& g.board.regions[clash_winner(e).id as int].num_dice == clash_winner(e).num_dice
}

/// `c` is a count of dice the captured region may receive.
pub open spec fn draw_allowed(g: GameView, c: usize) -> bool {
    let w = clash_winner(g.game_log.last());
    w.num_dice > 1 ==> 1 <= c < w.num_dice
}

/// The cell map with every cell of `cells` handed to owner `o`.
pub open spec fn recolored(m: Seq<((isize, isize), usize)>, cells: Seq<(isize, isize)>, o: usize) -> Seq<
    ((isize, isize), usize),
> {
    Seq::new(m.len(), |k: int| if cells.contains(m[k].0) { (m[k].0, o) } else { m[k] })
}

/// The board after the clash of `e` is settled with drawn count `c`: the losing region and
/// all its cells pass to the winner's owner, and the dice move as `captured_board` says.
pub open spec fn after_capture(b: BoardView, e: LogView, c: usize) -> BoardView {
    BoardView {
        hexes: recolored(b.hexes, b.regions[clash_loser(e).id as int].hexes, clash_winner(e).owner),
        regions: captured_board(b, e, c),
    }
}

/// Settling the clash of `e` took `pre` to `post` without changing the board's shape: the same
/// cells in the map and in each region, the same ids, only the two regions of the clash
/// changed, no region left without dice that had some, and a partitioned board still
/// partitioned (so every cell's recorded owner is its region's owner).
pub open spec fn capture_keeps(pre: BoardView, post: BoardView, e: LogView) -> bool {
    let a = clash_winner(e).id as int;
    let b = clash_loser(e).id as int;
    &&& post.regions.len() == pre.regions.len()
    &&& post.hexes.len() == pre.hexes.len()
    &&& forall|k: int| 0 <= k < pre.hexes.len() ==> (#[trigger] post.hexes[k]).0 == pre.hexes[k].0
    &&& forall|i: int|
        0 <= i < pre.regions.len() ==> (#[trigger] post.regions[i]).hexes == pre.regions[i].hexes
            && post.regions[i].id == pre.regions[i].id && (i != a && i != b ==> post.regions[i]
            == pre.regions[i])
    &&& (forall|i: int| 0 <= i < pre.regions.len() ==> (#[trigger] pre.regions[i]).num_dice >= 1) ==> (
    forall|i: int| 0 <= i < post.regions.len() ==> (#[trigger] post.regions[i]).num_dice >= 1)
    &&& partitioned(pre) ==> partitioned(post)
}

/// The capture of a current clash keeps the board's shape.
pub proof fn lemma_capture_keeps(b: BoardView, e: LogView, c: usize)
    requires
        clash_winner(e).id < b.regions.len(),
        clash_loser(e).id < b.regions.len(),
        b.regions[clash_winner(e).id as int].num_dice == clash_winner(e).num_dice,
        clash_winner(e).num_dice > 1 ==> 1 <= c < clash_winner(e).num_dice,
    ensures
        capture_keeps(b, after_capture(b, e, c), e),
{
    let w = clash_winner(e);
    let l = clash_loser(e);
    let rs = b.regions;
    let m = b.hexes;
    let post = after_capture(b, e, c);
    let rs2 = post.regions;
    let m2 = post.hexes;
    assert forall|i: int| 0 <= i < rs.len() implies (#[trigger] rs2[i]).hexes == rs[i].hexes && rs2[i].id
        == rs[i].id && (i != w.id && i != l.id ==> rs2[i] == rs[i]) && rs2[i].owner == (if i == l.id {
        w.owner
    } else {
        rs[i].owner
    }) && (rs[i].num_dice >= 1 ==> rs2[i].num_dice >= 1) by {}
    assert forall|k: int| 0 <= k < m.len() implies (#[trigger] m2[k]).0 == m[k].0 && m2[k].1 == (if rs[l.id as int].hexes.contains(m[k].0) {
        w.owner
    } else {
        m[k].1
    }) by {}
    if partitioned(b) {
        assert forall|i: int, x: (isize, isize)| holds(rs2, i, x) == holds(rs, i, x) by {
            if 0 <= i < rs.len() {
                assert(rs2[i].hexes == rs[i].hexes);
            }
        }
        assert forall|k: int| 0 <= k < m2.len() implies claimed(rs2, #[trigger] m2[k]) by {
            let x = m[k].0;
            if rs[l.id as int].hexes.contains(x) {
                assert(holds(rs2, l.id as int, m2[k].0));
            } else {
                assert(claimed(rs, m[k]));
                let i = choose|i: int| #[trigger] holds(rs, i, m[k].0) && rs[i].owner == m[k].1;
                assert(holds(rs2, i, m2[k].0));
            }
        }
        assert forall|i: int| 0 <= i < rs2.len() implies (#[trigger] rs2[i]).id == i && rs2[i].hexes.len() > 0
            && crate::game::grown(rs2[i].hexes) && crate::game::distinct(rs2[i].hexes) by {
            assert(rs[i].id == i);
        }
        assert forall|k1: int, k2: int|
            0 <= k1 < m2.len() && 0 <= k2 < m2.len() && (#[trigger] m2[k1]).0 == (#[trigger] m2[k2]).0
                implies k1 == k2 by {
            assert(m[k1].0 == m[k2].0);
        }
        assert forall|i1: int, i2: int, x: (isize, isize)|
            #[trigger] holds(rs2, i1, x) && #[trigger] holds(rs2, i2, x) implies i1 == i2 by {
            assert(holds(rs, i1, x) && holds(rs, i2, x));
        }
        assert forall|i: int, x: (isize, isize)| #[trigger] holds(rs2, i, x) implies crate::game::mapped(m2, x) by {
            assert(holds(rs, i, x));
            let k = choose|k: int| 0 <= k < m.len() && (#[trigger] m[k]).0 == x;
            assert(m2[k].0 == x);
        }
    }
}

/// `post` is `pre` after its pending clash was settled with drawn count `c` and the turn was
/// checked; `o` reports it.
pub open spec fn clash_settled(pre: GameView, post: GameView, c: usize, o: ClashOutcome) -> bool {
    let e = pre.game_log.last();
    let mid = GameView {
        board: after_capture(pre.board, e, c),
        ..pre
    };
    &&& o.attacker_won == (e.dice_1_sum > e.dice_2_sum)
    &&& turn_step(mid, post, o.turn_passed)
    &&& o.winner == sole_owner(post.board.regions)
}

impl GameState {
    /// A fresh game on `board`: the first player's turn, turn zero, an empty log.
    pub fn new(board: Board, number_of_players: usize) -> (g: GameState)
        ensures
            g@.board == board@,
            g.turn_of_player == 0,
            g.turn_counter == 0,
            g.number_of_players == number_of_players,
            g@.game_log.len() == 0,
    {
        let g = GameState { board, turn_of_player: 0, turn_counter: 0, number_of_players, game_log: Vec::new() };
        assert(g@.game_log =~= Seq::<LogView>::empty());
        g
    }
}


/// Whether `c` is one of the cells.
fn contains_cell(v: &Vec<(isize, isize)>, c: (isize, isize)) -> (r: bool)
    ensures
        r == v@.contains(c),
{
    let mut i: usize = 0;
    while i < v.len()
        invariant
            i <= v@.len(),
            forall|j: int| 0 <= j < i ==> v@[j] != c,
        decreases v@.len() - i,
    {
        let x = v[i];
        if x.0 == c.0 && x.1 == c.1 {
            assert(v@[i as int] == c);
            return true;
        }
        i = i + 1;
    }
    false
}

/// Sum of face values, or `None` when it does not fit in `usize`.
fn sum_faces(v: &Vec<usize>) -> (r: Option<usize>)
    ensures
        r is Some <==> total(v@) <= usize::MAX,
        r matches Some(x) ==> x == total(v@),
{
    let mut acc: usize = 0;
    let mut i: usize = 0;
    while i < v.len()
        invariant
            i <= v@.len(),
            acc == total(v@.take(i as int)),
        decreases v@.len() - i,
    {
        assert(v@.take(i + 1).drop_last() =~= v@.take(i as int));
        if acc > usize::MAX - v[i] {
            proof {
                lemma_total_prefix(v@, i + 1);
            }
            return None;
        }
        acc = acc + v[i];
        i = i + 1;
    }
    assert(v@.take(i as int) =~= v@);
    Some(acc)
}

/// A prefix sums to no more than the whole list.
proof fn lemma_total_prefix(s: Seq<usize>, k: int)
    requires
        0 <= k <= s.len(),
    ensures
        total(s.take(k)) <= total(s),
    decreases s.len(),
{
    if k < s.len() {
        assert(s.drop_last().take(k) =~= s.take(k));
        lemma_total_prefix(s.drop_last(), k);
    } else {
        assert(s.take(k) =~= s);
    }
}

impl Board {
    /// The player who owns every region, if there are regions and one player owns them all.
    pub fn winner(&self) -> (w: Option<usize>)
        ensures
            w == sole_owner(self@.regions),
    {
        let rs = Ghost(self@.regions);
        if self.regions.len() == 0 {
            return None;
        }
        let first = self.regions[0].owner;
        let mut i: usize = 0;
        while i < self.regions.len()
            invariant
                rs@ == self@.regions,
                rs@.len() > 0,
                first == rs@[0].owner,
                i <= rs@.len(),
                forall|j: int| 0 <= j < i ==> (#[trigger] rs@[j]).owner == first,
            decreases rs@.len() - i,
        {
            if self.regions[i].owner != first {
                assert(rs@[i as int].owner != rs@[0].owner);
                return None;
            }
            i = i + 1;
        }
        Some(first)
    }
}

impl GameState {
    /// Handles the choice of `region`: a region of the player whose turn it is becomes the
    /// attacker, unless it already attacked this turn, in which case nothing changes; any other
    /// region is attacked by the chosen attacker when the two are opponents, and the choice is
    /// cleared either way.
    pub fn region_selected(&self, selected: &mut SelectedRegion, entity: u64, region: &Region) -> (clash:
        Option<ClashStart>)
        ensures
            region.owner == self.turn_of_player ==> clash is None,
            region.owner == self.turn_of_player && !has_moved(self@.game_log, self.turn_counter, self.turn_of_player, region.id)
                ==> final(selected).entity == Some(entity) && (final(selected).region matches Some(r) && r@ == region@),
            region.owner == self.turn_of_player && has_moved(self@.game_log, self.turn_counter, self.turn_of_player, region.id)
                ==> *final(selected) == *old(selected),
            region.owner != self.turn_of_player ==> final(selected).entity is None,
            region.owner != self.turn_of_player ==> final(selected).region is None,
            region.owner != self.turn_of_player ==> (clash is Some <==> (old(selected).region matches Some(a)
                && opponents(a@, region@))),
            clash matches Some(c) ==> (old(selected).region matches Some(a) && c.region_1@ == a@)
                && c.region_2@ == region@,
    {
        if region.owner != self.turn_of_player {
            let mut clash: Option<ClashStart> = None;
            match &selected.region {
                Some(a) => {
                    if a.is_opponent(region) {
                        clash = Some(ClashStart { region_1: a.clone(), region_2: region.clone() });
                    }
                },
                None => {},
            }
            selected.deselect();
            clash
        } else {
            if self.can_act(region.id) {
                selected.select(entity, region.clone());
            }
            None
        }
    }

    /// Opens a clash of `attacker` on `defender` in the log, with no sums yet, and returns the
    /// roll to ask for: the attacker's dice, then the defender's.
    pub fn start_clash(&mut self, attacker: &Region, defender: &Region) -> (request: Vec<usize>)
        ensures
            clash_started(old(self)@, final(self)@, attacker@, defender@),
            request@ == seq![attacker.num_dice, defender.num_dice],
    {
        let entry = GameLogEntry {
            turn_counter: self.turn_counter,
            turn_of_player: self.turn_of_player,
            region_1: attacker.clone(),
            region_2: defender.clone(),
            dice_1_sum: 0,
            dice_2_sum: 0,
        };
        let ghost before = self.game_log@;
        self.game_log.push(entry);
        assert(self@.game_log =~= before.map_values(|e: GameLogEntry| e@).push(entry@));
        let mut request: Vec<usize> = Vec::new();
        request.push(attacker.num_dice);
        request.push(defender.num_dice);
        assert(request@ =~= seq![attacker.num_dice, defender.num_dice]);
        request
    }

    /// Stores the sums of a roll, one list of face values per side, in the pending clash.
    pub fn record_dice_roll(&mut self, values: &Vec<Vec<usize>>) -> (r: Result<(), GameError>)
        ensures
            old(self)@.game_log.len() == 0 ==> r == Err::<(), GameError>(GameError::NoPendingClash),
            old(self)@.game_log.len() > 0 && (values@.len() != 2 || total(values@[0]@) > usize::MAX
                || total(values@[1]@) > usize::MAX) ==> r == Err::<(), GameError>(GameError::MalformedRoll),
            old(self)@.game_log.len() > 0 && values@.len() == 2 && total(values@[0]@) <= usize::MAX
                && total(values@[1]@) <= usize::MAX ==> r is Ok,
            r is Err ==> final(self)@ == old(self)@,
            r is Ok ==> values@.len() == 2 && roll_recorded(
                old(self)@,
                final(self)@,
                total(values@[0]@),
                total(values@[1]@),
            ),
    {
        if self.game_log.len() == 0 {
            return Err(GameError::NoPendingClash);
        }
        if values.len() != 2 {
            return Err(GameError::MalformedRoll);
        }
        let s1 = match sum_faces(&values[0]) {
            Some(x) => x,
            None => {
                return Err(GameError::MalformedRoll);
            },
        };
        let s2 = match sum_faces(&values[1]) {
            Some(x) => x,
            None => {
                return Err(GameError::MalformedRoll);
            },
        };
        let ghost pre = self@;
        let last = self.game_log.len() - 1;
        self.game_log[last].dice_1_sum = s1;
        self.game_log[last].dice_2_sum = s2;
        assert(self@.game_log =~= pre.game_log.update(
            last as int,
            LogView { dice_1_sum: s1, dice_2_sum: s2, ..pre.game_log[last as int] },
        ));
        Ok(())
    }

    /// Whether the region with this id may still attack in the current turn: no log entry of
    /// this turn has it as the attacker.
    pub fn can_act(&self, id: usize) -> (r: bool)
        ensures
            r == !has_moved(self@.game_log, self.turn_counter, self.turn_of_player, id),
    {
        !self.moved_this_turn(id)
    }

    /// Whether the region with this id already attacked in the current turn.
    fn moved_this_turn(&self, id: usize) -> (r: bool)
        ensures
            r == has_moved(self@.game_log, self.turn_counter, self.turn_of_player, id),
    {
        let log = Ghost(self@.game_log);
        let mut k: usize = 0;
        while k < self.game_log.len()
            invariant
                log@ == self@.game_log,
                k <= log@.len(),
                forall|x: int|
                    0 <= x < k ==> !((#[trigger] log@[x]).turn_counter == self.turn_counter
                        && log@[x].turn_of_player == self.turn_of_player && log@[x].region_1.id == id),
            decreases log@.len() - k,
        {
            let e = &self.game_log[k];
            if e.turn_counter == self.turn_counter && e.turn_of_player == self.turn_of_player
                && e.region_1.id == id {
                assert(log@[k as int].turn_counter == self.turn_counter);
                return true;
            }
            k = k + 1;
        }
        false
    }

    /// Whether some region on the board is an opponent of region `i`.
    fn has_opponent(&self, i: usize) -> (r: bool)
        requires
            i < self@.board.regions.len(),
        ensures
            r == exists|j: int|
                0 <= j < self@.board.regions.len() && #[trigger] opponents(
                    self@.board.regions[j],
                    self@.board.regions[i as int],
                ),
    {
        let rs = Ghost(self@.board.regions);
        let mut j: usize = 0;
        while j < self.board.regions.len()
            invariant
                rs@ == self@.board.regions,
                i < rs@.len(),
                j <= rs@.len(),
                forall|x: int| 0 <= x < j ==> !#[trigger] opponents(rs@[x], rs@[i as int]),
            decreases rs@.len() - j,
        {
            if self.board.regions[j].is_opponent(&self.board.regions[i]) {
                assert(opponents(rs@[j as int], rs@[i as int]));
                return true;
            }
            j = j + 1;
        }
        false
    }

    /// Whether no region of the player whose turn it is can still attack.
    pub fn is_turn_blocked(&self) -> (r: bool)
        ensures
            r == turn_blocked(self@),
    {
        let rs = Ghost(self@.board.regions);
        let mut i: usize = 0;
        while i < self.board.regions.len()
            invariant
                rs@ == self@.board.regions,
                i <= rs@.len(),
                forall|x: int| 0 <= x < i ==> !#[trigger] can_still_attack(self@, x),
            decreases rs@.len() - i,
        {
            let r = &self.board.regions[i];
            if r.owner == self.turn_of_player && !self.moved_this_turn(r.id) && self.has_opponent(i) {
                assert(can_still_attack(self@, i as int));
                return false;
            }
            i = i + 1;
        }
        true
    }

    /// The end-of-turn evaluation: when no region of the player whose turn it is can still attack, play
    /// passes to the next player and the turn counter moves up by one.
    pub fn advance_turn_if_blocked(&mut self) -> (passed: bool)
        requires
            old(self).turn_counter < usize::MAX,
        ensures
            turn_step(old(self)@, final(self)@, passed),
    {
        let blocked = self.is_turn_blocked();
        if blocked {
            let n = self.number_of_players;
            let tp = self.turn_of_player;
            self.turn_of_player = if n > 0 && tp < n - 1 {
                tp + 1
            } else {
                0
            };
            self.turn_counter = self.turn_counter + 1;
        }
        blocked
    }

    /// Whether the pending clash still matches the board.
    fn pending_is_current(&self) -> (r: bool)
        requires
            self@.game_log.len() > 0,
        ensures
            r == clash_current(self@),
    {
        let e = &self.game_log[self.game_log.len() - 1];
        let attacker_won = e.dice_1_sum > e.dice_2_sum;
        let w = if attacker_won {
            &e.region_1
        } else {
            &e.region_2
        };
        let l = if attacker_won {
            &e.region_2
        } else {
            &e.region_1
        };
        w.id < self.board.regions.len() && l.id < self.board.regions.len()
            && self.board.regions[w.id].num_dice == w.num_dice
    }

    /// Settles the pending clash with `captured` as the captured region's new dice: the
    /// losing region passes to the winner's owner, and when the winner had more than one die
    /// the captured region gets `captured` dice and the winning region gives up `captured - 1`.
    /// Then the end-of-turn evaluation runs and one-owner boards are reported.
    pub fn settle_clash(&mut self, captured: usize) -> (r: Result<ClashOutcome, GameError>)
        requires
            old(self).turn_counter < usize::MAX,
        ensures
            old(self)@.game_log.len() == 0 ==> r == Err::<ClashOutcome, GameError>(GameError::NoPendingClash),
            old(self)@.game_log.len() > 0 && !clash_current(old(self)@) ==> r == Err::<ClashOutcome, GameError>(
                GameError::StaleClash,
            ),
            clash_current(old(self)@) && !draw_allowed(old(self)@, captured) ==> r == Err::<
                ClashOutcome,
                GameError,
            >(GameError::InvalidDraw),
            r is Err ==> final(self)@ == old(self)@,
            clash_current(old(self)@) && draw_allowed(old(self)@, captured) ==> r is Ok,
            r matches Ok(o) ==> clash_current(old(self)@) && draw_allowed(old(self)@, captured)
                && clash_settled(old(self)@, final(self)@, captured, o),
            r is Ok ==> capture_keeps(old(self)@.board, final(self)@.board, old(self)@.game_log.last()),
    {
        if self.game_log.len() == 0 {
            return Err(GameError::NoPendingClash);
        }
        if !self.pending_is_current() {
            return Err(GameError::StaleClash);
        }
        let ghost pre = self@;
        let ghost pre_regions = self.board.regions;
        let ghost pre_log = self.game_log;
        let last = self.game_log.len() - 1;
        let attacker_won = self.game_log[last].dice_1_sum > self.game_log[last].dice_2_sum;
        let (w_id, w_owner, w_dice, l_id) = if attacker_won {
            let e = &self.game_log[last];
            (e.region_1.id, e.region_1.owner, e.region_1.num_dice, e.region_2.id)
        } else {
            let e = &self.game_log[last];
            (e.region_2.id, e.region_2.owner, e.region_2.num_dice, e.region_1.id)
        };
        if w_dice > 1 && !(1 <= captured && captured < w_dice) {
            return Err(GameError::InvalidDraw);
        }
        let mut k: usize = 0;
        while k < self.board.hexes.len()
            invariant
                l_id < self.board.regions@.len(),
                self.board.regions == pre_regions,
                pre_regions@.map_values(|r: Region| r@) == pre.board.regions,
                self.game_log == pre_log,
                self.turn_counter == pre.turn_counter,
                self.turn_of_player == pre.turn_of_player,
                self.number_of_players == pre.number_of_players,
                self.board.hexes@.len() == pre.board.hexes.len(),
                k <= self.board.hexes@.len(),
                forall|x: int|
                    0 <= x < self.board.hexes@.len() ==> (#[trigger] self.board.hexes@[x]) == if x < k {
                        recolored(pre.board.hexes, pre.board.regions[l_id as int].hexes, w_owner)[x]
                    } else {
                        pre.board.hexes[x]
                    },
            decreases self.board.hexes@.len() - k,
        {
            let cell = self.board.hexes[k].0;
            let ghost before = self.board.hexes@;
            assert(self.board.regions@[l_id as int].hexes@ == pre.board.regions[l_id as int].hexes);
            if contains_cell(&self.board.regions[l_id].hexes, cell) {
                self.board.hexes[k] = (cell, w_owner);
            }
            assert forall|x: int| 0 <= x < self.board.hexes@.len() implies (#[trigger] self.board.hexes@[x]) == if x < k + 1 {
                recolored(pre.board.hexes, pre.board.regions[l_id as int].hexes, w_owner)[x]
            } else {
                pre.board.hexes[x]
            } by {
                if x != k {
                    assert(self.board.hexes@[x] == before[x]);
                }
            }
            k = k + 1;
        }
        assert(self.board.hexes@ =~= recolored(pre.board.hexes, pre.board.regions[l_id as int].hexes, w_owner));
        self.board.regions[l_id].owner = w_owner;
        if w_dice > 1 {
            self.board.regions[l_id].num_dice = captured;
            let current = self.board.regions[w_id].num_dice;
            self.board.regions[w_id].num_dice = current - (captured - 1);
        }
        assert(self@.board.regions =~= captured_board(pre.board, pre.game_log.last(), captured));
        assert(self@.board == after_capture(pre.board, pre.game_log.last(), captured));
        proof {
            lemma_capture_keeps(pre.board, pre.game_log.last(), captured);
        }
        let passed = self.advance_turn_if_blocked();
        let winner = self.board.winner();
        Ok(ClashOutcome { attacker_won, turn_passed: passed, winner })
    }

    /// Settles the pending clash, drawing the captured region's dice from `rng` in
    /// `1..` the winner's dice when the winner had more than one.
    pub fn finish_clash(&mut self, rng: &mut ChaCha20Rng) -> (r: Result<ClashOutcome, GameError>)
        requires
            old(self).turn_counter < usize::MAX,
        ensures
            old(self)@.game_log.len() == 0 ==> r == Err::<ClashOutcome, GameError>(GameError::NoPendingClash),
            old(self)@.game_log.len() > 0 && !clash_current(old(self)@) ==> r == Err::<ClashOutcome, GameError>(
                GameError::StaleClash,
            ),
            r is Err ==> final(self)@ == old(self)@,
            r is Ok ==> capture_keeps(old(self)@.board, final(self)@.board, old(self)@.game_log.last()),
            clash_current(old(self)@) ==> (r matches Ok(o) && exists|c: usize|
                draw_allowed(old(self)@, c) && #[trigger] clash_settled(old(self)@, final(self)@, c, o)),
    {
        if self.game_log.len() == 0 {
            return Err(GameError::NoPendingClash);
        }
        if !self.pending_is_current() {
            return Err(GameError::StaleClash);
        }
        let last = self.game_log.len() - 1;
        let e = &self.game_log[last];
        let w_dice = if e.dice_1_sum > e.dice_2_sum {
            e.region_1.num_dice
        } else {
            e.region_2.num_dice
        };
        let captured = if w_dice > 1 {
            draw_in(rng, 1, w_dice)
        } else {
            0
        };
        assert(draw_allowed(self@, captured));
        let r = self.settle_clash(captured);
        match r {
            Ok(o) => {
                assert(clash_settled(old(self)@, self@, captured, o));
            },
            Err(_) => {},
        }
        r
    }
}


/// A list of face values that are all at least one sums to at least its length.
proof fn lemma_total_at_least_len(v: Seq<usize>)
    requires
        forall|k: int| 0 <= k < v.len() ==> #[trigger] v[k] >= 1,
    ensures
        total(v) >= v.len(),
    decreases v.len(),
{
    if v.len() > 0 {
        assert forall|k: int| 0 <= k < v.drop_last().len() implies #[trigger] v.drop_last()[k] >= 1 by {
            assert(v.drop_last()[k] == v[k]);
        }
        lemma_total_at_least_len(v.drop_last());
    }
}

/// Opening a clash, recording a roll of positive faces on both sides and settling the clash
/// adds exactly one log entry, with both sums non-zero, leaves the earlier entries as they
/// were, and keeps the board's shape: the same regions with the same cells and ids, only the
/// two regions of the clash changed.
pub proof fn lemma_clash_logs_once(
    s0: GameView,
    s1: GameView,
    s2: GameView,
    s3: GameView,
    a: RegionView,
    d: RegionView,
    v1: Seq<usize>,
    v2: Seq<usize>,
    c: usize,
    o: ClashOutcome,
)
    requires
        clash_started(s0, s1, a, d),
        v1.len() > 0,
        v2.len() > 0,
        forall|k: int| 0 <= k < v1.len() ==> #[trigger] v1[k] >= 1,
        forall|k: int| 0 <= k < v2.len() ==> #[trigger] v2[k] >= 1,
        total(v1) <= usize::MAX,
        total(v2) <= usize::MAX,
        roll_recorded(s1, s2, total(v1), total(v2)),
        clash_current(s2),
        draw_allowed(s2, c),
        clash_settled(s2, s3, c, o),
    ensures
        capture_keeps(s0.board, s3.board, s2.game_log.last()),
        s3.game_log.len() == s0.game_log.len() + 1,
        s3.game_log.take(s0.game_log.len() as int) == s0.game_log,
        s3.game_log.last().region_1 == a,
        s3.game_log.last().region_2 == d,
        s3.game_log.last().dice_1_sum > 0,
        s3.game_log.last().dice_2_sum > 0,
        s3.board.regions.len() == s0.board.regions.len(),
{
    lemma_total_at_least_len(v1);
    lemma_total_at_least_len(v2);
    lemma_capture_keeps(s2.board, s2.game_log.last(), c);
    assert(s3.game_log == s2.game_log);
    assert(s3.game_log.take(s0.game_log.len() as int) =~= s0.game_log);
}

/// When every region of the player whose turn it is that has an opponent has already
/// attacked this turn, the end-of-turn evaluation passes play to the next player and moves the turn
/// counter up by one.
pub proof fn lemma_turn_passes(pre: GameView, post: GameView, passed: bool)
    requires
        forall|i: int|
            0 <= i < pre.board.regions.len() && (#[trigger] pre.board.regions[i]).owner == pre.turn_of_player
                && (exists|j: int| 0 <= j < pre.board.regions.len() && #[trigger] opponents(pre.board.regions[j], pre.board.regions[i]))
                ==> has_moved(pre.game_log, pre.turn_counter, pre.turn_of_player, pre.board.regions[i].id),
        turn_step(pre, post, passed),
    ensures
        passed,
        post.turn_of_player == next_player(pre.turn_of_player, pre.number_of_players),
        pre.turn_of_player < pre.number_of_players ==> post.turn_of_player == (pre.turn_of_player + 1)
            % (pre.number_of_players as int),
        post.turn_counter == pre.turn_counter + 1,
{
    assert(turn_blocked(pre));
    if pre.turn_of_player < pre.number_of_players {
        let n = pre.number_of_players as int;
        let t = pre.turn_of_player as int;
        if t + 1 < n {
            vstd::arithmetic::div_mod::lemma_small_mod((t + 1) as nat, n as nat);
        } else {
            vstd::arithmetic::div_mod::lemma_mod_self_0(n);
        }
    }
}

/// A board whose regions all belong to one player reports that player as the winner.
pub proof fn lemma_one_owner_wins(rs: Seq<RegionView>, owner: usize)
    requires
        rs.len() > 0,
        forall|i: int| 0 <= i < rs.len() ==> (#[trigger] rs[i]).owner == owner,
    ensures
        sole_owner(rs) == Some(owner),
{
    assert(rs[0].owner == owner);
}

} // verus!
