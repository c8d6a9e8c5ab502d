//! The state of a hand, and how a hand starts and how it ends when all but one fold.

use crate::poker_table::types::{
    ActionRecord, AnteMode, BlindLevel, GamePhase, PlayerState, PokerTableError, TableState,
};
use crate::seqs::sum_by;
use vstd::prelude::*;

verus! {

/// The most rake that a table can take: five percent.
pub const MAX_RAKE_BPS: u32 = 500;

/// The part of a table that a hand changes.
#[verifier::ext_equal]
pub struct Hand {
    pub players: Seq<PlayerState>,
    pub pot: int,
    pub phase: GamePhase,
    pub current_turn: u32,
    pub last_action_ledger: u32,
    pub action_deadline: u32,
    pub rake_balance: int,
    pub jackpot_balance: int,
    pub settlement_entered_ledger: u32,
    pub last_raise_size: int,
    pub actions: Seq<ActionRecord>,
}

/// How many players have not folded.
pub open spec fn count_active(players: Seq<PlayerState>) -> nat
    decreases players.len(),
{
    if players.len() == 0 {
        0
    } else {
        count_active(players.drop_last()) + (if players.last().folded {
            0nat
        } else {
            1
        })
    }
}

/// The first player who has not folded.
pub open spec fn first_active(players: Seq<PlayerState>) -> int
    decreases players.len(),
{
    if players.len() == 0 {
        0
    } else {
        let k = first_active(players.drop_last());
        if k < players.len() - 1 {
            k
        } else if !players.last().folded {
            players.len() - 1
        } else {
            players.len() as int
        }
    }
}

/// The chips in front of a player.
pub open spec fn stack_of() -> spec_fn(PlayerState) -> int {
    |p: PlayerState| p.stack as int
}

/// Whether a player can still act in the hand.
pub open spec fn can_act(p: PlayerState) -> bool {
    !p.folded && !p.all_in
}

/// The next seat at or after `seat` whose player can act, looking at `left` seats at most; the
/// seat where the search ends if there is none.
pub open spec fn next_turn(players: Seq<PlayerState>, seat: int, left: nat) -> int
    decreases left,
{
    if left == 0 || can_act(players[seat]) {
        seat
    } else {
        next_turn(players, (seat + 1) % (players.len() as int), (left - 1) as nat)
    }
}

/// The seat whose turn comes after `seat`.
pub open spec fn turn_after(players: Seq<PlayerState>, seat: int) -> int {
    next_turn(players, (seat + 1) % (players.len() as int), players.len())
}

impl TableState {
    /// The hand that is played at the table.
    pub open spec fn hand(self) -> Hand {
        Hand {
            players: self.players@,
            pot: self.pot as int,
            phase: self.phase,
            current_turn: self.current_turn,
            last_action_ledger: self.last_action_ledger,
            action_deadline: self.action_deadline,
            rake_balance: self.rake_balance as int,
            jackpot_balance: self.jackpot_balance as int,
            settlement_entered_ledger: self.settlement_entered_ledger,
            last_raise_size: self.last_raise_size as int,
            actions: self.hand_actions@,
        }
    }

    /// Whether `self` and `other` differ at most in the hand that is played.
    pub open spec fn same_but_hand(self, other: TableState) -> bool {
        other == (TableState {
            players: other.players,
            pot: other.pot,
            phase: other.phase,
            current_turn: other.current_turn,
            last_action_ledger: other.last_action_ledger,
            action_deadline: other.action_deadline,
            rake_balance: other.rake_balance,
            jackpot_balance: other.jackpot_balance,
            settlement_entered_ledger: other.settlement_entered_ledger,
            last_raise_size: other.last_raise_size,
            hand_actions: other.hand_actions,
            ..self
        })
    }
}

impl Hand {
    /// All chips at the table.
    pub open spec fn chips(self) -> int {
        sum_by(self.players, stack_of()) + self.pot + self.rake_balance + self.jackpot_balance
    }

    /// No balance is negative, no player has bet more than they have put into the pot, nobody has
    /// put more into it in a running hand than is there, and all chips together are a number that
    /// a balance can hold.
    pub open spec fn wf(self) -> bool {
        &&& self.players.len() <= u32::MAX
        &&& forall|i: int|
            0 <= i < self.players.len() ==> {
                let p = #[trigger] self.players[i];
                &&& 0 <= p.stack
                &&& 0 <= p.bet_this_round <= p.committed
                &&& !self.phase.between_hands() ==> p.committed <= self.pot
            }
        &&& self.pot >= 0
        &&& self.rake_balance >= 0
        &&& self.jackpot_balance >= 0
        &&& self.chips() <= i128::MAX
    }

    /// What the table takes of the pot.
    pub open spec fn rake(self, rake_bps: u32) -> int {
        self.pot * rake_bps / 10_000
    }

    /// The part of a rake that feeds the jackpot: all of it where the share is the whole or more.
    pub open spec fn jackpot_share(rake: int, share_bps: u32) -> int {
        if share_bps >= 10_000 {
            rake
        } else {
            rake * share_bps / 10_000
        }
    }

    /// The hand with the player at `seat` folded.
    pub open spec fn folded_at(self, seat: int) -> Hand {
        Hand {
            players: self.players.update(
                seat,
                PlayerState { folded: true, ..self.players[seat] },
            ),
            ..self
        }
    }

    /// The hand after the player at `seat` is folded for stalling: the last player standing wins,
    /// or the turn passes on.
    pub open spec fn after_fold(self, seat: int, rake_bps: u32, share_bps: u32, now: u32) -> Hand {
        let h = self.folded_at(seat);
        if count_active(h.players) == 1 {
            h.fold_won(rake_bps, share_bps, now)
        } else {
            Hand {
                current_turn: turn_after(h.players, seat) as u32,
                last_action_ledger: now,
                ..h
            }
        }
    }

    /// The hand after the last player standing has won the pot, less the rake.
    pub open spec fn fold_won(self, rake_bps: u32, share_bps: u32, now: u32) -> Hand {
        let seat = first_active(self.players);
        let p = self.players[seat];
        let rake = self.rake(rake_bps);
        let fed = Hand::jackpot_share(rake, share_bps);
        Hand {
            players: self.players.update(
                seat,
                PlayerState { stack: (p.stack + self.pot - rake) as i128, ..p },
            ),
            pot: 0,
            phase: GamePhase::Settlement,
            rake_balance: self.rake_balance + rake - fed,
            jackpot_balance: self.jackpot_balance + fed,
            settlement_entered_ledger: now,
            ..self
        }
    }
}

/// Changing one player's stack changes the sum of stacks by as much.
pub proof fn lemma_stack_update(players: Seq<PlayerState>, i: int, p: PlayerState)
    requires
        0 <= i < players.len(),
    ensures
        sum_by(players.update(i, p), stack_of()) == sum_by(players, stack_of()) - players[i].stack
            + p.stack,
    decreases players.len(),
{
    let d = players.drop_last();
    let u = players.update(i, p);
    if i == players.len() - 1 {
        assert(u.drop_last() =~= d);
    } else {
        assert(u.drop_last() =~= d.update(i, p));
        lemma_stack_update(d, i, p);
    }
}

/// What a player has put into the pot.
pub open spec fn committed_of() -> spec_fn(PlayerState) -> int {
    |p: PlayerState| p.committed as int
}

/// What the players have put into the pot together.
pub open spec fn committed_total(players: Seq<PlayerState>) -> int {
    sum_by(players, committed_of())
}

/// Changing what one player has put into the pot changes the sum by as much.
pub proof fn lemma_committed_update(players: Seq<PlayerState>, i: int, p: PlayerState)
    requires
        0 <= i < players.len(),
    ensures
        committed_total(players.update(i, p)) == committed_total(players) - players[i].committed
            + p.committed,
    decreases players.len(),
{
    let d = players.drop_last();
    let u = players.update(i, p);
    if i == players.len() - 1 {
        assert(u.drop_last() =~= d);
    } else {
        assert(u.drop_last() =~= d.update(i, p));
        lemma_committed_update(d, i, p);
    }
}

/// Players who have put in the same have put in the same together.
pub proof fn lemma_committed_same(a: Seq<PlayerState>, b: Seq<PlayerState>)
    requires
        a.len() == b.len(),
        forall|i: int| 0 <= i < a.len() ==> (#[trigger] a[i]).committed == b[i].committed,
    ensures
        committed_total(a) == committed_total(b),
    decreases a.len(),
{
    if a.len() > 0 {
        let (c, d) = (a.drop_last(), b.drop_last());
        assert forall|i: int| 0 <= i < c.len() implies (#[trigger] c[i]).committed
            == d[i].committed by {
            assert(c[i] == a[i]);
        }
        lemma_committed_same(c, d);
        assert(a[a.len() - 1].committed == b[b.len() - 1].committed);
    }
}

proof fn lemma_antes_committed(players: Seq<PlayerState>, ante: int)
    requires
        ante >= 0,
        forall|i: int| 0 <= i < players.len() ==> (#[trigger] players[i]).stack >= 0,
    ensures
        committed_total(all_dealt_in(players, ante)) == sum_by(players, antes(ante)),
    decreases players.len(),
{
    if players.len() > 0 {
        let d = players.drop_last();
        assert forall|i: int| 0 <= i < d.len() implies (#[trigger] d[i]).stack >= 0 by {
            assert(d[i] == players[i]);
        }
        lemma_antes_committed(d, ante);
        assert(all_dealt_in(players, ante).drop_last() =~= all_dealt_in(d, ante));
        assert(players[players.len() - 1].stack >= 0);
    } else {
        assert(all_dealt_in(players, ante) =~= Seq::empty());
    }
}

/// The pot of a new hand is what the players have put into it.
pub proof fn new_hand_pot_is_committed(
    players: Seq<PlayerState>,
    dealer: int,
    level: BlindLevel,
    straddle: Option<(int, int)>,
)
    requires
        players.len() >= 2,
        forall|i: int| 0 <= i < players.len() ==> (#[trigger] players[i]).stack >= 0,
        ante_amount(level) >= 0,
        level.small_blind >= 0,
        level.big_blind >= 0,
        straddle matches Some((s, a)) ==> 0 <= s < players.len() && a >= 0,
    ensures
        ({
            let (ps, pot, _) = new_hand(players, dealer, level);
            let (qs, sum) = with_straddle(ps, pot, straddle);
            committed_total(ps) == pot && committed_total(qs) == sum
        }),
{
    let n = players.len() as int;
    let button = (dealer + 1) % n;
    let sb = (button + 1) % n;
    let bb = (button + 2) % n;
    let ante = ante_amount(level);
    let p0 = all_dealt_in(players, ante);
    lemma_antes_committed(players, ante);
    let a = blind_posted(p0[sb], level.small_blind as int);
    let p1 = p0.update(sb, a);
    assert(players[sb].stack >= 0);
    lemma_committed_update(p0, sb, a);
    let b = blind_posted(p1[bb], level.big_blind as int);
    assert(players[bb].stack >= 0);
    lemma_committed_update(p1, bb, b);
    if let Some((s, amount)) = straddle {
        let p2 = p1.update(bb, b);
        assert(players[s].stack >= 0);
        lemma_committed_update(p2, s, straddle_posted(p2[s], amount));
    }
}

/// Stacks that are not negative sum to at least each one.
pub proof fn lemma_stack_bounds(players: Seq<PlayerState>, i: int)
    requires
        forall|j: int| 0 <= j < players.len() ==> (#[trigger] players[j]).stack >= 0,
    ensures
        0 <= sum_by(players, stack_of()),
        0 <= i < players.len() ==> players[i].stack <= sum_by(players, stack_of()),
    decreases players.len(),
{
    if players.len() > 0 {
        let d = players.drop_last();
        assert forall|j: int| 0 <= j < d.len() implies (#[trigger] d[j]).stack >= 0 by {
            assert(d[j] == players[j]);
        }
        lemma_stack_bounds(d, i);
        assert(players[players.len() - 1].stack >= 0);
        if 0 <= i < d.len() {
            assert(d[i] == players[i]);
        }
    }
}

proof fn lemma_first_active(players: Seq<PlayerState>)
    ensures
        0 <= first_active(players) <= players.len(),
        forall|i: int| 0 <= i < first_active(players) ==> (#[trigger] players[i]).folded,
        first_active(players) < players.len() ==> !players[first_active(players)].folded,
        count_active(players) > 0 <==> first_active(players) < players.len(),
        count_active(players) <= players.len(),
    decreases players.len(),
{
    if players.len() > 0 {
        let d = players.drop_last();
        lemma_first_active(d);
        let k = first_active(players);
        assert forall|i: int| 0 <= i < k implies (#[trigger] players[i]).folded by {
            if i < d.len() {
                assert(d[i] == players[i]);
            }
        }
        if k < d.len() {
            assert(d[k] == players[k]);
        }
    }
}

/// The number of players who have not folded.
pub fn active_player_count(table: &TableState) -> (r: u32)
    requires
        table.players@.len() <= u32::MAX,
    ensures
        r == count_active(table.players@),
{
    let mut n: u32 = 0;
    let mut i: usize = 0;
    while i < table.players.len()
        invariant
            i <= table.players@.len() <= u32::MAX,
            n == count_active(table.players@.take(i as int)),
            n <= i,
        decreases table.players@.len() - i,
    {
        assert(table.players@.take(i + 1).drop_last() =~= table.players@.take(i as int));
        if !table.players[i].folded {
            n += 1;
        }
        i += 1;
    }
    assert(table.players@.take(i as int) =~= table.players@);
    n
}

/// The first seat whose player has not folded.
pub fn first_active_seat(table: &TableState) -> (r: usize)
    ensures
        r == first_active(table.players@),
        r <= table.players@.len(),
        r < table.players@.len() <==> count_active(table.players@) > 0,
        r < table.players@.len() ==> !table.players@[r as int].folded,
        forall|j: int| 0 <= j < r ==> (#[trigger] table.players@[j]).folded,
{
    let ghost ps = table.players@;
    proof {
        lemma_first_active(ps);
    }
    let mut i: usize = 0;
    while i < table.players.len()
        invariant
            i <= ps.len(),
            ps == table.players@,
            forall|j: int| 0 <= j < i ==> (#[trigger] ps[j]).folded,
            0 <= first_active(ps) <= ps.len(),
            forall|j: int| 0 <= j < first_active(ps) ==> (#[trigger] ps[j]).folded,
            first_active(ps) < ps.len() ==> !ps[first_active(ps)].folded,
            count_active(ps) > 0 <==> first_active(ps) < ps.len(),
        decreases ps.len() - i,
    {
        if !table.players[i].folded {
            return i;
        }
        i += 1;
    }
    i
}

/// The seat whose turn comes after `seat`.
pub fn seat_after(table: &TableState, seat: usize) -> (r: usize)
    requires
        seat < table.players@.len() <= u32::MAX,
    ensures
        r == turn_after(table.players@, seat as int),
        r < table.players@.len(),
{
    let n: usize = table.players.len();
    let mut next: usize = (seat + 1) % n;
    let mut left: usize = n;
    while left > 0 && !(!table.players[next].folded && !table.players[next].all_in)
        invariant
            n == table.players@.len(),
            0 < n <= u32::MAX,
            next < n,
            left <= n,
            next_turn(table.players@, next as int, left as nat) == turn_after(
                table.players@,
                seat as int,
            ),
        decreases left,
    {
        next = (next + 1) % n;
        left = left - 1;
    }
    next
}

/// What a settled hand took and paid.
#[derive(Clone, Copy, Debug, PartialEq, Eq, Structural)]
pub struct FoldWin {
    /// The seat that won.
    pub seat: u32,
    /// What the winner was paid.
    pub amount: i128,
    /// The pot before the rake.
    pub total_pot: i128,
    pub rake: i128,
}

/// What the last player standing of a hand wins, if there is only one.
pub open spec fn win_of(h: Hand, rake_bps: u32) -> Option<FoldWin> {
    if count_active(h.players) == 1 {
        Some(
            FoldWin {
                seat: first_active(h.players) as u32,
                amount: (h.pot - h.rake(rake_bps)) as i128,
                total_pot: h.pot as i128,
                rake: h.rake(rake_bps) as i128,
            },
        )
    } else {
        None
    }
}

/// The rake of a hand stays within its pot, and the jackpot's share within the rake.
pub proof fn rake_within_pot(pot: int, rake_bps: u32, share_bps: u32)
    requires
        pot >= 0,
        rake_bps <= 10_000,
    ensures
        0 <= pot * rake_bps / 10_000 <= pot,
        ({
            let rake = pot * rake_bps / 10_000;
            0 <= Hand::jackpot_share(rake, share_bps) <= rake
        }),
{
    assert(0 <= pot * rake_bps <= pot * 10_000) by (nonlinear_arith)
        requires
            pot >= 0,
            0 <= rake_bps <= 10_000,
    ;
    share_within_rake(pot * rake_bps / 10_000, share_bps);
}

/// The jackpot's share of a rake stays within it.
pub proof fn share_within_rake(rake: int, share_bps: u32)
    requires
        rake >= 0,
    ensures
        0 <= Hand::jackpot_share(rake, share_bps) <= rake,
{
    if share_bps < 10_000 {
        assert(0 <= rake * share_bps <= rake * 10_000) by (nonlinear_arith)
            requires
                rake >= 0,
                0 <= share_bps <= 10_000,
        ;
    }
}

/// The part of a rake that feeds the jackpot.
pub fn jackpot_share_of(rake: i128, share_bps: u32) -> (r: i128)
    requires
        0 <= rake,
        rake * 10_000 <= i128::MAX,
    ensures
        r == Hand::jackpot_share(rake as int, share_bps),
        0 <= r <= rake,
{
    proof {
        share_within_rake(rake as int, share_bps);
    }
    if share_bps >= 10_000 {
        return rake;
    }
    proof {
        assert(0 <= rake * share_bps <= rake * 10_000) by (nonlinear_arith)
            requires
                rake >= 0,
                0 <= share_bps <= 10_000,
        ;
    }
    (rake * share_bps as i128) / 10_000
}

/// The rake of a table is at most the whole, and its pot can be multiplied by a rate.
pub open spec fn settlement_fits(table: TableState) -> bool {
    &&& table.config.rake_bps <= 10_000
    &&& table.pot * 10_000 <= i128::MAX
}

/// Pays the pot, less the rake, to the one player who has not folded.
pub fn settle_fold_win(table: &mut TableState, now: u32) -> (r: FoldWin)
    requires
        old(table).hand().wf(),
        count_active(old(table).players@) > 0,
        settlement_fits(*old(table)),
    ensures
        final(table).hand() == old(table).hand().fold_won(
            old(table).config.rake_bps,
            old(table).config.jackpot_rake_share_bps,
            now,
        ),
        old(table).same_but_hand(*final(table)),
        final(table).hand().chips() == old(table).hand().chips(),
        final(table).hand().wf(),
        r.seat == first_active(old(table).players@),
        r.total_pot == old(table).pot,
        r.rake == old(table).hand().rake(old(table).config.rake_bps),
        r.amount == r.total_pot - r.rake,
{
    let ghost h = table.hand();
    let pot: i128 = table.pot;
    let bps: i128 = table.config.rake_bps as i128;
    proof {
        rake_within_pot(
            pot as int,
            table.config.rake_bps,
            table.config.jackpot_rake_share_bps,
        );
        assert(0 <= pot * bps <= pot * 10_000) by (nonlinear_arith)
            requires
                pot >= 0,
                0 <= bps <= 10_000,
        ;
    }
    let rake: i128 = (pot * bps) / 10_000;
    let fed: i128 = jackpot_share_of(rake, table.config.jackpot_rake_share_bps);
    let seat: usize = first_active_seat(table);
    let p = table.players[seat];
    proof {
        lemma_stack_bounds(table.players@, seat as int);
    }
    let winner = PlayerState {
        address: p.address,
        stack: p.stack + (pot - rake),
        bet_this_round: p.bet_this_round,
        committed: p.committed,
        folded: p.folded,
        all_in: p.all_in,
        sitting_out: p.sitting_out,
        seat_index: p.seat_index,
        total_buy_in: p.total_buy_in,
        rebuy_count: p.rebuy_count,
    };
    proof {
        lemma_stack_update(table.players@, seat as int, winner);
    }
    table.players.set(seat, winner);
    table.pot = 0;
    table.rake_balance = table.rake_balance + (rake - fed);
    table.jackpot_balance = table.jackpot_balance + fed;
    table.phase = GamePhase::Settlement;
    table.settlement_entered_ledger = now;
    assert(table.hand() =~= h.fold_won(
        table.config.rake_bps,
        table.config.jackpot_rake_share_bps,
        now,
    ));
    FoldWin { seat: seat as u32, amount: pot - rake, total_pot: pot, rake }
}

/// Folds a stalling player. The last player standing wins; otherwise the turn passes on.
pub fn fold_and_advance(table: &mut TableState, seat: usize, now: u32) -> (r: Option<FoldWin>)
    requires
        old(table).hand().wf(),
        seat < old(table).players@.len(),
        win_of(
            old(table).hand().folded_at(seat as int),
            old(table).config.rake_bps,
        ) is Some ==> settlement_fits(*old(table)),
    ensures
        final(table).hand() == old(table).hand().after_fold(
            seat as int,
            old(table).config.rake_bps,
            old(table).config.jackpot_rake_share_bps,
            now,
        ),
        old(table).same_but_hand(*final(table)),
        final(table).hand().chips() == old(table).hand().chips(),
        final(table).hand().wf(),
        r is Some <==> count_active(old(table).hand().folded_at(seat as int).players) == 1,
        r matches Some(w) ==> {
            let h = old(table).hand().folded_at(seat as int);
            w == (FoldWin {
                seat: first_active(h.players) as u32,
                amount: (h.pot - h.rake(old(table).config.rake_bps)) as i128,
                total_pot: h.pot as i128,
                rake: h.rake(old(table).config.rake_bps) as i128,
            })
        },
{
    let ghost h = table.hand();
    let p = table.players[seat];
    let folded = PlayerState {
        address: p.address,
        stack: p.stack,
        bet_this_round: p.bet_this_round,
        committed: p.committed,
        folded: true,
        all_in: p.all_in,
        sitting_out: p.sitting_out,
        seat_index: p.seat_index,
        total_buy_in: p.total_buy_in,
        rebuy_count: p.rebuy_count,
    };
    proof {
        lemma_stack_update(table.players@, seat as int, folded);
    }
    table.players.set(seat, folded);
    assert(table.hand() =~= h.folded_at(seat as int));
    assert(table.hand().wf());
    proof {
        lemma_first_active(table.players@);
    }
    if active_player_count(table) == 1 {
        Some(settle_fold_win(table, now))
    } else {
        let next: usize = seat_after(table, seat);
        table.current_turn = next as u32;
        table.last_action_ledger = now;
        None
    }
}

/// The blind level in force.
pub fn current_blind_level(table: &TableState) -> (r: Result<BlindLevel, PokerTableError>)
    ensures
        r == (if table.current_blind_level < table.config.blinds_schedule.levels@.len() {
            Ok(table.config.blinds_schedule.levels@[table.current_blind_level as int])
        } else {
            Err(PokerTableError::InvalidBlindLevel)
        }),
{
    let i: usize = table.current_blind_level as usize;
    if i < table.config.blinds_schedule.levels.len() {
        Ok(table.config.blinds_schedule.levels[i])
    } else {
        Err(PokerTableError::InvalidBlindLevel)
    }
}

/// The ante of a level.
pub open spec fn ante_amount(level: BlindLevel) -> int {
    match level.ante {
        AnteMode::Fixed(x) => x as int,
        AnteMode::Percentage(p) => level.big_blind * p / 100,
        AnteMode::NoAnte => 0,
    }
}

/// What a player can pay of an amount.
pub open spec fn payable(stack: int, amount: int) -> int {
    if stack < amount {
        stack
    } else {
        amount
    }
}

/// A player dealt into a new hand, with the ante paid. An ante is no bet.
pub open spec fn dealt_in(p: PlayerState, ante: int) -> PlayerState {
    let paid = payable(p.stack as int, ante);
    PlayerState {
        stack: (p.stack - paid) as i128,
        bet_this_round: 0,
        committed: paid as i128,
        folded: false,
        all_in: p.stack < ante,
        ..p
    }
}

/// A player with a blind posted. One who cannot pay it in full is all in.
pub open spec fn blind_posted(p: PlayerState, amount: int) -> PlayerState {
    let paid = payable(p.stack as int, amount);
    PlayerState {
        stack: (p.stack - paid) as i128,
        bet_this_round: paid as i128,
        committed: (p.committed + paid) as i128,
        all_in: p.all_in || p.stack < amount,
        ..p
    }
}

/// The antes that the players pay together.
pub open spec fn antes(ante: int) -> spec_fn(PlayerState) -> int {
    |p: PlayerState| payable(p.stack as int, ante)
}

/// The players dealt into a new hand.
pub open spec fn all_dealt_in(players: Seq<PlayerState>, ante: int) -> Seq<PlayerState> {
    Seq::new(players.len(), |i: int| dealt_in(players[i], ante))
}

/// Whether the next level is due at time `now`: the level and its break are over.
pub open spec fn level_due(level: BlindLevel, started_at: u64, now: u64) -> bool {
    level.duration_seconds > 0 && now >= started_at + level.duration_seconds + level.break_seconds
}

/// The level at which a hand is played that starts at time `now`.
pub open spec fn level_at(levels: Seq<BlindLevel>, current: u32, started_at: u64, now: u64) -> int {
    if current + 1 < levels.len() && level_due(levels[current as int], started_at, now) {
        current + 1
    } else {
        current as int
    }
}

/// Whether a table is in the break after its blind level: the level is over, and the break is
/// not. The last level has no break.
pub open spec fn in_break(t: TableState, now: u64) -> bool {
    let levels = t.config.blinds_schedule.levels@;
    let l = levels[t.current_blind_level as int];
    &&& t.current_blind_level + 1 < levels.len()
    &&& l.duration_seconds > 0
    &&& t.level_started_at + l.duration_seconds <= now
    &&& now < t.level_started_at + l.duration_seconds + l.break_seconds
}

/// Whether a table is in the break after its blind level.
pub fn break_in_progress(t: &TableState, now: u64) -> (r: bool)
    ensures
        r == in_break(*t, now),
{
    let current: usize = t.current_blind_level as usize;
    let len: usize = t.config.blinds_schedule.levels.len();
    if current >= len || current + 1 >= len {
        return false;
    }
    let l: BlindLevel = t.config.blinds_schedule.levels[current];
    if l.duration_seconds == 0 || now < t.level_started_at || now - t.level_started_at
        < l.duration_seconds {
        return false;
    }
    now - t.level_started_at - l.duration_seconds < l.break_seconds
}

/// When the break after a blind level is over; zero where the level has none.
pub open spec fn break_end(levels: Seq<BlindLevel>, k: int, started_at: u64) -> u64 {
    let l = levels[k];
    let ends = started_at + l.duration_seconds + l.break_seconds;
    if k + 1 >= levels.len() || l.duration_seconds == 0 || l.break_seconds == 0 {
        0
    } else if ends > u64::MAX {
        u64::MAX
    } else {
        ends as u64
    }
}

/// The players, the pot and the button of a new hand.
pub open spec fn new_hand(players: Seq<PlayerState>, dealer: int, level: BlindLevel) -> (
    Seq<PlayerState>,
    int,
    int,
) {
    let n = players.len() as int;
    let button = (dealer + 1) % n;
    let sb = (button + 1) % n;
    let bb = (button + 2) % n;
    let ante = ante_amount(level);
    let p0 = all_dealt_in(players, ante);
    let p1 = p0.update(sb, blind_posted(p0[sb], level.small_blind as int));
    let p2 = p1.update(bb, blind_posted(p1[bb], level.big_blind as int));
    let pot = sum_by(players, antes(ante)) + payable(p0[sb].stack as int, level.small_blind as int)
        + payable(p1[bb].stack as int, level.big_blind as int);
    (p2, pot, button)
}

/// A player with a straddle posted on top of what they have bet. One who cannot pay it in full is
/// all in.
pub open spec fn straddle_posted(p: PlayerState, amount: int) -> PlayerState {
    let paid = payable(p.stack as int, amount);
    PlayerState {
        stack: (p.stack - paid) as i128,
        bet_this_round: (p.bet_this_round + paid) as i128,
        committed: (p.committed + paid) as i128,
        all_in: p.all_in || p.stack < amount,
        ..p
    }
}

/// The players and the pot after a straddle, given by its seat and amount, if there is one.
pub open spec fn with_straddle(players: Seq<PlayerState>, pot: int, straddle: Option<(int, int)>) -> (
    Seq<PlayerState>,
    int,
) {
    match straddle {
        Some((seat, amount)) => (
            players.update(seat, straddle_posted(players[seat], amount)),
            pot + payable(players[seat].stack as int, amount),
        ),
        None => (players, pot),
    }
}

/// Whether `t1` is the table `t0` after a hand has started at ledger `now` and time `timestamp`:
/// the blind level has advanced where it was due, the button has moved on, antes, blinds and a
/// straddle are posted, and the committee deals.
pub open spec fn hand_started(
    t0: TableState,
    t1: TableState,
    straddle: Option<(int, int)>,
    now: u32,
    timestamp: u64,
) -> bool {
    let levels = t0.config.blinds_schedule.levels@;
    let k = level_at(levels, t0.current_blind_level, t0.level_started_at, timestamp);
    let (ps, pot, button) = new_hand(t0.players@, t0.dealer_seat as int, levels[k]);
    &&& (t1.players@, t1.pot as int) == with_straddle(ps, pot, straddle)
    &&& t1.board_cards@.len() == 0
    &&& t1.dealt_indices@.len() == 0
    &&& t1.hand_commitments@.len() == 0
    &&& t1.side_pots@.len() == 0
    &&& t1.hand_actions@.len() == 0
    &&& t1 == (TableState {
        players: t1.players,
        pot: t1.pot,
        board_cards: t1.board_cards,
        dealt_indices: t1.dealt_indices,
        hand_commitments: t1.hand_commitments,
        side_pots: t1.side_pots,
        hand_actions: t1.hand_actions,
        dealer_seat: button as u32,
        current_blind_level: k as u32,
        level_started_at: if k == t0.current_blind_level {
            t0.level_started_at
        } else {
            timestamp
        },
        break_ends_at: break_end(
            levels,
            k,
            if k == t0.current_blind_level {
                t0.level_started_at
            } else {
                timestamp
            },
        ),
        hand_number: (t0.hand_number + 1) as u32,
        phase: GamePhase::Dealing,
        rit_state: None,
        last_raise_size: levels[k].big_blind,
        last_action_ledger: now,
        action_deadline: 0,
        ..t0
    })
}

proof fn lemma_dealt_in(players: Seq<PlayerState>, ante: int)
    requires
        ante >= 0,
        forall|i: int| 0 <= i < players.len() ==> (#[trigger] players[i]).stack >= 0,
    ensures
        sum_by(all_dealt_in(players, ante), stack_of()) + sum_by(players, antes(ante)) == sum_by(
            players,
            stack_of(),
        ),
        0 <= sum_by(players, antes(ante)),
        forall|i: int|
            0 <= i < players.len() ==> payable((#[trigger] players[i]).stack as int, ante) <= sum_by(
                players,
                antes(ante),
            ),
    decreases players.len(),
{
    if players.len() > 0 {
        let d = players.drop_last();
        assert forall|i: int| 0 <= i < d.len() implies (#[trigger] d[i]).stack >= 0 by {
            assert(d[i] == players[i]);
        }
        lemma_dealt_in(d, ante);
        assert(all_dealt_in(players, ante).drop_last() =~= all_dealt_in(d, ante));
        assert(players[players.len() - 1].stack >= 0);
        assert forall|i: int| 0 <= i < players.len() implies payable(
            (#[trigger] players[i]).stack as int,
            ante,
        ) <= sum_by(players, antes(ante)) by {
            if i < d.len() {
                assert(d[i] == players[i]);
            }
        }
    } else {
        assert(all_dealt_in(players, ante) =~= players);
    }
}

/// Posts a blind at a seat.
fn post_blind(table: &mut TableState, seat: usize, amount: i128)
    requires
        seat < old(table).players@.len(),
        amount >= 0,
        old(table).players@[seat as int].stack >= 0,
        0 <= old(table).players@[seat as int].committed <= old(table).pot,
        old(table).pot + old(table).players@[seat as int].stack <= i128::MAX,
    ensures
        final(table).players@ == old(table).players@.update(
            seat as int,
            blind_posted(old(table).players@[seat as int], amount as int),
        ),
        final(table).pot == old(table).pot + payable(
            old(table).players@[seat as int].stack as int,
            amount as int,
        ),
        *final(table) == (TableState {
            players: final(table).players,
            pot: final(table).pot,
            ..*old(table)
        }),
{
    let p = table.players[seat];
    let short: bool = p.stack < amount;
    let paid: i128 = if short {
        p.stack
    } else {
        amount
    };
    let next = PlayerState {
        address: p.address,
        stack: p.stack - paid,
        bet_this_round: paid,
        committed: p.committed + paid,
        folded: p.folded,
        all_in: p.all_in || short,
        sitting_out: p.sitting_out,
        seat_index: p.seat_index,
        total_buy_in: p.total_buy_in,
        rebuy_count: p.rebuy_count,
    };
    table.players.set(seat, next);
    table.pot = table.pot + paid;
}

/// Deals all players into a new hand: antes first, then the blinds left of the new button.
#[verifier::rlimit(40)]
fn deal_in(table: &mut TableState, level: BlindLevel, ante: i128)
    requires
        2 <= old(table).players@.len() <= u32::MAX,
        old(table).hand().wf(),
        ante == ante_amount(level),
        ante >= 0,
        level.small_blind >= 0,
        level.big_blind >= 0,
        old(table).pot == 0,
    ensures
        ({
            let (ps, pot, button) = new_hand(
                old(table).players@,
                old(table).dealer_seat as int,
                level,
            );
            &&& final(table).players@ == ps
            &&& final(table).pot == pot
            &&& final(table).dealer_seat == button
            &&& *final(table) == (TableState {
                players: final(table).players,
                pot: final(table).pot,
                dealer_seat: final(table).dealer_seat,
                ..*old(table)
            })
        }),
        sum_by(final(table).players@, stack_of()) + final(table).pot == sum_by(
            old(table).players@,
            stack_of(),
        ),
        forall|i: int|
            0 <= i < final(table).players@.len() ==> {
                let p = #[trigger] final(table).players@[i];
                0 <= p.stack && 0 <= p.bet_this_round <= p.committed <= final(table).pot
            },
{
    let ghost ps = table.players@;
    let ghost h = table.hand();
    let ghost total = sum_by(ps, stack_of());
    let n: usize = table.players.len();
    let mut pot: i128 = 0;
    let mut i: usize = 0;
    proof {
        lemma_dealt_in(ps, ante as int);
        lemma_stack_bounds(ps, 0);
        lemma_stack_bounds(all_dealt_in(ps, ante as int), 0);
    }
    assert(table.players@ =~= all_dealt_in(ps, ante as int).take(0) + ps.skip(0));
    assert(total <= i128::MAX);
    while i < n
        invariant
            i <= n,
            n == ps.len(),
            table.players@.len() == n,
            ante >= 0,
            total == sum_by(ps, stack_of()),
            total <= i128::MAX,
            forall|j: int| 0 <= j < ps.len() ==> (#[trigger] ps[j]).stack >= 0,
            table.players@ == all_dealt_in(ps, ante as int).take(i as int) + ps.skip(i as int),
            pot == sum_by(ps.take(i as int), antes(ante as int)),
            0 <= pot <= sum_by(ps.take(i as int), stack_of()),
            *table == (TableState { players: table.players, ..*old(table) }),
        decreases n - i,
    {
        let p = table.players[i];
        proof {
            assert(p == ps[i as int]);
            assert(ps.take(i + 1).drop_last() =~= ps.take(i as int));
            lemma_stack_prefix(ps, i + 1);
        }
        let short: bool = p.stack < ante;
        let paid: i128 = if short {
            p.stack
        } else {
            ante
        };
        let next = PlayerState {
            address: p.address,
            stack: p.stack - paid,
            bet_this_round: 0,
            committed: paid,
            folded: false,
            all_in: short,
            sitting_out: p.sitting_out,
            seat_index: p.seat_index,
            total_buy_in: p.total_buy_in,
            rebuy_count: p.rebuy_count,
        };
        table.players.set(i, next);
        pot = pot + paid;
        assert(table.players@ =~= all_dealt_in(ps, ante as int).take(i + 1) + ps.skip(i + 1));
        i += 1;
    }
    let ghost p0 = all_dealt_in(ps, ante as int);
    proof {
        assert(ps.take(i as int) =~= ps);
        assert(table.players@ =~= p0);
    }
    table.pot = pot;
    let button: usize = ((table.dealer_seat as u64 + 1) % n as u64) as usize;
    table.dealer_seat = button as u32;
    let sb: usize = ((button as u64 + 1) % n as u64) as usize;
    let bb: usize = ((button as u64 + 2) % n as u64) as usize;
    proof {
        lemma_stack_bounds(p0, sb as int);
        lemma_stack_update(p0, sb as int, blind_posted(p0[sb as int], level.small_blind as int));
    }
    assert(p0[sb as int].committed == payable(ps[sb as int].stack as int, ante as int));
    post_blind(table, sb, level.small_blind);
    let ghost p1 = table.players@;
    proof {
        assert forall|j: int| 0 <= j < p1.len() implies (#[trigger] p1[j]).stack >= 0 by {
            assert(p0[j].stack >= 0);
        }
        lemma_stack_bounds(p1, bb as int);
        lemma_stack_update(p1, bb as int, blind_posted(p1[bb as int], level.big_blind as int));
        assert(p0[bb as int].committed == payable(ps[bb as int].stack as int, ante as int));
        assert(p1[bb as int].committed <= table.pot);
    }
    post_blind(table, bb, level.big_blind);
    assert forall|j: int| 0 <= j < table.players@.len() implies {
        let p = #[trigger] table.players@[j];
        0 <= p.stack && 0 <= p.bet_this_round <= p.committed <= table.pot
    } by {
        assert(p0[j].committed == payable(ps[j].stack as int, ante as int));
        assert(p0[j].committed <= pot);
    }
}

/// The sum of some stacks is at most that of all.
proof fn lemma_stack_prefix(ps: Seq<PlayerState>, i: int)
    requires
        0 <= i <= ps.len(),
        forall|j: int| 0 <= j < ps.len() ==> (#[trigger] ps[j]).stack >= 0,
    ensures
        sum_by(ps.take(i), stack_of()) <= sum_by(ps, stack_of()),
    decreases ps.len(),
{
    if i == ps.len() {
        assert(ps.take(i) =~= ps);
    } else {
        let d = ps.drop_last();
        assert(d.take(i) =~= ps.take(i));
        assert forall|j: int| 0 <= j < d.len() implies (#[trigger] d[j]).stack >= 0 by {
            assert(d[j] == ps[j]);
        }
        lemma_stack_prefix(d, i);
        assert(ps[ps.len() - 1].stack >= 0);
    }
}

/// Starts a new hand at ledger `now` and time `timestamp`: the blind level advances where it is
/// due, the button moves on, antes and blinds are posted, and the committee deals.
#[verifier::rlimit(40)]
pub fn start_new_hand(table: &mut TableState, now: u32, timestamp: u64) -> (r: Result<
    (),
    PokerTableError,
>)
    requires
        old(table).hand().wf(),
        2 <= old(table).players@.len(),
        old(table).pot == 0,
        old(table).hand_number < u32::MAX,
        old(table).config.blinds_schedule.levels@.len() <= u32::MAX,
        forall|i: int|
            0 <= i < old(table).config.blinds_schedule.levels@.len() ==> {
                let l = #[trigger] old(table).config.blinds_schedule.levels@[i];
                &&& 0 <= l.small_blind
                &&& 0 <= l.big_blind
                &&& 0 <= ante_amount(l) <= i128::MAX
                &&& l.ante matches AnteMode::Percentage(p) ==> l.big_blind * p <= i128::MAX
            },
    ensures
        ({
            let t0 = *old(table);
            let t1 = *final(table);
            let levels = t0.config.blinds_schedule.levels@;
            if t0.current_blind_level >= levels.len() {
                r == Err::<(), _>(PokerTableError::InvalidBlindLevel) && t1 == t0
            } else {
                r is Ok && hand_started(t0, t1, None, now, timestamp)
            }
        }),
        r is Ok ==> final(table).hand().chips() == old(table).hand().chips() && final(table).hand().wf(),
{
    let ghost h = table.hand();
    let current: usize = table.current_blind_level as usize;
    let len: usize = table.config.blinds_schedule.levels.len();
    if current >= len {
        return Err(PokerTableError::InvalidBlindLevel);
    }
    let mut level: BlindLevel = table.config.blinds_schedule.levels[current];
    let ends: u64 = table.level_started_at.saturating_add(level.duration_seconds).saturating_add(
        level.break_seconds,
    );
    let exact: bool = match table.level_started_at.checked_add(level.duration_seconds) {
        Some(x) => x.checked_add(level.break_seconds).is_some(),
        None => false,
    };
    if current + 1 < len && level.duration_seconds > 0 && exact && timestamp >= ends {
        level = table.config.blinds_schedule.levels[current + 1];
        table.current_blind_level = table.current_blind_level + 1;
        table.level_started_at = timestamp;
    }
    let ghost k = level_at(
        old(table).config.blinds_schedule.levels@,
        old(table).current_blind_level,
        old(table).level_started_at,
        timestamp,
    );
    assert(level == old(table).config.blinds_schedule.levels@[k]);
    table.break_ends_at = if table.current_blind_level as usize + 1 >= len || level.duration_seconds
        == 0 || level.break_seconds == 0 {
        0
    } else {
        table.level_started_at.saturating_add(level.duration_seconds).saturating_add(
            level.break_seconds,
        )
    };
    let ante: i128 = match level.ante {
        AnteMode::Fixed(x) => x,
        AnteMode::Percentage(p) => {
            assert(level.big_blind * p >= 0) by (nonlinear_arith)
                requires
                    level.big_blind >= 0,
                    p >= 0,
            ;
            (level.big_blind * p as i128) / 100
        },
        AnteMode::NoAnte => 0,
    };
    table.board_cards = Vec::new();
    table.dealt_indices = Vec::new();
    table.hand_commitments = Vec::new();
    table.side_pots = Vec::new();
    table.hand_actions = Vec::new();
    table.rit_state = None;
    table.action_deadline = 0;
    table.hand_number = table.hand_number + 1;
    table.last_action_ledger = now;
    table.last_raise_size = level.big_blind;
    table.phase = GamePhase::Settlement;
    assert(table.hand().wf()) by {
        assert(table.hand().chips() == h.chips());
    }
    deal_in(table, level, ante);
    table.phase = GamePhase::Dealing;
    assert(table.hand().chips() == h.chips());
    Ok(())
}

/// The rake is the configured part of the pot with fractions dropped, and the jackpot's share is
/// the configured part of the rake likewise, or all of it from the whole on.
pub proof fn rake_is_its_part_of_the_pot(h: Hand, rake_bps: u32, rake: int, share_bps: u32)
    ensures
        10_000 * h.rake(rake_bps) <= h.pot * rake_bps < 10_000 * (h.rake(rake_bps) + 1),
        share_bps < 10_000 ==> 10_000 * Hand::jackpot_share(rake, share_bps) <= rake * share_bps
            < 10_000 * (Hand::jackpot_share(rake, share_bps) + 1),
        share_bps >= 10_000 ==> Hand::jackpot_share(rake, share_bps) == rake,
{
}

/// One player is left exactly where one has not folded and all others have.
pub proof fn lemma_one_left(players: Seq<PlayerState>, w: int)
    requires
        0 <= w < players.len(),
        !players[w].folded,
    ensures
        count_active(players) == 1 <==> forall|i: int|
            0 <= i < players.len() && i != w ==> (#[trigger] players[i]).folded,
        count_active(players) >= 1,
        count_active(players) == 1 ==> first_active(players) == w,
    decreases players.len(),
{
    let d = players.drop_last();
    let last = players.len() - 1;
    lemma_first_active(d);
    lemma_first_active(players);
    if w == last {
        if count_active(d) == 0 {
            assert(forall|i: int| 0 <= i < d.len() ==> (#[trigger] d[i]).folded);
            assert forall|i: int| 0 <= i < players.len() && i != w implies (
            #[trigger] players[i]).folded by {
                assert(d[i] == players[i]);
            }
        } else {
            let k = first_active(d);
            assert(!players[k].folded);
        }
    } else {
        assert(d[w] == players[w]);
        lemma_one_left(d, w);
        if forall|i: int| 0 <= i < players.len() && i != w ==> (#[trigger] players[i]).folded {
            assert(players[last].folded);
            assert forall|i: int| 0 <= i < d.len() && i != w implies (#[trigger] d[i]).folded by {
                assert(d[i] == players[i]);
            }
        }
        if count_active(players) == 1 {
            assert(players[last].folded);
            assert forall|i: int| 0 <= i < players.len() && i != w implies (
            #[trigger] players[i]).folded by {
                if i < d.len() {
                    assert(d[i] == players[i]);
                }
            }
        }
    }
}

/// Whether `n` is `h` after the player `w` has won its pot: everything but the rake goes on the
/// winner's stack, the rake is the configured part of the pot with fractions dropped, and a part
/// of it goes to the jackpot. Nobody else's chips move.
pub open spec fn pot_goes_to(
    h: Hand,
    n: Hand,
    w: int,
    rake_bps: u32,
    share_bps: u32,
    now: u32,
) -> bool {
    let rake = n.rake_balance + n.jackpot_balance - h.rake_balance - h.jackpot_balance;
    let fed = n.jackpot_balance - h.jackpot_balance;
    &&& n.phase is Settlement
    &&& n.pot == 0
    &&& n.settlement_entered_ledger == now
    &&& n.players.len() == h.players.len()
    &&& n.players[w].stack == h.players[w].stack + h.pot - rake
    &&& forall|i: int|
        0 <= i < h.players.len() && i != w ==> (#[trigger] n.players[i]).stack
            == h.players[i].stack
    &&& 10_000 * rake <= h.pot * rake_bps < 10_000 * (rake + 1)
    &&& share_bps >= 10_000 ==> fed == rake
    &&& share_bps < 10_000 ==> 10_000 * fed <= rake * share_bps < 10_000 * (fed + 1)
}

/// The last player standing takes the pot less the rake, and nobody else's chips move.
pub proof fn last_player_standing_takes_the_pot(
    h: Hand,
    w: int,
    rake_bps: u32,
    share_bps: u32,
    now: u32,
)
    requires
        h.wf(),
        0 <= w < h.players.len(),
        rake_bps <= 10_000,
        !h.players[w].folded,
        forall|i: int| 0 <= i < h.players.len() && i != w ==> (#[trigger] h.players[i]).folded,
    ensures
        pot_goes_to(h, h.fold_won(rake_bps, share_bps, now), w, rake_bps, share_bps, now),
        win_of(h, rake_bps) matches Some(win) ==> win.seat == w && win.amount + win.rake == h.pot
            && win.total_pot == h.pot && 10_000 * win.rake <= h.pot * rake_bps < 10_000 * (win.rake
            + 1),
        win_of(h, rake_bps) is Some,
{
    lemma_one_left(h.players, w);
    rake_within_pot(h.pot, rake_bps, share_bps);
    rake_is_its_part_of_the_pot(h, rake_bps, h.rake(rake_bps), share_bps);
    lemma_stack_bounds(h.players, w);
}

/// Folding a stalling player folds that player and nobody else. Where one other player is left the
/// pot goes to them; where more are, no chips move, the phase stays, and the turn passes on.
pub proof fn stalling_player_is_folded(
    h: Hand,
    seat: int,
    w: int,
    rake_bps: u32,
    share_bps: u32,
    now: u32,
)
    requires
        h.wf(),
        0 <= seat < h.players.len(),
        0 <= w < h.players.len(),
        w != seat,
        rake_bps <= 10_000,
        !h.players[w].folded,
    ensures
        ({
            let n = h.after_fold(seat, rake_bps, share_bps, now);
            let alone = forall|i: int|
                0 <= i < h.players.len() && i != w && i != seat ==> (
                #[trigger] h.players[i]).folded;
            &&& n.players[seat].folded
            &&& forall|i: int|
                0 <= i < h.players.len() && i != seat ==> (#[trigger] n.players[i]).folded
                    == h.players[i].folded && n.players[i].committed == h.players[i].committed
            &&& alone ==> pot_goes_to(h, n, w, rake_bps, share_bps, now)
            &&& !alone ==> {
                &&& n.pot == h.pot && n.rake_balance == h.rake_balance && n.jackpot_balance
                    == h.jackpot_balance && n.phase == h.phase
                &&& n.last_action_ledger == now
                &&& forall|i: int|
                    0 <= i < h.players.len() ==> (#[trigger] n.players[i]).stack
                        == h.players[i].stack
            }
        }),
{
    let f = h.folded_at(seat);
    let p = f.players[seat];
    lemma_stack_update(h.players, seat, p);
    lemma_one_left(f.players, w);
    let alone = forall|i: int|
        0 <= i < h.players.len() && i != w && i != seat ==> (#[trigger] h.players[i]).folded;
    if alone {
        assert forall|i: int| 0 <= i < f.players.len() && i != w implies (
        #[trigger] f.players[i]).folded by {
            if i != seat {
                assert(h.players[i].folded);
            }
        }
        assert(f.wf());
        last_player_standing_takes_the_pot(f, w, rake_bps, share_bps, now);
        let n = h.after_fold(seat, rake_bps, share_bps, now);
        assert forall|i: int| 0 <= i < h.players.len() && i != w implies (
        #[trigger] n.players[i]).stack == h.players[i].stack by {
            assert(f.players[i].stack == h.players[i].stack);
        }
    } else {
        let i = choose|i: int|
            0 <= i < h.players.len() && i != w && i != seat && !(#[trigger] h.players[i]).folded;
        assert(!f.players[i].folded);
    }
}

/// The seat to the left of `seat` at a table of `n`.
pub open spec fn left_of(n: int, seat: int) -> int {
    if seat + 1 < n {
        seat + 1
    } else {
        0
    }
}

/// How far the turn has to pass from `from` to come to `seat`: one for the next seat, and a whole
/// round for the same.
pub open spec fn steps_to(n: int, from: int, seat: int) -> int {
    if seat > from {
        seat - from
    } else {
        seat + n - from
    }
}

proof fn lemma_first_in_turn(players: Seq<PlayerState>, from: int, seat: int, left: nat, i: int)
    requires
        0 <= from < players.len(),
        0 <= seat < players.len(),
        0 <= i < players.len(),
        steps_to(players.len() as int, from, seat) + left == players.len() + 1,
        !players[i].folded && !players[i].all_in,
        steps_to(players.len() as int, from, i) >= steps_to(players.len() as int, from, seat),
    ensures
        ({
            let t = next_turn(players, seat, left);
            &&& 0 <= t < players.len()
            &&& !players[t].folded && !players[t].all_in
            &&& steps_to(players.len() as int, from, t) <= steps_to(players.len() as int, from, i)
        }),
    decreases left,
{
    let n = players.len() as int;
    if left > 0 && !can_act(players[seat]) {
        assert(i != seat);
        let next = (seat + 1) % n;
        assert(next == if seat + 1 == n {
            0
        } else {
            seat + 1
        }) by (nonlinear_arith)
            requires
                next == (seat + 1) % n,
                0 <= seat < n,
        ;
        assert(steps_to(n, from, next) == steps_to(n, from, seat) + 1);
        lemma_first_in_turn(players, from, next, (left - 1) as nat, i);
    }
}

/// The turn passes to the left, to the first player who has neither folded nor is all in: of all
/// those who can act none sits nearer.
pub proof fn turn_passes_to_the_nearest(players: Seq<PlayerState>, from: int, i: int)
    requires
        0 <= from < players.len(),
        0 <= i < players.len(),
        !players[i].folded && !players[i].all_in,
    ensures
        ({
            let t = turn_after(players, from);
            &&& 0 <= t < players.len()
            &&& !players[t].folded && !players[t].all_in
            &&& steps_to(players.len() as int, from, t) <= steps_to(players.len() as int, from, i)
        }),
{
    let n = players.len() as int;
    let next = (from + 1) % n;
    assert(next == if from + 1 == n {
        0
    } else {
        from + 1
    }) by (nonlinear_arith)
        requires
            next == (from + 1) % n,
            0 <= from < n,
    ;
    lemma_first_in_turn(players, from, next, players.len(), i);
}

/// An ante is the fixed amount, or the percentage of the big blind with fractions dropped, or
/// nothing.
pub proof fn antes_follow_their_mode(level: BlindLevel)
    ensures
        level.ante matches AnteMode::Fixed(x) ==> ante_amount(level) == x,
        level.ante matches AnteMode::Percentage(p) ==> 100 * ante_amount(level) <= level.big_blind
            * p < 100 * (ante_amount(level) + 1),
        level.ante is NoAnte ==> ante_amount(level) == 0,
{
}

/// A new hand moves the button one seat to the left. The next seat owes the small blind and the one
/// after it the big blind, on top of the ante that everyone owes. Each player pays what they owe,
/// or all they have, in which case they are all in; only a blind is a bet. Nobody is folded.
pub proof fn blinds_are_left_of_the_button(
    players: Seq<PlayerState>,
    dealer: int,
    level: BlindLevel,
    i: int,
)
    requires
        players.len() >= 2,
        0 <= dealer < players.len(),
        0 <= i < players.len(),
        forall|j: int| 0 <= j < players.len() ==> (#[trigger] players[j]).stack >= 0,
        0 <= ante_amount(level),
        0 <= level.small_blind,
        0 <= level.big_blind,
    ensures
        ({
            let n = players.len() as int;
            let (ps, pot, button) = new_hand(players, dealer, level);
            let blind = if steps_to(n, button, i) == 1 {
                level.small_blind as int
            } else if steps_to(n, button, i) == 2 {
                level.big_blind as int
            } else {
                0
            };
            let owed = ante_amount(level) + blind;
            let p = players[i];
            let q = ps[i];
            &&& ps.len() == players.len()
            &&& 0 <= button < n && steps_to(n, dealer, button) == 1
            &&& q.committed == if p.stack < owed {
                p.stack as int
            } else {
                owed
            }
            &&& q.stack == p.stack - q.committed
            &&& q.bet_this_round == if q.committed <= ante_amount(level) {
                0
            } else {
                q.committed - ante_amount(level)
            }
            &&& q.all_in <==> p.stack < owed
            &&& !q.folded
            &&& q.address == p.address && q.seat_index == p.seat_index && q.sitting_out
                == p.sitting_out && q.total_buy_in == p.total_buy_in && q.rebuy_count
                == p.rebuy_count
        }),
{
    let n = players.len() as int;
    let button = (dealer + 1) % n;
    let sb = (button + 1) % n;
    let bb = (button + 2) % n;
    assert(button == if dealer + 1 == n {
        0
    } else {
        dealer + 1
    }) by (nonlinear_arith)
        requires
            button == (dealer + 1) % n,
            0 <= dealer < n,
    ;
    assert(sb == if button + 1 == n {
        0
    } else {
        button + 1
    }) by (nonlinear_arith)
        requires
            sb == (button + 1) % n,
            0 <= button < n,
    ;
    assert(bb == if button + 2 >= n {
        button + 2 - n
    } else {
        button + 2
    }) by (nonlinear_arith)
        requires
            bb == (button + 2) % n,
            0 <= button < n,
            n >= 2,
    ;
    assert(players[i].stack >= 0);
}

/// A straddle is paid by its seat on top of what it has bet, in full or with all that is left, into
/// the pot; nobody else pays.
pub proof fn straddle_is_paid_by_its_seat(
    players: Seq<PlayerState>,
    pot: int,
    seat: int,
    amount: int,
)
    requires
        0 <= seat < players.len(),
        0 <= amount,
        0 <= players[seat].stack,
        0 <= players[seat].bet_this_round <= players[seat].committed,
        players[seat].committed + players[seat].stack <= i128::MAX,
    ensures
        ({
            let (ps, sum) = with_straddle(players, pot, Some((seat, amount)));
            let paid = sum - pot;
            let (p, q) = (players[seat], ps[seat]);
            &&& paid == amount || (paid == p.stack && p.stack < amount)
            &&& q.stack == p.stack - paid
            &&& q.bet_this_round == p.bet_this_round + paid
            &&& q.committed == p.committed + paid
            &&& q.folded == p.folded
            &&& ps.len() == players.len()
            &&& forall|i: int|
                0 <= i < players.len() && i != seat ==> #[trigger] ps[i] == players[i]
        }),
        with_straddle(players, pot, None) == (players, pot),
{
}

/// The blind level rises by one at a time, when the level and the break after it are over, and
/// never past the last. A level without a duration is kept.
pub proof fn levels_rise_one_at_a_time(
    levels: Seq<BlindLevel>,
    current: u32,
    started_at: u64,
    now: u64,
    later: u64,
)
    requires
        current < levels.len(),
        now <= later,
    ensures
        ({
            let k = level_at(levels, current, started_at, now);
            let l = levels[current as int];
            &&& k == current || k == current + 1
            &&& k < levels.len()
            &&& k <= level_at(levels, current, started_at, later)
            &&& now < started_at + l.duration_seconds + l.break_seconds ==> k == current
            &&& l.duration_seconds == 0 ==> k == current
            &&& current + 1 < levels.len() && l.duration_seconds > 0 && now >= started_at
                + l.duration_seconds + l.break_seconds ==> k == current + 1
        }),
{
}

/// The break comes between the end of a level and the start of the next: while it lasts the level
/// is over and the next one is not due yet.
pub proof fn breaks_come_between_levels(t: TableState, now: u64)
    requires
        in_break(t, now),
    ensures
        t.current_blind_level + 1 < t.config.blinds_schedule.levels@.len(),
        ({
            let l = t.config.blinds_schedule.levels@[t.current_blind_level as int];
            &&& l.duration_seconds > 0 && l.break_seconds > 0
            &&& t.level_started_at + l.duration_seconds <= now < t.level_started_at
                + l.duration_seconds + l.break_seconds
        }),
        level_at(
            t.config.blinds_schedule.levels@,
            t.current_blind_level,
            t.level_started_at,
            now,
        ) == t.current_blind_level,
        now < break_end(
            t.config.blinds_schedule.levels@,
            t.current_blind_level as int,
            t.level_started_at,
        ) || now == u64::MAX,
{
}

/// A hand starts with the next number, no cards, no side pots and no history of its own, the big
/// blind as the least raise and the committee dealing. The accounts of the table, its settings and
/// its administrators stay.
pub proof fn hands_start_afresh(
    t0: TableState,
    t1: TableState,
    straddle: Option<(int, int)>,
    now: u32,
    timestamp: u64,
)
    requires
        hand_started(t0, t1, straddle, now, timestamp),
        t0.hand_number < u32::MAX,
        t0.current_blind_level < t0.config.blinds_schedule.levels@.len() <= u32::MAX,
    ensures
        t1.hand_number == t0.hand_number + 1,
        t1.phase is Dealing,
        t1.board_cards@.len() == 0 && t1.dealt_indices@.len() == 0 && t1.hand_commitments@.len()
            == 0 && t1.side_pots@.len() == 0 && t1.hand_actions@.len() == 0,
        t1.rit_state is None,
        t1.action_deadline == 0,
        t1.last_action_ledger == now,
        t1.current_blind_level == t0.current_blind_level || t1.current_blind_level
            == t0.current_blind_level + 1,
        t1.current_blind_level == t0.current_blind_level ==> t1.level_started_at
            == t0.level_started_at,
        t1.current_blind_level != t0.current_blind_level ==> t1.level_started_at == timestamp,
        t1.current_blind_level < t1.config.blinds_schedule.levels@.len(),
        t1.last_raise_size
            == t1.config.blinds_schedule.levels@[t1.current_blind_level as int].big_blind,
        t1.rake_balance == t0.rake_balance && t1.jackpot_balance == t0.jackpot_balance,
        t1.config == t0.config && t1.admin == t0.admin && t1.id == t0.id,
{
}

} // verus!
