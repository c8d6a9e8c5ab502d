//! What happens between the bets of a hand: board cards, timeouts, time reserves, committed
//! actions and the showdown.

use super::play::{
    lemma_first_active_bounds, lemma_played, lemma_table_changed, same_seats,
};
use super::{board_wf, table_wf, CommitKey, ContractView, PokerTableContract};
use crate::host::{
    address_digest, address_eq, bytes32_at, keccak_digest, read_bytes32, Address, Bytes32,
};
use crate::poker_table::bad_beat::{bad_beat_is_paid, bad_beat_threshold};
use crate::poker_table::betting::play_fits;
use crate::poker_table::commit_reveal::{
    amount_matches, compute_action_hash, preimage, says_amount,
};
use crate::poker_table::dealing::{board_revealed, reveal_refusal, take_reveal};
use crate::poker_table::game::{
    can_act, committed_total, lemma_committed_same, settlement_fits, win_of, FoldWin, Hand,
};
use crate::poker_table::history::record_of;
use crate::poker_table::run_it_twice::{
    choice_refusal, choose_run_it_twice, chosen, offer_refusal, offered, open_choice, RitChoice,
};
use crate::poker_table::seating::{find_matches, first_mark, first_marked, level_valid, matches_of};
use crate::poker_table::settlement::{lemma_payout_seats, payouts_of, rake_above, Settled};
use crate::poker_table::showdown::{
    field_u32, named_by, showdown_accepted, showdown_refusal, showdown_settled, take_showdown,
    ShowdownResult,
};
use crate::poker_table::time_bank::{
    deadline_base, extension_ledgers, find_seat_number, seat_by_digest, should_enforce_timeout,
    SeatKey,
};
use crate::poker_table::timeout::{force_fold_at, outcome_of, process_timeout, TimeoutOutcome};
use crate::poker_table::types::{
    turns_fit, Action, ActionRecord, GamePhase, PokerTableError, TableState,
};
use soroban_sdk::Env;
use vstd::prelude::*;

verus! {

impl ContractView {
    /// Why a reveal is refused, if it is.
    pub open spec fn reveal_refused(
        self,
        table_id: u32,
        by_committee: bool,
        cards: int,
        indices: int,
        proof_valid: bool,
    ) -> Option<PokerTableError> {
        if self.closed_to_play(table_id) is Some {
            self.closed_to_play(table_id)
        } else {
            reveal_refusal(self.tables[table_id], by_committee, cards, indices, proof_valid)
        }
    }

    /// Why a showdown is refused, if it is.
    pub open spec fn showdown_refused(
        self,
        table_id: u32,
        by_committee: bool,
        hole_cards: Seq<(u32, u32)>,
        public_inputs: Seq<u8>,
        proof_valid: bool,
    ) -> Option<PokerTableError> {
        if self.closed_to_play(table_id) is Some {
            self.closed_to_play(table_id)
        } else {
            showdown_refusal(
                self.tables[table_id],
                by_committee,
                hole_cards,
                public_inputs,
                proof_valid,
            )
        }
    }

    /// Whether `n` is the state after a showdown that `o` sums up: the first of two runs, or the
    /// settlement of the hand.
    pub open spec fn shown(
        self,
        n: ContractView,
        table_id: u32,
        public_inputs: Seq<u8>,
        scores: Seq<(u32, u32)>,
        o: ShowdownResult,
        now: u32,
    ) -> bool {
        let t = self.tables[table_id];
        let u = n.tables[table_id];
        &&& o.phase == t.phase
        &&& o.winner_index == field_u32(public_inputs, 25)
        &&& o.tie_mask == field_u32(public_inputs, 26)
        &&& if t.phase is ShowdownRun1 {
            &&& showdown_accepted(t, u, o.winner_index, now)
            &&& n == self.with_table(table_id, u)
        } else {
            &&& showdown_settled(t, u, o.winner_index, o.tie_mask, scores, now)
            &&& n == (ContractView {
                history: self.history.archived(
                    table_id,
                    record_of(
                        u,
                        payouts_of(
                            t.hand(),
                            named_by(t, o.winner_index, o.tie_mask),
                            t.config.rake_bps,
                        ),
                        t.pot,
                        rake_above(t.players@, t.pot as int, t.config.rake_bps, -1) as i128,
                        true,
                        now,
                    ),
                ),
                ..self.with_table(table_id, u)
            })
        }
    }

    /// Why an offer to run the board twice is refused, if it is.
    pub open spec fn offer_refused(self, table_id: u32, seat: int) -> Option<PokerTableError> {
        if self.closed_to_play(table_id) is Some {
            self.closed_to_play(table_id)
        } else {
            offer_refusal(self.tables[table_id], seat)
        }
    }

    /// Why a choice for or against two runs is refused, if it is.
    pub open spec fn choice_refused(self, table_id: u32, seat: int) -> Option<PokerTableError> {
        if self.closed_to_play(table_id) is Some {
            self.closed_to_play(table_id)
        } else {
            choice_refusal(self.tables[table_id], seat)
        }
    }

    /// The hand after a timeout at ledger `now`, or why there is none.
    pub open spec fn timeout_result(self, table_id: u32, now: u32) -> Result<Hand, PokerTableError> {
        let t = self.tables[table_id];
        if self.closed_to_play(table_id) is Some {
            Err(self.closed_to_play(table_id)->0)
        } else {
            t.hand().timed_out(
                t.board_cards@.len() as int,
                t.config.rake_bps,
                t.config.jackpot_rake_share_bps,
                t.config.timeout_ledgers,
                self.banks.rescue_left(t, now),
                now,
            )
        }
    }

    /// Why a forced fold is refused, if it is.
    pub open spec fn force_fold_refused(
        self,
        table_id: u32,
        caller_seat: Option<u32>,
        target_seat: u32,
        now: u32,
    ) -> Option<PokerTableError> {
        if self.closed_to_play(table_id) is Some {
            self.closed_to_play(table_id)
        } else {
            self.tables[table_id].hand().force_fold_refusal(caller_seat, target_seat, now)
        }
    }

    /// Why a player cannot extend their time, if they cannot.
    pub open spec fn extension_refused(
        self,
        table_id: u32,
        player: Address,
        seat: Option<u32>,
        now: u32,
    ) -> Option<PokerTableError> {
        if self.closed_to_play(table_id) is Some {
            self.closed_to_play(table_id)
        } else {
            self.banks.extension_refusal(self.tables[table_id], player, seat, now)
        }
    }

    /// Where the commitment of a seat to its action is kept.
    pub open spec fn commit_key(self, table_id: u32, seat: u32) -> CommitKey {
        CommitKey { table_id, hand_number: self.tables[table_id].hand_number, seat }
    }

    /// Why a commitment is refused, if it is. `seat` is the seat number of the player.
    pub open spec fn commitment_refusal(
        self,
        table_id: u32,
        seat: Option<u32>,
        hash_len: int,
        nonce_len: int,
    ) -> Option<PokerTableError> {
        if self.paused_at(table_id) {
            Some(PokerTableError::ContractPaused)
        } else if hash_len != 32 || nonce_len != 32 {
            Some(PokerTableError::InvalidAction)
        } else if !self.tables.contains_key(table_id) {
            Some(PokerTableError::TableNotFound)
        } else if !self.tables[table_id].phase.betting() {
            Some(PokerTableError::NotInBettingPhase)
        } else if seat is None {
            Some(PokerTableError::PlayerNotAtTable)
        } else if self.commitments.contains_key(self.commit_key(table_id, seat->0)) {
            Some(PokerTableError::ActionAlreadyCommitted)
        } else {
            None
        }
    }

    /// Whether the player at `seat` has committed to an action, or has acted on this street.
    pub open spec fn ready(self, table_id: u32, seat: int) -> bool {
        let t = self.tables[table_id];
        self.commitments.contains_key(self.commit_key(table_id, seat as u32)) || acted_on_street(
            t.hand_actions@,
            t.phase,
            seat as u32,
        )
    }

    /// Whether everybody who can act has committed to an action, or has acted on this street.
    pub open spec fn commits_collected(self, table_id: u32) -> bool {
        let ps = self.tables[table_id].players@;
        forall|i: int| 0 <= i < ps.len() && can_act(#[trigger] ps[i]) ==> self.ready(table_id, i)
    }

    /// Why the reveal of a committed action is refused, if it is. `seat` is the seat number of the
    /// player and `hash` the commitment that the revealed values give.
    pub open spec fn action_reveal_refusal(
        self,
        table_id: u32,
        player: Address,
        seat: Option<u32>,
        seq: u32,
        action: Action,
        amount: i128,
        hash: Bytes32,
    ) -> Option<PokerTableError> {
        let t = self.tables[table_id];
        if self.closed_to_play(table_id) is Some {
            self.closed_to_play(table_id)
        } else if !t.phase.betting() {
            Some(PokerTableError::NotInBettingPhase)
        } else if seat is None {
            Some(PokerTableError::PlayerNotAtTable)
        } else if !self.commitments.contains_key(self.commit_key(table_id, seat->0)) {
            Some(PokerTableError::ActionCommitmentNotFound)
        } else if self.commitments[self.commit_key(table_id, seat->0)] != hash || !says_amount(
            action,
            amount,
        ) {
            Some(PokerTableError::InvalidActionReveal)
        } else if !self.commits_collected(table_id) {
            Some(PokerTableError::ActionCommitmentNotFound)
        } else if !self.seq_due(table_id, player, seq) {
            Some(PokerTableError::StaleActionSequence)
        } else {
            match self.action_outcome(table_id, seat, action) {
                Err(e) => Some(e),
                Ok(_) => None,
            }
        }
    }
}

/// Whether an action of a seat on a street is on record.
pub open spec fn acted_on_street(actions: Seq<ActionRecord>, phase: GamePhase, seat: u32) -> bool {
    exists|i: int|
        0 <= i < actions.len() && (#[trigger] actions[i]).seat == seat && actions[i].phase == phase
}

fn has_acted(t: &TableState, seat: u32) -> (r: bool)
    ensures
        r == acted_on_street(t.hand_actions@, t.phase, seat),
{
    let mut i: usize = 0;
    while i < t.hand_actions.len()
        invariant
            i <= t.hand_actions@.len(),
            forall|j: int|
                0 <= j < i ==> !((#[trigger] t.hand_actions@[j]).seat == seat
                    && t.hand_actions@[j].phase == t.phase),
        decreases t.hand_actions@.len() - i,
    {
        if t.hand_actions[i].seat == seat && t.hand_actions[i].phase == t.phase {
            assert(t.hand_actions@[i as int].seat == seat);
            return true;
        }
        i += 1;
    }
    false
}

/// No action is revealed while a player who can act has neither committed to one nor acted on the
/// street.
pub proof fn reveals_wait_for_commits(
    st: ContractView,
    table_id: u32,
    player: Address,
    seat: Option<u32>,
    seq: u32,
    action: Action,
    amount: i128,
    hash: Bytes32,
    waiting: int,
)
    requires
        st.tables.contains_key(table_id),
        0 <= waiting < st.tables[table_id].players@.len(),
        can_act(st.tables[table_id].players@[waiting]),
        !st.ready(table_id, waiting),
    ensures
        st.action_reveal_refusal(table_id, player, seat, seq, action, amount, hash) is Some,
{
}

/// A timeout moves no player to another seat and leaves no pot between hands.
proof fn lemma_timeout_seats(
    h: Hand,
    board: int,
    rake_bps: u32,
    share_bps: u32,
    timeout_ledgers: u32,
    rescue: bool,
    now: u32,
)
    requires
        h.timed_out(board, rake_bps, share_bps, timeout_ledgers, rescue, now) is Ok,
        h.players.len() >= 2,
        h.pot == committed_total(h.players),
    ensures
        ({
            let n = h.timed_out(
                board,
                rake_bps,
                share_bps,
                timeout_ledgers,
                rescue,
                now,
            )->Ok_0;
            &&& same_seats(h.players, n.players)
            &&& n.phase.between_hands() ==> n.pot == 0
            &&& !n.phase.between_hands() ==> n.pot == committed_total(n.players)
            &&& n.last_raise_size == h.last_raise_size
        }),
{
    lemma_first_active_bounds(h.players);
    if h.phase.betting() {
        let f = h.folded_at(h.current_turn as int);
        lemma_first_active_bounds(f.players);
        assert(same_seats(h.players, f.players));
        lemma_committed_same(h.players, f.players);
    }
}

/// A forced fold moves no player to another seat and leaves no pot between hands.
proof fn lemma_forced_seats(
    h: Hand,
    seat: int,
    rake_bps: u32,
    share_bps: u32,
    timeout_ledgers: u32,
    now: u32,
)
    requires
        h.phase.betting(),
        0 <= seat < h.players.len(),
        h.pot == committed_total(h.players),
    ensures
        ({
            let n = h.force_folded(seat, rake_bps, share_bps, timeout_ledgers, now);
            &&& same_seats(h.players, n.players)
            &&& n.phase.between_hands() ==> n.pot == 0
            &&& !n.phase.between_hands() ==> n.pot == committed_total(n.players)
            &&& n.last_raise_size == h.last_raise_size
        }),
{
    let f = h.folded_at(seat);
    lemma_first_active_bounds(f.players);
    assert(same_seats(h.players, f.players));
    lemma_committed_same(h.players, f.players);
}

impl PokerTableContract {
    /// Offers two runs of the board in the name of a player, at ledger `now`. Both players who are
    /// left then choose.
    pub fn offer_run_it_twice(&mut self, env: &Env, table_id: u32, player: &Address, now: u32) -> (r:
        Result<(), PokerTableError>)
        requires
            old(self)@.wf(),
        ensures
            ({
                let t = old(self)@.tables[table_id];
                let u = final(self)@.tables[table_id];
                let seat = first_mark(matches_of(t.players@, *player));
                match old(self)@.offer_refused(table_id, seat) {
                    Some(e) => r == Err::<(), _>(e) && final(self)@ == old(self)@,
                    None => r is Ok && offered(t, u, now) && final(self)@ == old(self)@.with_table(table_id, u),
                }
            }),
            final(self)@.wf(),
    {
        match self.open_to_play(table_id) {
            Ok(t) => {
                let marks = find_matches(env, &t.players, player);
                let seat: usize = first_marked(&marks);
                self.offer_run_it_twice_as(table_id, seat, now)
            },
            Err(e) => Err(e),
        }
    }

    /// The same, where the place of the player at the table is known; one past the last stands
    /// for a player who is not there.
    pub fn offer_run_it_twice_as(&mut self, table_id: u32, seat: usize, now: u32) -> (r: Result<
        (),
        PokerTableError,
    >)
        requires
            old(self)@.wf(),
        ensures
            ({
                let t = old(self)@.tables[table_id];
                let u = final(self)@.tables[table_id];
                match old(self)@.offer_refused(table_id, seat as int) {
                    Some(e) => r == Err::<(), _>(e) && final(self)@ == old(self)@,
                    None => r is Ok && offered(t, u, now) && final(self)@ == old(self)@.with_table(table_id, u),
                }
            }),
            final(self)@.wf(),
    {
        let ghost st = self@;
        match self.open_to_play(table_id) {
            Ok(t) => {
                if t.phase != GamePhase::DealingFlop && t.phase != GamePhase::DealingTurn && t.phase
                    != GamePhase::DealingRiver {
                    return Err(PokerTableError::NotInRitPhase);
                }
            },
            Err(e) => {
                return Err(e);
            },
        }
        let ghost t = st.tables[table_id];
        let mut table = self.take_table(table_id);
        let result = open_choice(&mut table, seat, now);
        let ghost u = table;
        self.put_table(table_id, table);
        proof {
            assert(self@.tables =~= st.tables.insert(table_id, u));
            if result is Err {
                assert(self@ =~= st);
            } else {
                assert(u.hand().chips() == t.hand().chips());
                assert(u.hand().wf());
                assert(table_wf(u));
                lemma_table_changed(st, self@, table_id, u);
                assert(self@ =~= st.with_table(table_id, u));
            }
        }
        result
    }

    /// Takes a player's choice for or against two runs of the board, at ledger `now`.
    pub fn rit_opt_in(&mut self, env: &Env, table_id: u32, player: &Address, opt_in: bool, now: u32) -> (r:
        Result<RitChoice, PokerTableError>)
        requires
            old(self)@.wf(),
        ensures
            ({
                let t = old(self)@.tables[table_id];
                let u = final(self)@.tables[table_id];
                let seat = first_mark(matches_of(t.players@, *player));
                match old(self)@.choice_refused(table_id, seat) {
                    Some(e) => r == Err::<RitChoice, _>(e) && final(self)@ == old(self)@,
                    None => {
                        &&& chosen(t, u, seat, opt_in, now)
                        &&& r == Ok::<_, PokerTableError>(
                            if !opt_in {
                                RitChoice::Declined
                            } else if (u.rit_state->0).active {
                                RitChoice::Activated
                            } else {
                                RitChoice::OptedIn
                            },
                        )
                        &&& final(self)@ == old(self)@.with_table(table_id, u)
                    },
                }
            }),
            final(self)@.wf(),
    {
        match self.open_to_play(table_id) {
            Ok(t) => {
                let marks = find_matches(env, &t.players, player);
                let seat: usize = first_marked(&marks);
                self.rit_opt_in_as(table_id, seat, opt_in, now)
            },
            Err(e) => Err(e),
        }
    }

    /// The same, where the place of the player at the table is known; one past the last stands
    /// for a player who is not there.
    pub fn rit_opt_in_as(&mut self, table_id: u32, seat: usize, opt_in: bool, now: u32) -> (r: Result<
        RitChoice,
        PokerTableError,
    >)
        requires
            old(self)@.wf(),
        ensures
            ({
                let t = old(self)@.tables[table_id];
                let u = final(self)@.tables[table_id];
                match old(self)@.choice_refused(table_id, seat as int) {
                    Some(e) => r == Err::<RitChoice, _>(e) && final(self)@ == old(self)@,
                    None => {
                        &&& chosen(t, u, seat as int, opt_in, now)
                        &&& r == Ok::<_, PokerTableError>(
                            if !opt_in {
                                RitChoice::Declined
                            } else if (u.rit_state->0).active {
                                RitChoice::Activated
                            } else {
                                RitChoice::OptedIn
                            },
                        )
                        &&& final(self)@ == old(self)@.with_table(table_id, u)
                    },
                }
            }),
            final(self)@.wf(),
    {
        let ghost st = self@;
        match self.open_to_play(table_id) {
            Ok(_) => {},
            Err(e) => {
                return Err(e);
            },
        }
        let ghost t = st.tables[table_id];
        let mut table = self.take_table(table_id);
        let result = choose_run_it_twice(&mut table, seat, opt_in, now);
        let ghost u = table;
        self.put_table(table_id, table);
        proof {
            assert(self@.tables =~= st.tables.insert(table_id, u));
            if result is Err {
                assert(self@ =~= st);
            } else {
                assert(u.hand().chips() == t.hand().chips());
                assert(u.hand().wf());
                assert(table_wf(u));
                lemma_table_changed(st, self@, table_id, u);
                assert(self@ =~= st.with_table(table_id, u));
            }
        }
        result
    }

    /// Takes the board cards of the committee at ledger `now`. `proof_valid` is the answer of the
    /// verifier.
    pub fn reveal_board(
        &mut self,
        env: &Env,
        table_id: u32,
        committee: &Address,
        cards: &Vec<u32>,
        indices: &Vec<u32>,
        proof_valid: bool,
        now: u32,
    ) -> (r: Result<(), PokerTableError>)
        requires
            old(self)@.wf(),
            old(self)@.tables.contains_key(table_id) ==> turns_fit(old(self)@.tables[table_id].config, now),
        ensures
            ({
                let t = old(self)@.tables[table_id];
                let u = final(self)@.tables[table_id];
                match old(self)@.reveal_refused(
                    table_id,
                    address_digest(*committee) == address_digest(t.committee),
                    cards@.len() as int,
                    indices@.len() as int,
                    proof_valid,
                ) {
                    Some(e) => r == Err::<(), _>(e) && final(self)@ == old(self)@,
                    None => {
                        &&& r is Ok
                        &&& board_revealed(t, u, cards@, indices@, now)
                        &&& final(self)@ == old(self)@.with_table(table_id, u)
                        &&& final(self)@.funds(table_id) == old(self)@.funds(table_id)
                    },
                }
            }),
            final(self)@.wf(),
            r is Ok ==> proof_valid && address_digest(*committee) == address_digest(
                old(self)@.tables[table_id].committee,
            ),
    {
        let by_committee: bool = match self.open_to_play(table_id) {
            Ok(t) => address_eq(env, committee, &t.committee),
            Err(e) => {
                return Err(e);
            },
        };
        self.reveal_board_as(table_id, by_committee, cards, indices, proof_valid, now)
    }

    /// The same, where it is known whether the caller is the committee of the table.
    pub fn reveal_board_as(
        &mut self,
        table_id: u32,
        by_committee: bool,
        cards: &Vec<u32>,
        indices: &Vec<u32>,
        proof_valid: bool,
        now: u32,
    ) -> (r: Result<(), PokerTableError>)
        requires
            old(self)@.wf(),
            old(self)@.tables.contains_key(table_id) ==> turns_fit(old(self)@.tables[table_id].config, now),
        ensures
            ({
                let t = old(self)@.tables[table_id];
                let u = final(self)@.tables[table_id];
                match old(self)@.reveal_refused(
                    table_id,
                    by_committee,
                    cards@.len() as int,
                    indices@.len() as int,
                    proof_valid,
                ) {
                    Some(e) => r == Err::<(), _>(e) && final(self)@ == old(self)@,
                    None => {
                        &&& r is Ok
                        &&& board_revealed(t, u, cards@, indices@, now)
                        &&& final(self)@ == old(self)@.with_table(table_id, u)
                        &&& final(self)@.funds(table_id) == old(self)@.funds(table_id)
                    },
                }
            }),
            final(self)@.wf(),
    {
        let ghost st = self@;
        match self.open_to_play(table_id) {
            Ok(t) => {
                if t.players.len() < 2 {
                    assert(t.phase.between_hands());
                    if !by_committee {
                        return Err(PokerTableError::NotAuthorizedCommittee);
                    }
                    return Err(PokerTableError::NotInRevealPhase);
                }
            },
            Err(e) => {
                return Err(e);
            },
        }
        let ghost t = st.tables[table_id];
        let mut table = self.take_table(table_id);
        let result = take_reveal(&mut table, by_committee, cards, indices, proof_valid, now);
        let ghost u = table;
        self.put_table(table_id, table);
        proof {
            assert(self@.tables =~= st.tables.insert(table_id, u));
            if result is Err {
                assert(self@ =~= st);
            } else {
                assert(same_seats(t.players@, u.players@));
                lemma_committed_same(t.players@, u.players@);
                assert(level_valid(
                    t.config.blinds_schedule.levels@[t.current_blind_level as int],
                    t.current_blind_level == t.config.blinds_schedule.levels@.len() - 1,
                ));
                assert forall|i: int| 0 <= i < u.players@.len() implies (
                #[trigger] u.players@[i]).seat_index == i by {
                    assert(t.players@[i].seat_index == i);
                }
                assert(u.phase == u.hand().phase);
                assert(u.last_raise_size == u.hand().last_raise_size);
                assert(board_wf(u));
                assert(table_wf(u));
                lemma_table_changed(st, self@, table_id, u);
                assert(self@ =~= st.with_table(table_id, u));
            }
        }
        result
    }

    /// Takes the showdown of the committee at ledger `now`, and pays the pot unless another run
    /// follows. `proof_valid` is the answer of the verifier. `bad_beat_scores` are the scores of the
    /// hands by seat: what the jackpot pool holds goes to a losing hand that qualifies, if there is
    /// one. A settled hand goes into the history.
    pub fn submit_showdown(
        &mut self,
        env: &Env,
        table_id: u32,
        committee: &Address,
        hole_cards: &Vec<(u32, u32)>,
        public_inputs: &Vec<u8>,
        bad_beat_scores: &Vec<(u32, u32)>,
        proof_valid: bool,
        now: u32,
    ) -> (r: Result<ShowdownResult, PokerTableError>)
        requires
            old(self)@.wf(),
            old(self)@.tables.contains_key(table_id) ==> settlement_fits(
                old(self)@.tables[table_id],
            ),
        ensures
            match old(self)@.showdown_refused(
                table_id,
                address_digest(*committee) == address_digest(
                    old(self)@.tables[table_id].committee,
                ),
                hole_cards@,
                public_inputs@,
                proof_valid,
            ) {
                Some(e) => r == Err::<ShowdownResult, _>(e) && final(self)@ == old(self)@,
                None => r matches Ok(o) && old(self)@.shown(
                    final(self)@,
                    table_id,
                    public_inputs@,
                    bad_beat_scores@,
                    o,
                    now,
                ),
            },
            final(self)@.funds(table_id) == old(self)@.funds(table_id),
            final(self)@.wf(),
            r is Ok ==> proof_valid && address_digest(*committee) == address_digest(
                old(self)@.tables[table_id].committee,
            ),
    {
        let by_committee: bool = match self.open_to_play(table_id) {
            Ok(t) => address_eq(env, committee, &t.committee),
            Err(e) => {
                return Err(e);
            },
        };
        self.submit_showdown_as(
            table_id,
            by_committee,
            hole_cards,
            public_inputs,
            bad_beat_scores,
            proof_valid,
            now,
        )
    }

    /// The same, where it is known whether the caller is the committee of the table.
    #[verifier::rlimit(40)]
    pub fn submit_showdown_as(
        &mut self,
        table_id: u32,
        by_committee: bool,
        hole_cards: &Vec<(u32, u32)>,
        public_inputs: &Vec<u8>,
        bad_beat_scores: &Vec<(u32, u32)>,
        proof_valid: bool,
        now: u32,
    ) -> (r: Result<ShowdownResult, PokerTableError>)
        requires
            old(self)@.wf(),
            old(self)@.tables.contains_key(table_id) ==> settlement_fits(
                old(self)@.tables[table_id],
            ),
        ensures
            match old(self)@.showdown_refused(
                table_id,
                by_committee,
                hole_cards@,
                public_inputs@,
                proof_valid,
            ) {
                Some(e) => r == Err::<ShowdownResult, _>(e) && final(self)@ == old(self)@,
                None => r matches Ok(o) && old(self)@.shown(
                    final(self)@,
                    table_id,
                    public_inputs@,
                    bad_beat_scores@,
                    o,
                    now,
                ),
            },
            final(self)@.funds(table_id) == old(self)@.funds(table_id),
            final(self)@.wf(),
    {
        let ghost st = self@;
        match self.open_to_play(table_id) {
            Ok(_) => {},
            Err(e) => {
                return Err(e);
            },
        }
        let ghost t = st.tables[table_id];
        let mut table = self.take_table(table_id);
        proof {
            assert forall|i: int| 0 <= i < t.players@.len() implies (
            #[trigger] t.players@[i]).seat_index < 0x100_0000 by {
                assert(t.players@[i].seat_index == i);
            }
        }
        let (result, settled): (ShowdownResult, Option<Settled>) = match take_showdown(
            &mut table,
            by_committee,
            hole_cards,
            public_inputs,
            proof_valid,
            bad_beat_scores,
            now,
        ) {
            Ok(x) => x,
            Err(e) => {
                self.put_table(table_id, table);
                proof {
                    assert(self@.tables =~= st.tables.insert(table_id, t));
                    assert(self@ =~= st);
                }
                return Err(e);
            },
        };
        let ghost u = table;
        proof {
            let named = named_by(t, result.winner_index, result.tie_mask);
            bad_beat_is_paid(
                t.players@,
                named,
                bad_beat_scores@,
                bad_beat_threshold(t.config),
            );
            assert(same_seats(t.players@, u.players@)) by {
                assert forall|i: int| 0 <= i < t.players@.len() implies (
                #[trigger] t.players@[i]).seat_index == u.players@[i].seat_index
                    && t.players@[i].address == u.players@[i].address by {
                    if !(t.phase is ShowdownRun1) {
                        assert(u.hand().players[i].seat_index == t.players@[i].seat_index);
                    }
                }
            }
        }
        if let Some(s) = &settled {
            proof {
                lemma_payout_seats(
                    t.hand(),
                    named_by(t, result.winner_index, result.tie_mask),
                    t.config.rake_bps,
                    t.players@.len() as int,
                );
            }
            let kept = self.history.archive_hand(
                &table,
                &s.payouts,
                s.total_pot,
                s.rake,
                true,
                now,
            );
            assert(kept is Ok);
        }
        self.put_table(table_id, table);
        proof {
            assert(self@.tables =~= st.tables.insert(table_id, u));
            assert forall|i: int| 0 <= i < u.players@.len() implies (
            #[trigger] u.players@[i]).seat_index == i by {
                assert(t.players@[i].seat_index == i);
            }
            assert(table_wf(u));
            lemma_table_changed(st, self@, table_id, u);
        }
        Ok(result)
    }

    /// Acts on a stalled hand at ledger `now`.
    pub fn claim_timeout(&mut self, table_id: u32, now: u32) -> (r: Result<
        TimeoutOutcome,
        PokerTableError,
    >)
        requires
            old(self)@.wf(),
            old(self)@.tables.contains_key(table_id) ==> {
                let t = old(self)@.tables[table_id];
                outcome_of(t.hand(), t.config.rake_bps) is FoldWon ==> settlement_fits(t)
            },
        ensures
            ({
                let t = old(self)@.tables[table_id];
                let u = final(self)@.tables[table_id];
                let o = outcome_of(t.hand(), t.config.rake_bps);
                match old(self)@.timeout_result(table_id, now) {
                    Err(e) => r == Err::<TimeoutOutcome, _>(e) && final(self)@ == old(self)@,
                    Ok(h) => {
                        &&& r == Ok::<_, PokerTableError>(o)
                        &&& u.hand() == h
                        &&& t.same_but_hand(u)
                        &&& final(self)@ == (ContractView {
                            history: old(self)@.history_with(
                                u,
                                match o {
                                    TimeoutOutcome::FoldWon(w) => Some(w),
                                    _ => None,
                                },
                                now,
                            ),
                            ..old(self)@.with_table(table_id, u)
                        })
                        &&& final(self)@.funds(table_id) == old(self)@.funds(table_id)
                    },
                }
            }),
            final(self)@.wf(),
    {
        let ghost st = self@;
        match self.open_to_play(table_id) {
            Ok(_) => {},
            Err(e) => {
                return Err(e);
            },
        }
        let ghost t = st.tables[table_id];
        let mut table = self.take_table(table_id);
        let result = process_timeout(&mut table, &self.banks, now);
        let ghost u = table;
        let win: Option<FoldWin> = match &result {
            Ok(TimeoutOutcome::FoldWon(w)) => Some(*w),
            _ => None,
        };
        proof {
            if result is Ok {
                let b = t.board_cards@.len() as int;
                assert(!t.phase.between_hands());
                lemma_timeout_seats(
                    t.hand(),
                    b,
                    t.config.rake_bps,
                    t.config.jackpot_rake_share_bps,
                    t.config.timeout_ledgers,
                    st.banks.rescue_left(t, now),
                    now,
                );
                lemma_played(t, u);
                if t.phase.betting() {
                    lemma_first_active_bounds(t.hand().folded_at(t.current_turn as int).players);
                }
            }
        }
        self.archive_win(&table, &win, now);
        self.put_table(table_id, table);
        proof {
            assert(self@.tables =~= st.tables.insert(table_id, u));
            if result is Err {
                assert(self@ =~= st);
            } else {
                lemma_table_changed(st, self@, table_id, u);
            }
        }
        result
    }

    /// Folds a stalling player at the request of another, at ledger `now`.
    pub fn force_fold(&mut self, env: &Env, table_id: u32, caller: &Address, target_seat: u32, now: u32) -> (r:
        Result<Option<FoldWin>, PokerTableError>)
        requires
            old(self)@.wf(),
            old(self)@.tables.contains_key(table_id) ==> {
                let t = old(self)@.tables[table_id];
                &&& win_of(
                    t.hand().folded_at(target_seat as int),
                    t.config.rake_bps,
                ) is Some ==> settlement_fits(t)
                &&& turns_fit(t.config, now)
            },
        ensures
            ({
                let t = old(self)@.tables[table_id];
                let u = final(self)@.tables[table_id];
                let seat = seat_by_digest(t.players@, *caller);
                let win = win_of(t.hand().folded_at(target_seat as int), t.config.rake_bps);
                match old(self)@.force_fold_refused(table_id, seat, target_seat, now) {
                    Some(e) => r == Err::<Option<FoldWin>, _>(e) && final(self)@ == old(self)@,
                    None => {
                        &&& r == Ok::<_, PokerTableError>(win)
                        &&& u.hand() == t.hand().force_folded(
                            target_seat as int,
                            t.config.rake_bps,
                            t.config.jackpot_rake_share_bps,
                            t.config.turn_ledgers(t.phase),
                            now,
                        )
                        &&& t.same_but_hand(u)
                        &&& final(self)@ == (ContractView {
                            history: old(self)@.history_with(u, win, now),
                            ..old(self)@.with_table(table_id, u)
                        })
                        &&& final(self)@.funds(table_id) == old(self)@.funds(table_id)
                    },
                }
            }),
            final(self)@.wf(),
            r is Ok ==> final(self)@.tables[table_id].players@[target_seat as int].folded,
            r == Ok::<Option<FoldWin>, PokerTableError>(None) ==> {
                let (t, u) = (old(self)@.tables[table_id], final(self)@.tables[table_id]);
                &&& u.pot == t.pot && u.phase == t.phase
                &&& u.action_deadline == now + t.config.turn_ledgers(t.phase)
            },
    {
        let seat: Option<u32> = match self.open_to_play(table_id) {
            Ok(t) => find_seat_number(env, t, caller),
            Err(e) => {
                return Err(e);
            },
        };
        self.force_fold_as(table_id, seat, target_seat, now)
    }

    /// The same, for a caller whose seat number is known.
    pub fn force_fold_as(
        &mut self,
        table_id: u32,
        caller_seat: Option<u32>,
        target_seat: u32,
        now: u32,
    ) -> (r: Result<Option<FoldWin>, PokerTableError>)
        requires
            old(self)@.wf(),
            old(self)@.tables.contains_key(table_id) ==> {
                let t = old(self)@.tables[table_id];
                &&& win_of(
                    t.hand().folded_at(target_seat as int),
                    t.config.rake_bps,
                ) is Some ==> settlement_fits(t)
                &&& turns_fit(t.config, now)
            },
        ensures
            ({
                let t = old(self)@.tables[table_id];
                let u = final(self)@.tables[table_id];
                let win = win_of(t.hand().folded_at(target_seat as int), t.config.rake_bps);
                match old(self)@.force_fold_refused(table_id, caller_seat, target_seat, now) {
                    Some(e) => r == Err::<Option<FoldWin>, _>(e) && final(self)@ == old(self)@,
                    None => {
                        &&& r == Ok::<_, PokerTableError>(win)
                        &&& u.hand() == t.hand().force_folded(
                            target_seat as int,
                            t.config.rake_bps,
                            t.config.jackpot_rake_share_bps,
                            t.config.turn_ledgers(t.phase),
                            now,
                        )
                        &&& t.same_but_hand(u)
                        &&& final(self)@ == (ContractView {
                            history: old(self)@.history_with(u, win, now),
                            ..old(self)@.with_table(table_id, u)
                        })
                        &&& final(self)@.funds(table_id) == old(self)@.funds(table_id)
                    },
                }
            }),
            final(self)@.wf(),
            r is Ok ==> final(self)@.tables[table_id].players@[target_seat as int].folded,
            r == Ok::<Option<FoldWin>, PokerTableError>(None) ==> {
                let (t, u) = (old(self)@.tables[table_id], final(self)@.tables[table_id]);
                &&& u.pot == t.pot && u.phase == t.phase
                &&& u.action_deadline == now + t.config.turn_ledgers(t.phase)
            },
    {
        let ghost st = self@;
        match self.open_to_play(table_id) {
            Ok(_) => {},
            Err(e) => {
                return Err(e);
            },
        }
        let ghost t = st.tables[table_id];
        let mut table = self.take_table(table_id);
        let result = force_fold_at(&mut table, caller_seat, target_seat, now);
        let ghost u = table;
        match result {
            Err(e) => {
                self.put_table(table_id, table);
                proof {
                    assert(self@.tables =~= st.tables);
                    assert(self@ =~= st);
                }
                Err(e)
            },
            Ok(win) => {
                proof {
                    lemma_forced_seats(
                        t.hand(),
                        target_seat as int,
                        t.config.rake_bps,
                        t.config.jackpot_rake_share_bps,
                        t.config.turn_ledgers(t.phase),
                        now,
                    );
                    lemma_played(t, u);
                    lemma_first_active_bounds(t.hand().folded_at(target_seat as int).players);
                }
                self.archive_win(&table, &win, now);
                self.put_table(table_id, table);
                proof {
                    assert(self@.tables =~= st.tables.insert(table_id, u));
                    lemma_table_changed(st, self@, table_id, u);
                }
                Ok(win)
            },
        }
    }

    /// Spends time from a player's reserve on the deadline of their turn, at ledger `now`, and
    /// returns the seconds spent.
    pub fn use_time_bank(&mut self, env: &Env, table_id: u32, player: &Address, now: u32) -> (r: Result<
        u64,
        PokerTableError,
    >)
        requires
            old(self)@.wf(),
            old(self)@.tables.contains_key(table_id) ==> deadline_base(
                old(self)@.tables[table_id],
                now,
            ) + 60 <= u32::MAX,
        ensures
            ({
                let t = old(self)@.tables[table_id];
                let seat = seat_by_digest(t.players@, *player);
                let cfg = old(self)@.banks.configs[table_id];
                match old(self)@.extension_refused(table_id, *player, seat, now) {
                    Some(e) => r == Err::<u64, _>(e) && final(self)@ == old(self)@,
                    None => {
                        &&& r == Ok::<_, PokerTableError>(cfg.extension_seconds)
                        &&& final(self)@ == (ContractView {
                            banks: old(self)@.banks.extended(table_id, *player, now),
                            ..old(self)@.with_table(
                                table_id,
                                TableState {
                                    action_deadline: (deadline_base(t, now) + extension_ledgers(
                                        cfg,
                                    )) as u32,
                                    ..t
                                },
                            )
                        })
                    },
                }
            }),
            final(self)@.wf(),
            r matches Ok(seconds) ==> {
                let (t, u) = (old(self)@.tables[table_id], final(self)@.tables[table_id]);
                let more = if t.action_deadline > now {
                    u.action_deadline - t.action_deadline
                } else {
                    u.action_deadline - now
                };
                5 * more >= seconds && 5 * (more - 1) < seconds
            },
    {
        let seat: Option<u32> = match self.open_to_play(table_id) {
            Ok(t) => find_seat_number(env, t, player),
            Err(e) => {
                return Err(e);
            },
        };
        self.use_time_bank_as(table_id, player, seat, now)
    }

    /// The same, for a player whose seat number is known.
    pub fn use_time_bank_as(&mut self, table_id: u32, player: &Address, seat: Option<u32>, now: u32) -> (r:
        Result<u64, PokerTableError>)
        requires
            old(self)@.wf(),
            old(self)@.tables.contains_key(table_id) ==> deadline_base(
                old(self)@.tables[table_id],
                now,
            ) + 60 <= u32::MAX,
        ensures
            ({
                let t = old(self)@.tables[table_id];
                let cfg = old(self)@.banks.configs[table_id];
                match old(self)@.extension_refused(table_id, *player, seat, now) {
                    Some(e) => r == Err::<u64, _>(e) && final(self)@ == old(self)@,
                    None => {
                        &&& r == Ok::<_, PokerTableError>(cfg.extension_seconds)
                        &&& final(self)@ == (ContractView {
                            banks: old(self)@.banks.extended(table_id, *player, now),
                            ..old(self)@.with_table(
                                table_id,
                                TableState {
                                    action_deadline: (deadline_base(t, now) + extension_ledgers(
                                        cfg,
                                    )) as u32,
                                    ..t
                                },
                            )
                        })
                    },
                }
            }),
            final(self)@.wf(),
            r matches Ok(seconds) ==> {
                let (t, u) = (old(self)@.tables[table_id], final(self)@.tables[table_id]);
                let more = if t.action_deadline > now {
                    u.action_deadline - t.action_deadline
                } else {
                    u.action_deadline - now
                };
                5 * more >= seconds && 5 * (more - 1) < seconds
            },
    {
        let ghost st = self@;
        match self.open_to_play(table_id) {
            Ok(_) => {},
            Err(e) => {
                return Err(e);
            },
        }
        let ghost t = st.tables[table_id];
        let mut table = self.take_table(table_id);
        let result = self.banks.use_time_bank_at(&mut table, player, seat, now);
        let ghost u = table;
        self.put_table(table_id, table);
        proof {
            assert(self@.tables =~= st.tables.insert(table_id, u));
            if result is Err {
                assert(self@ =~= st);
            } else {
                assert(u.hand().chips() == t.hand().chips());
                assert(u.hand().wf());
                assert(table_wf(u));
                lemma_table_changed(st, self@, table_id, u);
            }
        }
        result
    }

    /// Whether the deadline of the current player is over at ledger `now`, and the player has no
    /// reserve of time left that could put it off.
    pub fn should_enforce_timeout(&self, table_id: u32, now: u32) -> (r: Result<
        bool,
        PokerTableError,
    >)
        ensures
            r == (if self@.tables.contains_key(table_id) {
                Ok(self@.banks.enforced(self@.tables[table_id], now))
            } else {
                Err(PokerTableError::TableNotFound)
            }),
    {
        match self.get_table(table_id) {
            Ok(t) => Ok(should_enforce_timeout(&self.banks, t, now)),
            Err(e) => Err(e),
        }
    }

    /// Commits a player to an action by its hash.
    pub fn commit_action(
        &mut self,
        env: &Env,
        table_id: u32,
        player: &Address,
        action_hash: &Vec<u8>,
        nonce_hash: &Vec<u8>,
    ) -> (r: Result<(), PokerTableError>)
        requires
            old(self)@.wf(),
        ensures
            ({
                let seat = seat_by_digest(old(self)@.tables[table_id].players@, *player);
                match old(self)@.commitment_refusal(
                    table_id,
                    seat,
                    action_hash@.len() as int,
                    nonce_hash@.len() as int,
                ) {
                    Some(e) => r == Err::<(), _>(e) && final(self)@ == old(self)@,
                    None => {
                        let k = old(self)@.commit_key(table_id, seat->0);
                        r is Ok && final(self)@ == (ContractView {
                            commitments: old(self)@.commitments.insert(
                                k,
                                bytes32_at(action_hash@, 0),
                            ),
                            nonce_hashes: old(self)@.nonce_hashes.insert(
                                k,
                                bytes32_at(nonce_hash@, 0),
                            ),
                            ..old(self)@
                        })
                    },
                }
            }),
            final(self)@.wf(),
    {
        let seat: Option<u32> = match self.tables.get(&table_id) {
            Some(t) => find_seat_number(env, t, player),
            None => None,
        };
        self.commit_action_as(table_id, seat, action_hash, nonce_hash)
    }

    /// The same, for a player whose seat number is known.
    pub fn commit_action_as(
        &mut self,
        table_id: u32,
        seat: Option<u32>,
        action_hash: &Vec<u8>,
        nonce_hash: &Vec<u8>,
    ) -> (r: Result<(), PokerTableError>)
        requires
            old(self)@.wf(),
        ensures
            match old(self)@.commitment_refusal(
                table_id,
                seat,
                action_hash@.len() as int,
                nonce_hash@.len() as int,
            ) {
                Some(e) => r == Err::<(), _>(e) && final(self)@ == old(self)@,
                None => {
                    let k = old(self)@.commit_key(table_id, seat->0);
                    r is Ok && final(self)@ == (ContractView {
                        commitments: old(self)@.commitments.insert(k, bytes32_at(action_hash@, 0)),
                        nonce_hashes: old(self)@.nonce_hashes.insert(k, bytes32_at(nonce_hash@, 0)),
                        ..old(self)@
                    })
                },
            },
            final(self)@.wf(),
    {
        let ghost st = self@;
        if self.is_paused(table_id) {
            return Err(PokerTableError::ContractPaused);
        }
        if action_hash.len() != 32 {
            return Err(PokerTableError::InvalidAction);
        }
        if nonce_hash.len() != 32 {
            return Err(PokerTableError::InvalidAction);
        }
        let hand_number: u32 = match self.get_table(table_id) {
            Ok(t) => {
                if !t.phase.is_betting() {
                    return Err(PokerTableError::NotInBettingPhase);
                }
                t.hand_number
            },
            Err(e) => {
                return Err(e);
            },
        };
        let key = match seat {
            Some(s) => CommitKey { table_id, hand_number, seat: s },
            None => {
                return Err(PokerTableError::PlayerNotAtTable);
            },
        };
        if self.commitments.contains(&key) {
            return Err(PokerTableError::ActionAlreadyCommitted);
        }
        self.commitments.insert(key, read_bytes32(action_hash, 0));
        self.nonce_hashes.insert(key, read_bytes32(nonce_hash, 0));
        proof {
            lemma_same_funds(st, self@);
        }
        Ok(())
    }

    /// Whether everybody who can act has committed to an action, or has acted on this street.
    fn all_have_committed(&self, table_id: u32) -> (r: bool)
        requires
            self@.wf(),
            self@.tables.contains_key(table_id),
        ensures
            r == self@.commits_collected(table_id),
    {
        match self.tables.get(&table_id) {
            Some(t) => {
                let ghost st = self@;
                let mut i: usize = 0;
                while i < t.players.len()
                    invariant
                        i <= t.players@.len() <= u32::MAX,
                        st == self@,
                        *t == st.tables[table_id],
                        forall|j: int|
                            0 <= j < i && can_act(#[trigger] t.players@[j]) ==> st.ready(table_id, j),
                    decreases t.players@.len() - i,
                {
                    let p = t.players[i];
                    if !p.folded && !p.all_in {
                        let key = CommitKey {
                            table_id,
                            hand_number: t.hand_number,
                            seat: i as u32,
                        };
                        if !self.commitments.contains(&key) && !has_acted(t, i as u32) {
                            assert(can_act(t.players@[i as int]) && !st.ready(table_id, i as int));
                            return false;
                        }
                    }
                    i += 1;
                }
                true
            },
            None => false,
        }
    }

    /// Takes an action that its player has committed to, with the number `seq`, at ledger `now`.
    /// It waits until everybody who can act has committed to an action, or has acted on this
    /// street.
    pub fn reveal_action(
        &mut self,
        env: &Env,
        table_id: u32,
        player: &Address,
        seq: u32,
        action: &Action,
        amount: i128,
        nonce: &Vec<u8>,
        now: u32,
    ) -> (r: Result<Option<FoldWin>, PokerTableError>)
        requires
            old(self)@.wf(),
            nonce@.len() + 17 <= u32::MAX,
            old(self)@.tables.contains_key(table_id) ==> play_fits(old(self)@.tables[table_id])
                && turns_fit(old(self)@.tables[table_id].config, now),
        ensures
            ({
                let seat = seat_by_digest(old(self)@.tables[table_id].players@, *player);
                match old(self)@.action_reveal_refusal(
                    table_id,
                    *player,
                    seat,
                    seq,
                    *action,
                    amount,
                    keccak_digest(preimage(*action, amount, nonce@)),
                ) {
                    Some(e) => r == Err::<Option<FoldWin>, _>(e) && final(self)@ == old(self)@,
                    None => {
                        &&& r == Ok::<_, PokerTableError>(
                            old(self)@.action_answer(table_id, seat, *action),
                        )
                        &&& old(self)@.action_taken(
                            final(self)@,
                            table_id,
                            *player,
                            seat,
                            seq,
                            *action,
                            now,
                        )
                        &&& final(self)@.commitments == old(self)@.commitments.remove(
                            old(self)@.commit_key(table_id, seat->0),
                        )
                        &&& final(self)@.funds(table_id) == old(self)@.funds(table_id)
                    },
                }
            }),
            final(self)@.wf(),
    {
        let seat: Option<u32> = match self.open_to_play(table_id) {
            Ok(t) => find_seat_number(env, t, player),
            Err(e) => {
                return Err(e);
            },
        };
        let hash = compute_action_hash(env, action, amount, nonce);
        self.reveal_action_as(table_id, player, seat, seq, action, amount, hash, now)
    }

    /// The same, where the seat number of the player and the commitment that the revealed values
    /// give are known.
    pub fn reveal_action_as(
        &mut self,
        table_id: u32,
        player: &Address,
        seat: Option<u32>,
        seq: u32,
        action: &Action,
        amount: i128,
        hash: Bytes32,
        now: u32,
    ) -> (r: Result<Option<FoldWin>, PokerTableError>)
        requires
            old(self)@.wf(),
            old(self)@.tables.contains_key(table_id) ==> play_fits(old(self)@.tables[table_id])
                && turns_fit(old(self)@.tables[table_id].config, now),
        ensures
            match old(self)@.action_reveal_refusal(
                table_id,
                *player,
                seat,
                seq,
                *action,
                amount,
                hash,
            ) {
                Some(e) => r == Err::<Option<FoldWin>, _>(e) && final(self)@ == old(self)@,
                None => {
                    &&& r == Ok::<_, PokerTableError>(
                        old(self)@.action_answer(table_id, seat, *action),
                    )
                    &&& old(self)@.action_taken(
                        final(self)@,
                        table_id,
                        *player,
                        seat,
                        seq,
                        *action,
                        now,
                    )
                    &&& final(self)@.commitments == old(self)@.commitments.remove(
                        old(self)@.commit_key(table_id, seat->0),
                    )
                    &&& final(self)@.funds(table_id) == old(self)@.funds(table_id)
                },
            },
            final(self)@.wf(),
    {
        let ghost st = self@;
        let hand_number: u32 = match self.open_to_play(table_id) {
            Ok(t) => {
                if !t.phase.is_betting() {
                    return Err(PokerTableError::NotInBettingPhase);
                }
                t.hand_number
            },
            Err(e) => {
                return Err(e);
            },
        };
        let key = match seat {
            Some(s) => CommitKey { table_id, hand_number, seat: s },
            None => {
                return Err(PokerTableError::PlayerNotAtTable);
            },
        };
        match self.commitments.get(&key) {
            Some(h) => {
                if *h != hash || !amount_matches(action, amount) {
                    return Err(PokerTableError::InvalidActionReveal);
                }
            },
            None => {
                return Err(PokerTableError::ActionCommitmentNotFound);
            },
        }
        if !self.all_have_committed(table_id) {
            return Err(PokerTableError::ActionCommitmentNotFound);
        }
        let last: u32 = match self.counters.get(&SeatKey { table_id, player: *player }) {
            Some(x) => *x,
            None => 0,
        };
        if seq != last.wrapping_add(1) {
            return Err(PokerTableError::StaleActionSequence);
        }
        let result = self.take_action(table_id, player, seat, seq, action, now);
        let ghost s1 = self@;
        if result.is_ok() {
            let _ = self.commitments.remove(&key);
            proof {
                lemma_same_funds(s1, self@);
                assert(self@.commitments =~= st.commitments.remove(key));
                assert(self@.funds(table_id) == s1.funds(table_id));
            }
        }
        result
    }
}

/// A change that leaves the tables, the queues and what is tied to them alone keeps everything
/// well-formed.
pub(super) proof fn lemma_same_funds(st: ContractView, n: ContractView)
    requires
        st.wf(),
        n.tables == st.tables,
        n.next_id == st.next_id,
        n.queues == st.queues,
        n.player_tables == st.player_tables,
        n.straddles == st.straddles,
        n.volunteers == st.volunteers,
        n.bans == st.bans,
        n.banks == st.banks,
        n.history == st.history,
        n.governance == st.governance,
    ensures
        n.wf(),
{
    assert forall|id: u32| #[trigger] n.tables.contains_key(id) implies n.funds(id)
        <= i128::MAX by {
        assert(st.tables.contains_key(id));
        assert(n.funds(id) == st.funds(id));
    }
}

/// An action is committed to with two digests of 32 bytes, while players bet, by someone at the open
/// table, and once for each seat in a hand until it is revealed; and then it is.
pub proof fn commitments_are_made_once(
    st: ContractView,
    table_id: u32,
    seat: Option<u32>,
    hash_len: int,
    nonce_len: int,
)
    ensures
        st.commitment_refusal(table_id, seat, hash_len, nonce_len) is None <==> {
            let t = st.tables[table_id];
            &&& !(st.paused.contains_key(table_id) && st.paused[table_id])
            &&& st.tables.contains_key(table_id)
            &&& hash_len == 32 && nonce_len == 32
            &&& t.phase is Preflop || t.phase is Flop || t.phase is Turn || t.phase is River
            &&& seat is Some
            &&& !st.commitments.contains_key(
                CommitKey { table_id, hand_number: t.hand_number, seat: seat->0 },
            )
        },
{
}

/// A revealed action is taken only where it is the one that was committed to: its digest is the
/// committed one, its amount is the one that it names, everyone who can act has committed or acted,
/// its number is due and the hand accepts it.
pub proof fn reveals_are_held_to_commitments(
    st: ContractView,
    table_id: u32,
    player: Address,
    seat: Option<u32>,
    seq: u32,
    action: Action,
    amount: i128,
    hash: Bytes32,
)
    ensures
        st.action_reveal_refusal(table_id, player, seat, seq, action, amount, hash) is None <==> {
            let t = st.tables[table_id];
            let k = CommitKey { table_id, hand_number: t.hand_number, seat: seat->0 };
            &&& !(st.paused.contains_key(table_id) && st.paused[table_id])
            &&& st.tables.contains_key(table_id)
            &&& t.phase is Preflop || t.phase is Flop || t.phase is Turn || t.phase is River
            &&& seat is Some
            &&& st.commitments.contains_key(k) && st.commitments[k] == hash
            &&& action matches Action::Bet(x) ==> x == amount
            &&& action matches Action::Raise(x) ==> x == amount
            &&& forall|i: int|
                0 <= i < t.players@.len() && !(#[trigger] t.players@[i]).folded
                    && !t.players@[i].all_in ==> st.ready(table_id, i)
            &&& st.seq_due(table_id, player, seq)
            &&& st.action_outcome(table_id, seat, action) is Ok
        },
        seat matches Some(s) ==> st.tables.contains_key(table_id) ==> st.ready(table_id, s as int)
            == (st.commitments.contains_key(
            CommitKey { table_id, hand_number: st.tables[table_id].hand_number, seat: s },
        ) || exists|i: int|
            0 <= i < st.tables[table_id].hand_actions@.len() && (
            #[trigger] st.tables[table_id].hand_actions@[i]).seat == s
                && st.tables[table_id].hand_actions@[i].phase == st.tables[table_id].phase),
{
    let t = st.tables[table_id];
    if st.commits_collected(table_id) {
        assert forall|i: int|
            0 <= i < t.players@.len() && !(#[trigger] t.players@[i]).folded
                && !t.players@[i].all_in implies st.ready(table_id, i) by {
            assert(can_act(t.players@[i]));
        }
    }
}

/// While a table is open, a request of the committee, of a player or of the clock is refused for what
/// the hand says and for nothing else.
pub proof fn open_tables_go_by_the_hand(
    st: ContractView,
    table_id: u32,
    by_committee: bool,
    cards: int,
    indices: int,
    hole_cards: Seq<(u32, u32)>,
    public_inputs: Seq<u8>,
    proof_valid: bool,
    seat: int,
    caller_seat: Option<u32>,
    target_seat: u32,
    player: Address,
    now: u32,
)
    requires
        st.tables.contains_key(table_id),
        !(st.paused.contains_key(table_id) && st.paused[table_id]),
    ensures
        ({
            let t = st.tables[table_id];
            &&& st.reveal_refused(table_id, by_committee, cards, indices, proof_valid)
                == reveal_refusal(t, by_committee, cards, indices, proof_valid)
            &&& st.showdown_refused(
                table_id,
                by_committee,
                hole_cards,
                public_inputs,
                proof_valid,
            ) == showdown_refusal(t, by_committee, hole_cards, public_inputs, proof_valid)
            &&& st.offer_refused(table_id, seat) == offer_refusal(t, seat)
            &&& st.choice_refused(table_id, seat) == choice_refusal(t, seat)
            &&& st.force_fold_refused(table_id, caller_seat, target_seat, now)
                == t.hand().force_fold_refusal(caller_seat, target_seat, now)
            &&& st.extension_refused(table_id, player, caller_seat, now)
                == st.banks.extension_refusal(t, player, caller_seat, now)
            &&& st.timeout_result(table_id, now) is Ok ==> t.hand().time_is_up(
                t.config.timeout_ledgers,
                st.banks.rescue_left(t, now),
                now,
            )
        }),
{
}

} // verus!
