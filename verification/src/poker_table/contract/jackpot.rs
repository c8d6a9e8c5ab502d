//! Jackpots that a hand is claimed for at its table.

use super::{table_wf, ContractView, HandKey, PokerTableContract};
use super::play::lemma_table_changed;
use crate::host::{Address, Bytes32, Symbol};
use crate::poker_table::game::{lemma_stack_bounds, lemma_stack_update};
use crate::poker_table::seating::{find_matches, first_mark, first_marked, matches_of};
use crate::poker_table::types::{PlayerState, PokerTableError, TableState};
use soroban_sdk::Env;
use vstd::prelude::*;

verus! {

/// "BadBeat"
pub open spec fn bad_beat_name() -> Symbol {
    Symbol { text: Bytes32 { w0: 0x4261_6442_6561_7400, w1: 0, w2: 0, w3: 0 } }
}

/// "RoyalFlush"
pub open spec fn royal_flush_name() -> Symbol {
    Symbol { text: Bytes32 { w0: 0x526f_7961_6c46_6c75, w1: 0x7368_0000_0000_0000, w2: 0, w3: 0 } }
}

/// "StraightFlush"
pub open spec fn straight_flush_name() -> Symbol {
    Symbol { text: Bytes32 { w0: 0x5374_7261_6967_6874, w1: 0x466c_7573_6800_0000, w2: 0, w3: 0 } }
}

/// "FourOfAKind"
pub open spec fn four_of_a_kind_name() -> Symbol {
    Symbol { text: Bytes32 { w0: 0x466f_7572_4f66_414b, w1: 0x696e_6400_0000_0000, w2: 0, w3: 0 } }
}

/// The score of the least hand that makes a bad beat: its category, then its rank.
pub open spec fn qualifying_score(category: u32, rank: u32) -> u32 {
    (category << 28u32) | (rank << 4u32)
}

/// The score of the least hand that makes a bad beat.
pub fn min_bad_beat_qualifying_score(category: u32, rank: u32) -> (r: u32)
    ensures
        r == qualifying_score(category, rank),
{
    (category << 28u32) | (rank << 4u32)
}

/// What is claimed of a hand.
#[derive(Clone, Copy, Debug, PartialEq, Eq, Structural)]
pub struct HandClaim {
    pub hand_category: u32,
    pub hand_rank: u32,
    pub hand_score: u32,
    pub is_losing_hand: bool,
    pub jackpot_type: Symbol,
}

/// Whether a hand qualifies for a jackpot of a table.
pub open spec fn claim_qualifies(t: TableState, c: HandClaim) -> bool {
    let threshold = qualifying_score(t.config.min_bad_beat_category, t.config.min_bad_beat_rank);
    if c.jackpot_type == bad_beat_name() {
        c.is_losing_hand && c.hand_score >= threshold && c.hand_category
            >= t.config.min_bad_beat_category
    } else if c.jackpot_type == royal_flush_name() {
        c.hand_category == 9 && c.hand_rank == 12
    } else if c.jackpot_type == straight_flush_name() {
        c.hand_category == 8
    } else if c.jackpot_type == four_of_a_kind_name() {
        c.hand_category == 7
    } else {
        c.hand_score >= threshold
    }
}

/// Whether a hand qualifies for a jackpot of a table.
pub fn qualifies_for_jackpot(t: &TableState, c: &HandClaim) -> (r: bool)
    ensures
        r == claim_qualifies(*t, *c),
{
    let threshold: u32 = min_bad_beat_qualifying_score(
        t.config.min_bad_beat_category,
        t.config.min_bad_beat_rank,
    );
    let bad_beat = Symbol { text: Bytes32 { w0: 0x4261_6442_6561_7400, w1: 0, w2: 0, w3: 0 } };
    let royal_flush = Symbol {
        text: Bytes32 { w0: 0x526f_7961_6c46_6c75, w1: 0x7368_0000_0000_0000, w2: 0, w3: 0 },
    };
    let straight_flush = Symbol {
        text: Bytes32 { w0: 0x5374_7261_6967_6874, w1: 0x466c_7573_6800_0000, w2: 0, w3: 0 },
    };
    let four_of_a_kind = Symbol {
        text: Bytes32 { w0: 0x466f_7572_4f66_414b, w1: 0x696e_6400_0000_0000, w2: 0, w3: 0 },
    };
    if c.jackpot_type == bad_beat {
        c.is_losing_hand && c.hand_score >= threshold && c.hand_category
            >= t.config.min_bad_beat_category
    } else if c.jackpot_type == royal_flush {
        c.hand_category == 9 && c.hand_rank == 12
    } else if c.jackpot_type == straight_flush {
        c.hand_category == 8
    } else if c.jackpot_type == four_of_a_kind {
        c.hand_category == 7
    } else {
        c.hand_score >= threshold
    }
}

impl ContractView {
    /// Whether a claim holds: the jackpot verifier of the table decides where there is one, and
    /// otherwise the thresholds of the table do.
    pub open spec fn claim_holds(self, table_id: u32, claim: HandClaim, verifier_says: bool) -> bool {
        if self.jackpot_verifiers.contains_key(table_id) {
            verifier_says
        } else {
            claim_qualifies(self.tables[table_id], claim)
        }
    }

    /// Whether a hand qualifies for a jackpot, or why that is not answered. `seat` is the place of
    /// the claimant at the table, or one past the last, and `verifier_says` the answer of the
    /// table's jackpot verifier.
    pub open spec fn jackpot_verdict(
        self,
        table_id: u32,
        seat: int,
        claim: HandClaim,
        verifier_says: bool,
    ) -> Result<bool, PokerTableError> {
        if !self.tables.contains_key(table_id) {
            Err(PokerTableError::TableNotFound)
        } else if seat >= self.tables[table_id].players@.len() {
            Err(PokerTableError::PlayerNotAtTable)
        } else {
            Ok(self.claim_holds(table_id, claim, verifier_says))
        }
    }

    /// Why a jackpot is not paid, if it is not.
    pub open spec fn jackpot_refusal(
        self,
        table_id: u32,
        seat: int,
        claim: HandClaim,
        verifier_says: bool,
    ) -> Option<PokerTableError> {
        let t = self.tables[table_id];
        if self.closed_to_play(table_id) is Some {
            self.closed_to_play(table_id)
        } else if t.jackpot_balance <= 0 {
            Some(PokerTableError::JackpotNotEnabled)
        } else if seat >= t.players@.len() {
            Some(PokerTableError::PlayerNotAtTable)
        } else if !self.claim_holds(table_id, claim, verifier_says) {
            Some(PokerTableError::JackpotNotEnabled)
        } else if self.jackpot_claims.contains_key(HandKey { table_id, hand_number: t.hand_number }) {
            Some(PokerTableError::JackpotAlreadyClaimed)
        } else {
            None
        }
    }

    /// Whether `next` is the state after the jackpot of a table is paid to the player at place
    /// `seat`.
    pub open spec fn jackpot_paid(
        self,
        next: ContractView,
        table_id: u32,
        claimant: Address,
        seat: int,
    ) -> bool {
        let t = self.tables[table_id];
        let u = next.tables[table_id];
        let p = t.players@[seat];
        &&& u.players@ == t.players@.update(
            seat,
            PlayerState { stack: (p.stack + t.jackpot_balance) as i128, ..p },
        )
        &&& u == (TableState { players: u.players, jackpot_balance: 0, ..t })
        &&& next == (ContractView {
            jackpot_claims: self.jackpot_claims.insert(
                HandKey { table_id, hand_number: t.hand_number },
                claimant,
            ),
            ..self.with_table(table_id, u)
        })
    }
}

impl PokerTableContract {
    fn check_claim(&self, table_id: u32, t: &TableState, claim: &HandClaim, verifier_says: bool) -> (r:
        bool)
        requires
            self@.tables.contains_key(table_id),
            *t == self@.tables[table_id],
        ensures
            r == self@.claim_holds(table_id, *claim, verifier_says),
    {
        if self.jackpot_verifiers.contains(&table_id) {
            verifier_says
        } else {
            qualifies_for_jackpot(t, claim)
        }
    }

    /// Whether a hand of a seated player qualifies for a jackpot. `verifier_says` is the answer of
    /// the table's jackpot verifier to the claim and its proof; it is not looked at where there is
    /// none.
    pub fn verify_jackpot_with_proof(
        &self,
        env: &Env,
        table_id: u32,
        claimant: &Address,
        claim: &HandClaim,
        verifier_says: bool,
    ) -> (r: Result<bool, PokerTableError>)
        ensures
            r == self@.jackpot_verdict(
                table_id,
                first_mark(matches_of(self@.tables[table_id].players@, *claimant)),
                *claim,
                verifier_says,
            ),
    {
        match self.get_table(table_id) {
            Ok(t) => {
                let marks = find_matches(env, &t.players, claimant);
                let seat: usize = first_marked(&marks);
                if seat >= t.players.len() {
                    return Err(PokerTableError::PlayerNotAtTable);
                }
                Ok(self.check_claim(table_id, t, claim, verifier_says))
            },
            Err(e) => Err(e),
        }
    }

    /// Pays the jackpot of a table to a seated player whose hand qualifies for it, once for each
    /// hand. Returns what was paid.
    pub fn claim_jackpot_with_proof(
        &mut self,
        env: &Env,
        table_id: u32,
        claimant: &Address,
        claim: &HandClaim,
        verifier_says: bool,
    ) -> (r: Result<i128, PokerTableError>)
        requires
            old(self)@.wf(),
        ensures
            ({
                let t = old(self)@.tables[table_id];
                let seat = first_mark(matches_of(t.players@, *claimant));
                match old(self)@.jackpot_refusal(table_id, seat, *claim, verifier_says) {
                    Some(e) => r == Err::<i128, _>(e) && final(self)@ == old(self)@,
                    None => {
                        &&& r == Ok::<_, PokerTableError>(t.jackpot_balance)
                        &&& old(self)@.jackpot_paid(final(self)@, table_id, *claimant, seat)
                        &&& final(self)@.funds(table_id) == old(self)@.funds(table_id)
                    },
                }
            }),
            final(self)@.wf(),
    {
        match self.open_to_play(table_id) {
            Ok(t) => {
                let marks = find_matches(env, &t.players, claimant);
                let seat: usize = first_marked(&marks);
                self.claim_jackpot_as(table_id, claimant, seat, claim, verifier_says)
            },
            Err(e) => Err(e),
        }
    }

    /// The same, where the place of the claimant at the table is known; one past the last stands
    /// for a player who is not there.
    pub fn claim_jackpot_as(
        &mut self,
        table_id: u32,
        claimant: &Address,
        seat: usize,
        claim: &HandClaim,
        verifier_says: bool,
    ) -> (r: Result<i128, PokerTableError>)
        requires
            old(self)@.wf(),
        ensures
            match old(self)@.jackpot_refusal(table_id, seat as int, *claim, verifier_says) {
                Some(e) => r == Err::<i128, _>(e) && final(self)@ == old(self)@,
                None => {
                    &&& r == Ok::<_, PokerTableError>(old(self)@.tables[table_id].jackpot_balance)
                    &&& old(self)@.jackpot_paid(final(self)@, table_id, *claimant, seat as int)
                    &&& final(self)@.funds(table_id) == old(self)@.funds(table_id)
                },
            },
            final(self)@.wf(),
    {
        let ghost st = self@;
        let hand_number: u32 = match self.open_to_play(table_id) {
            Ok(t) => {
                if t.jackpot_balance <= 0 {
                    return Err(PokerTableError::JackpotNotEnabled);
                }
                if seat >= t.players.len() {
                    return Err(PokerTableError::PlayerNotAtTable);
                }
                if !self.check_claim(table_id, t, claim, verifier_says) {
                    return Err(PokerTableError::JackpotNotEnabled);
                }
                t.hand_number
            },
            Err(e) => {
                return Err(e);
            },
        };
        let key = HandKey { table_id, hand_number };
        if self.jackpot_claims.contains(&key) {
            return Err(PokerTableError::JackpotAlreadyClaimed);
        }
        self.jackpot_claims.insert(key, *claimant);
        let ghost t = st.tables[table_id];
        let mut table = self.take_table(table_id);
        let payout: i128 = table.jackpot_balance;
        let p = table.players[seat];
        proof {
            lemma_stack_bounds(t.players@, seat as int);
        }
        let next = PlayerState {
            address: p.address,
            stack: p.stack + payout,
            bet_this_round: p.bet_this_round,
            committed: p.committed,
            folded: p.folded,
            all_in: p.all_in,
            sitting_out: p.sitting_out,
            seat_index: p.seat_index,
            total_buy_in: p.total_buy_in,
            rebuy_count: p.rebuy_count,
        };
        table.jackpot_balance = 0;
        table.players.set(seat, next);
        let ghost u = table;
        self.put_table(table_id, table);
        proof {
            lemma_stack_update(t.players@, seat as int, next);
            crate::poker_table::game::lemma_committed_update(t.players@, seat as int, next);
            assert(u.hand().chips() == t.hand().chips());
            assert forall|k: int| 0 <= k < u.players@.len() implies {
                let q = #[trigger] u.players@[k];
                &&& 0 <= q.stack
                &&& 0 <= q.bet_this_round <= q.committed
                &&& !u.phase.between_hands() ==> q.committed <= u.pot
                &&& q.seat_index == k
            } by {
                assert(t.players@[k].seat_index == k);
            }
            assert(table_wf(u));
            assert(self@.tables =~= st.tables.insert(table_id, u));
            lemma_table_changed(st, self@, table_id, u);
            assert(st.jackpot_paid(self@, table_id, *claimant, seat as int));
        }
        Ok(payout)
    }
}

/// The jackpot of a hand is paid at most once, and empties the pool.
pub proof fn jackpot_paid_once(
    st: ContractView,
    next: ContractView,
    table_id: u32,
    claimant: Address,
    seat: int,
    claim: HandClaim,
    other_seat: int,
    other: HandClaim,
    says: bool,
    says_other: bool,
)
    requires
        st.jackpot_refusal(table_id, seat, claim, says) is None,
        st.jackpot_paid(next, table_id, claimant, seat),
    ensures
        next.tables[table_id].jackpot_balance == 0,
        next.jackpot_refusal(table_id, other_seat, other, says_other) is Some,
{
}

/// What qualifies for which jackpot of a table: for a bad beat a losing hand of the least category or
/// above, with at least the score of the least hand; for a royal flush, a straight flush and four of
/// a kind the hand itself; and for any other name a hand with that least score. A hand that
/// qualifies as a bad beat still does with a better category or score.
pub proof fn table_jackpots_are_for_their_hands(t: TableState, c: HandClaim, better: HandClaim)
    ensures
        ({
            let least = (t.config.min_bad_beat_category << 28u32) | (t.config.min_bad_beat_rank
                << 4u32);
            &&& c.jackpot_type == bad_beat_name() ==> (claim_qualifies(t, c) <==> c.is_losing_hand
                && c.hand_score >= least && c.hand_category >= t.config.min_bad_beat_category)
            &&& c.jackpot_type == royal_flush_name() ==> (claim_qualifies(t, c)
                <==> c.hand_category == 9 && c.hand_rank == 12)
            &&& c.jackpot_type == straight_flush_name() ==> (claim_qualifies(t, c)
                <==> c.hand_category == 8)
            &&& c.jackpot_type == four_of_a_kind_name() ==> (claim_qualifies(t, c)
                <==> c.hand_category == 7)
            &&& c.jackpot_type != bad_beat_name() && c.jackpot_type != royal_flush_name()
                && c.jackpot_type != straight_flush_name() && c.jackpot_type
                != four_of_a_kind_name() ==> (claim_qualifies(t, c) <==> c.hand_score >= least)
        }),
        c.jackpot_type == bad_beat_name() && better.jackpot_type == bad_beat_name()
            && claim_qualifies(t, c) && better.is_losing_hand && better.hand_category
            >= c.hand_category && better.hand_score >= c.hand_score ==> claim_qualifies(t, better),
{
}

/// A jackpot is paid at an open table that has one, to a player who sits there, for a hand that
/// qualifies, once in a hand; and then it is. Where a verifier is set its word counts in place of
/// the table's own rules. The claimant gets all of it, and nobody else's chips move.
pub proof fn jackpots_go_to_the_claimant(
    st: ContractView,
    next: ContractView,
    table_id: u32,
    claimant: Address,
    seat: int,
    claim: HandClaim,
    says: bool,
    i: int,
)
    requires
        st.wf(),
        0 <= seat,
    ensures
        st.jackpot_refusal(table_id, seat, claim, says) is None <==> {
            let t = st.tables[table_id];
            &&& !(st.paused.contains_key(table_id) && st.paused[table_id])
            &&& st.tables.contains_key(table_id)
            &&& t.jackpot_balance > 0
            &&& seat < t.players@.len()
            &&& st.jackpot_verifiers.contains_key(table_id) ==> says
            &&& !st.jackpot_verifiers.contains_key(table_id) ==> claim_qualifies(t, claim)
            &&& !st.jackpot_claims.contains_key(HandKey { table_id, hand_number: t.hand_number })
        },
        st.tables.contains_key(table_id) && seat < st.tables[table_id].players@.len()
            && st.jackpot_paid(next, table_id, claimant, seat) ==> {
            let t = st.tables[table_id];
            let u = next.tables[table_id];
            &&& u.players@.len() == t.players@.len()
            &&& u.players@[seat].stack == t.players@[seat].stack + t.jackpot_balance
            &&& 0 <= i < t.players@.len() && i != seat ==> u.players@[i] == t.players@[i]
            &&& u.jackpot_balance == 0
            &&& u.rake_balance == t.rake_balance && u.pot == t.pot
            &&& next.jackpot_claims[HandKey { table_id, hand_number: t.hand_number }] == claimant
        },
{
    if st.tables.contains_key(table_id) && seat < st.tables[table_id].players@.len() {
        let t = st.tables[table_id];
        assert(table_wf(t));
        assert forall|j: int| 0 <= j < t.players@.len() implies (#[trigger] t.players@[j]).stack
            >= 0 by {
            assert(t.hand().players[j].stack >= 0);
        }
        lemma_stack_bounds(t.players@, seat);
        assert(t.hand().chips() <= i128::MAX);
    }
}

/// A verdict is given on a claim of a player at a table, by the verifier's word where one is set and
/// by the table's own rules otherwise.
pub proof fn verdicts_follow_the_verifier(
    st: ContractView,
    table_id: u32,
    seat: int,
    claim: HandClaim,
    says: bool,
)
    requires
        st.tables.contains_key(table_id),
        0 <= seat < st.tables[table_id].players@.len(),
    ensures
        st.jackpot_verdict(table_id, seat, claim, says) is Ok,
        st.jackpot_verifiers.contains_key(table_id) ==> st.jackpot_verdict(
            table_id,
            seat,
            claim,
            says,
        )->Ok_0 == says,
        !st.jackpot_verifiers.contains_key(table_id) ==> st.jackpot_verdict(
            table_id,
            seat,
            claim,
            says,
        )->Ok_0 == claim_qualifies(st.tables[table_id], claim),
{
}

} // verus!
