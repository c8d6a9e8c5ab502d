//! Setting up straddles and volunteering for them.

use super::{straddles_wf, table_wf, ContractView, PokerTableContract};
use crate::host::{address_digest, address_eq, Address};
use crate::poker_table::game::current_blind_level;
use crate::poker_table::seating::{find_matches, first_mark, first_marked, level_valid, matches_of};
use crate::poker_table::straddle::{by_volunteers, capped_straddle, valid_straddle};
use crate::poker_table::types::{
    ActiveStraddle, MississippiStraddle, PokerTableError, StraddleConfig, StraddlePosition,
};
use soroban_sdk::Env;
use vstd::prelude::*;

verus! {

impl ContractView {
    /// Why a player cannot volunteer a straddle, if they cannot. `seat` is the place of the player
    /// at the table, or one past the last.
    pub open spec fn volunteer_refusal(self, table_id: u32, seat: int) -> Option<PokerTableError> {
        let t = self.tables[table_id];
        if self.closed_to_play(table_id) is Some {
            self.closed_to_play(table_id)
        } else if !t.phase.between_hands() {
            Some(PokerTableError::HandAlreadyInProgress)
        } else if !self.straddles.contains_key(table_id) {
            Some(PokerTableError::InvalidStraddleConfig)
        } else if !by_volunteers(self.straddles[table_id].position) {
            Some(PokerTableError::StraddleNotAllowed)
        } else if self.volunteers.contains_key(table_id) {
            Some(PokerTableError::MississippiStraddleAlreadyPosted)
        } else if seat >= t.players@.len() {
            Some(PokerTableError::PlayerNotAtTable)
        } else {
            None
        }
    }

    /// The straddle that the player at place `seat` volunteers.
    pub open spec fn volunteered(self, table_id: u32, player: Address, seat: int) -> MississippiStraddle {
        let t = self.tables[table_id];
        let cfg = self.straddles[table_id];
        let level = t.config.blinds_schedule.levels@[t.current_blind_level as int];
        MississippiStraddle {
            player,
            seat: seat as u32,
            amount: capped_straddle(cfg, level.big_blind, false) as i128,
            live_only: cfg.live_only,
            allow_reraise: cfg.allow_reraise,
        }
    }
}

impl PokerTableContract {
    /// Sets up a straddle of two or three big blinds without a cap, or none.
    pub fn configure_straddle(&mut self, table_id: u32, multiplier: u32, position: StraddlePosition) -> (r:
        Result<(), PokerTableError>)
        requires
            old(self)@.wf(),
        ensures
            match old(self)@.setup_refusal(table_id) {
                Some(e) => r == Err::<(), _>(e) && final(self)@ == old(self)@,
                None => if valid_straddle(multiplier, 0) {
                    r is Ok && final(self)@ == (ContractView {
                        straddles: old(self)@.straddles.insert(
                            table_id,
                            StraddleConfig {
                                multiplier,
                                position,
                                live_only: false,
                                amount_cap: 0,
                                allow_reraise: true,
                            },
                        ),
                        ..old(self)@
                    })
                } else {
                    r == Err::<(), _>(PokerTableError::InvalidStraddleConfig) && final(self)@
                        == old(self)@
                },
            },
            final(self)@.wf(),
            r is Ok ==> (multiplier == 0 || multiplier == 2 || multiplier == 3) && {
                let c = final(self)@.straddles[table_id];
                c.multiplier == multiplier && c.position == position && c.amount_cap == 0
            },
    {
        self.configure_straddle_extended(table_id, multiplier, position, false, 0, true)
    }

    /// Sets up a straddle, between hands.
    pub fn configure_straddle_extended(
        &mut self,
        table_id: u32,
        multiplier: u32,
        position: StraddlePosition,
        live_only: bool,
        amount_cap: i128,
        allow_reraise: bool,
    ) -> (r: Result<(), PokerTableError>)
        requires
            old(self)@.wf(),
        ensures
            match old(self)@.setup_refusal(table_id) {
                Some(e) => r == Err::<(), _>(e) && final(self)@ == old(self)@,
                None => if valid_straddle(multiplier, amount_cap) {
                    r is Ok && final(self)@ == (ContractView {
                        straddles: old(self)@.straddles.insert(
                            table_id,
                            StraddleConfig {
                                multiplier,
                                position,
                                live_only,
                                amount_cap,
                                allow_reraise,
                            },
                        ),
                        ..old(self)@
                    })
                } else {
                    r == Err::<(), _>(PokerTableError::InvalidStraddleConfig) && final(self)@
                        == old(self)@
                },
            },
            final(self)@.wf(),
            r is Ok ==> (multiplier == 0 || multiplier == 2 || multiplier == 3) && amount_cap >= 0 && {
                let c = final(self)@.straddles[table_id];
                c.multiplier == multiplier && c.position == position && c.amount_cap == amount_cap
            },
    {
        let ghost st = self@;
        match self.open_to_setup(table_id) {
            Ok(()) => {},
            Err(e) => {
                return Err(e);
            },
        }
        if multiplier != 0 && multiplier != 2 && multiplier != 3 {
            return Err(PokerTableError::InvalidStraddleConfig);
        }
        if amount_cap < 0 {
            return Err(PokerTableError::InvalidStraddleConfig);
        }
        self.straddles.insert(
            table_id,
            StraddleConfig { multiplier, position, live_only, amount_cap, allow_reraise },
        );
        proof {
            lemma_straddles_changed(st, self@);
        }
        Ok(())
    }

    /// Volunteers a straddle for the next hand in a seated player's name.
    pub fn post_mississippi_straddle(&mut self, env: &Env, table_id: u32, player: &Address) -> (r: Result<
        (),
        PokerTableError,
    >)
        requires
            old(self)@.wf(),
            old(self)@.tables.contains_key(table_id) ==> {
                let t = old(self)@.tables[table_id];
                t.config.blinds_schedule.levels@[t.current_blind_level as int].big_blind * 3
                    <= i128::MAX
            },
        ensures
            ({
                let seat = first_mark(matches_of(old(self)@.tables[table_id].players@, *player));
                match old(self)@.volunteer_refusal(table_id, seat) {
                    Some(e) => r == Err::<(), _>(e) && final(self)@ == old(self)@,
                    None => r is Ok && final(self)@ == (ContractView {
                        volunteers: old(self)@.volunteers.insert(
                            table_id,
                            old(self)@.volunteered(table_id, *player, seat),
                        ),
                        ..old(self)@
                    }),
                }
            }),
            final(self)@.wf(),
    {
        match self.open_to_play(table_id) {
            Ok(t) => {
                let marks = find_matches(env, &t.players, player);
                let seat: usize = first_marked(&marks);
                self.post_mississippi_straddle_as(table_id, player, seat)
            },
            Err(e) => Err(e),
        }
    }

    /// The same, where the place of the player at the table is known; one past the last stands
    /// for a player who is not there.
    pub fn post_mississippi_straddle_as(&mut self, table_id: u32, player: &Address, seat: usize) -> (r: Result<
        (),
        PokerTableError,
    >)
        requires
            old(self)@.wf(),
            old(self)@.tables.contains_key(table_id) ==> {
                let t = old(self)@.tables[table_id];
                t.config.blinds_schedule.levels@[t.current_blind_level as int].big_blind * 3
                    <= i128::MAX
            },
        ensures
            match old(self)@.volunteer_refusal(table_id, seat as int) {
                Some(e) => r == Err::<(), _>(e) && final(self)@ == old(self)@,
                None => r is Ok && final(self)@ == (ContractView {
                    volunteers: old(self)@.volunteers.insert(
                        table_id,
                        old(self)@.volunteered(table_id, *player, seat as int),
                    ),
                    ..old(self)@
                }),
            },
            final(self)@.wf(),
    {
        let ghost st = self@;
        let (seats, big_blind): (usize, i128) = match self.open_to_play(table_id) {
            Ok(t) => {
                if !t.phase.is_between_hands() {
                    return Err(PokerTableError::HandAlreadyInProgress);
                }
                assert(level_valid(
                    t.config.blinds_schedule.levels@[t.current_blind_level as int],
                    t.current_blind_level == t.config.blinds_schedule.levels@.len() - 1,
                ));
                match current_blind_level(t) {
                    Ok(level) => (t.players.len(), level.big_blind),
                    Err(e) => {
                        return Err(e);
                    },
                }
            },
            Err(e) => {
                return Err(e);
            },
        };
        let cfg: StraddleConfig = match self.straddles.get(&table_id) {
            Some(c) => *c,
            None => {
                return Err(PokerTableError::InvalidStraddleConfig);
            },
        };
        if cfg.position != StraddlePosition::Mississippi && cfg.position != StraddlePosition::Any {
            return Err(PokerTableError::StraddleNotAllowed);
        }
        if self.volunteers.contains(&table_id) {
            return Err(PokerTableError::MississippiStraddleAlreadyPosted);
        }
        if seat >= seats {
            return Err(PokerTableError::PlayerNotAtTable);
        }
        let amount: i128 = cfg.effective_amount(big_blind, false);
        self.volunteers.insert(
            table_id,
            MississippiStraddle {
                player: *player,
                seat: seat as u32,
                amount,
                live_only: cfg.live_only,
                allow_reraise: cfg.allow_reraise,
            },
        );
        proof {
            lemma_straddles_changed(st, self@);
        }
        Ok(())
    }

    /// Takes a volunteered straddle back.
    pub fn cancel_mississippi_straddle(&mut self, env: &Env, table_id: u32, player: &Address) -> (r: Result<
        (),
        PokerTableError,
    >)
        requires
            old(self)@.wf(),
        ensures
            if old(self)@.paused_at(table_id) {
                r == Err::<(), _>(PokerTableError::ContractPaused) && final(self)@ == old(self)@
            } else if !old(self)@.volunteers.contains_key(table_id) {
                r == Err::<(), _>(PokerTableError::NoMississippiStraddle) && final(self)@
                    == old(self)@
            } else if address_digest(old(self)@.volunteers[table_id].player) != address_digest(
                *player,
            ) {
                r == Err::<(), _>(PokerTableError::NotAuthorizedCommittee) && final(self)@
                    == old(self)@
            } else {
                r is Ok && final(self)@ == (ContractView {
                    volunteers: old(self)@.volunteers.remove(table_id),
                    ..old(self)@
                })
            },
            final(self)@.wf(),
    {
        let own: bool = match self.volunteers.get(&table_id) {
            Some(v) => address_eq(env, &v.player, player),
            None => false,
        };
        self.cancel_mississippi_straddle_as(table_id, own)
    }

    /// The same, where it is known whether the player has volunteered it.
    pub fn cancel_mississippi_straddle_as(&mut self, table_id: u32, own: bool) -> (r: Result<
        (),
        PokerTableError,
    >)
        requires
            old(self)@.wf(),
        ensures
            if old(self)@.paused_at(table_id) {
                r == Err::<(), _>(PokerTableError::ContractPaused) && final(self)@ == old(self)@
            } else if !old(self)@.volunteers.contains_key(table_id) {
                r == Err::<(), _>(PokerTableError::NoMississippiStraddle) && final(self)@
                    == old(self)@
            } else if !own {
                r == Err::<(), _>(PokerTableError::NotAuthorizedCommittee) && final(self)@
                    == old(self)@
            } else {
                r is Ok && final(self)@ == (ContractView {
                    volunteers: old(self)@.volunteers.remove(table_id),
                    ..old(self)@
                })
            },
            final(self)@.wf(),
    {
        let ghost st = self@;
        if self.is_paused(table_id) {
            return Err(PokerTableError::ContractPaused);
        }
        if !self.volunteers.contains(&table_id) {
            return Err(PokerTableError::NoMississippiStraddle);
        }
        if !own {
            return Err(PokerTableError::NotAuthorizedCommittee);
        }
        let _ = self.volunteers.remove(&table_id);
        proof {
            lemma_straddles_changed(st, self@);
        }
        Ok(())
    }

    /// How straddles are set up at a table.
    pub fn get_straddle_config(&self, table_id: u32) -> (r: Option<StraddleConfig>)
        ensures
            r == self@.straddles.index_opt(table_id),
    {
        match self.straddles.get(&table_id) {
            Some(c) => Some(*c),
            None => None,
        }
    }

    /// The straddle that a player has volunteered for the next hand.
    pub fn get_mississippi_pending(&self, table_id: u32) -> (r: Option<MississippiStraddle>)
        ensures
            r == self@.volunteers.index_opt(table_id),
    {
        match self.volunteers.get(&table_id) {
            Some(v) => Some(*v),
            None => None,
        }
    }

    /// The straddle of the current hand.
    pub fn get_active_straddle(&self, table_id: u32) -> (r: Option<ActiveStraddle>)
        ensures
            r == self@.active_straddles.index_opt(table_id),
    {
        match self.active_straddles.get(&table_id) {
            Some(a) => Some(*a),
            None => None,
        }
    }
}

proof fn lemma_straddles_changed(st: ContractView, n: ContractView)
    requires
        st.wf(),
        n == (ContractView { straddles: n.straddles, volunteers: n.volunteers, ..st }),
        straddles_wf(n.straddles, n.volunteers),
    ensures
        n.wf(),
{
    assert forall|id: u32| #[trigger] n.tables.contains_key(id) implies n.funds(id)
        <= i128::MAX by {
        assert(st.tables.contains_key(id));
        assert(n.funds(id) == st.funds(id));
    }
}

/// A seated player may volunteer to straddle between hands at an open table whose straddle is for
/// volunteers, as long as nobody has; and then they do. The straddle is the multiple of the big blind
/// in force, up to its cap, on the terms of the table.
pub proof fn volunteers_straddle_once(
    st: ContractView,
    table_id: u32,
    player: Address,
    seat: int,
)
    requires
        st.wf(),
        0 <= seat,
    ensures
        st.volunteer_refusal(table_id, seat) is None <==> {
            let t = st.tables[table_id];
            let cfg = st.straddles[table_id];
            &&& !(st.paused.contains_key(table_id) && st.paused[table_id])
            &&& st.tables.contains_key(table_id)
            &&& t.phase is Waiting || t.phase is Settlement
            &&& st.straddles.contains_key(table_id)
            &&& cfg.position is Mississippi || cfg.position is Any
            &&& !st.volunteers.contains_key(table_id)
            &&& seat < t.players@.len()
        },
        st.tables.contains_key(table_id) && seat < st.tables[table_id].players@.len() ==> {
            let t = st.tables[table_id];
            let cfg = st.straddles[table_id];
            let blind = t.config.blinds_schedule.levels@[t.current_blind_level as int].big_blind;
            let whole = cfg.multiplier * blind;
            let v = st.volunteered(table_id, player, seat);
            &&& v.player == player && v.seat == seat
            &&& v.live_only == cfg.live_only && v.allow_reraise == cfg.allow_reraise
            &&& whole <= i128::MAX && (cfg.amount_cap <= 0 || whole <= cfg.amount_cap) ==> v.amount
                == whole
            &&& 0 < cfg.amount_cap < whole ==> v.amount == cfg.amount_cap
        },
{
    if st.tables.contains_key(table_id) && seat < st.tables[table_id].players@.len() {
        let t = st.tables[table_id];
        assert(table_wf(t));
        let levels = t.config.blinds_schedule.levels@;
        let k = t.current_blind_level as int;
        assert(level_valid(levels[k], k == levels.len() - 1));
        let (m, b) = (st.straddles[table_id].multiplier as int, levels[k].big_blind as int);
        assert(m * b == b * m && b * m >= 0) by (nonlinear_arith)
            requires
                m >= 0,
                b >= 0,
        ;
    }
}

} // verus!
