//! Chips that nobody collects: sweeping them to the treasury and claiming them back.

use super::{lemma_with_table, table_wf, ContractView, PokerTableContract};
use super::streets::lemma_same_funds;
use crate::host::{
    address_digest, address_eq, digest_of_address, Address, Bytes32, Party, Transfer,
};
use crate::poker_table::commit_reveal::{bits_of, pow256};
use crate::poker_table::game::{lemma_stack_bounds, stack_of};
use crate::poker_table::refunds::transfer_total;
use crate::poker_table::types::{
    GamePhase, PlayerState, PokerTableError, SidePot, SweepState, SweepView, SweptAmount,
    TableState,
};
use crate::seqs::{sum_by, Dup};
use soroban_sdk::Env;
use vstd::prelude::*;

verus! {

/// A transfer to the treasury of a table.
pub open spec fn to_treasury(t: TableState, amount: i128) -> Transfer {
    Transfer {
        token: t.config.token,
        from: Party::This,
        to: Party::Wallet(t.config.treasury->0),
        amount,
    }
}

/// What is swept from the players: every stack that is not empty.
pub open spec fn swept_from(players: Seq<PlayerState>) -> Seq<SweptAmount>
    decreases players.len(),
{
    if players.len() == 0 {
        Seq::empty()
    } else {
        let rest = swept_from(players.drop_last());
        let p = players.last();
        if p.stack > 0 {
            rest.push(SweptAmount { player: p.address, amount: p.stack })
        } else {
            rest
        }
    }
}

/// The transfers that sweep the stacks of `players`.
pub open spec fn stack_transfers(t: TableState, players: Seq<PlayerState>) -> Seq<Transfer>
    decreases players.len(),
{
    if players.len() == 0 {
        Seq::empty()
    } else {
        let rest = stack_transfers(t, players.drop_last());
        if players.last().stack > 0 {
            rest.push(to_treasury(t, players.last().stack))
        } else {
            rest
        }
    }
}

/// The transfers that sweep the side pots after the transfers `before`.
pub open spec fn side_pot_transfers(t: TableState, before: Seq<Transfer>, pots: Seq<SidePot>) -> Seq<
    Transfer,
>
    decreases pots.len(),
{
    if pots.len() == 0 {
        before
    } else {
        let rest = side_pot_transfers(t, before, pots.drop_last());
        if pots.last().amount > 0 {
            rest.push(to_treasury(t, pots.last().amount))
        } else {
            rest
        }
    }
}

/// All transfers of a sweep: the stacks, then the pot, then the side pots.
pub open spec fn sweep_transfers(t: TableState) -> Seq<Transfer> {
    let stacks = stack_transfers(t, t.players@);
    let with_pot = if t.pot > 0 {
        stacks.push(to_treasury(t, t.pot))
    } else {
        stacks
    };
    side_pot_transfers(t, with_pot, t.side_pots@)
}

/// The players with their stacks swept.
pub open spec fn stacks_swept(players: Seq<PlayerState>) -> Seq<PlayerState> {
    Seq::new(
        players.len(),
        |i: int|
            if players[i].stack > 0 {
                PlayerState { stack: 0, ..players[i] }
            } else {
                players[i]
            },
    )
}

/// The side pots together, as far as they hold anything.
pub open spec fn side_pot_total(pots: Seq<SidePot>) -> int
    decreases pots.len(),
{
    if pots.len() == 0 {
        0
    } else {
        side_pot_total(pots.drop_last()) + if pots.last().amount > 0 {
            pots.last().amount as int
        } else {
            0
        }
    }
}

impl ContractView {
    /// Why the chips of a table cannot be swept at ledger `now`, if they cannot.
    pub open spec fn sweep_refusal(self, table_id: u32, now: u32) -> Option<PokerTableError> {
        let t = self.tables[table_id];
        if self.paused_at(table_id) {
            Some(PokerTableError::ContractPaused)
        } else if !self.tables.contains_key(table_id) {
            Some(PokerTableError::TableNotFound)
        } else if t.config.treasury is None {
            Some(PokerTableError::TreasuryNotConfigured)
        } else if t.config.dead_chip_timeout_ledgers == 0 {
            Some(PokerTableError::DeadChipTimeoutNotConfigured)
        } else if !(t.phase is Settlement) {
            Some(PokerTableError::DeadChipsNotSweepable)
        } else if now < t.settlement_entered_ledger + t.config.dead_chip_timeout_ledgers {
            Some(PokerTableError::DeadChipTimeoutNotReached)
        } else if self.sweeps.contains_key(table_id) {
            Some(PokerTableError::DeadChipsAlreadySwept)
        } else {
            None
        }
    }

    /// Whether `next` is the state after the chips of a table are swept at ledger `now`.
    pub open spec fn swept(self, next: ContractView, table_id: u32, now: u32) -> bool {
        let t = self.tables[table_id];
        let u = next.tables[table_id];
        &&& u.players@ == stacks_swept(t.players@)
        &&& u.side_pots@.len() == 0
        &&& u == (TableState { players: u.players, side_pots: u.side_pots, pot: 0, ..t })
        &&& next == (ContractView {
            sweeps: self.sweeps.insert(
                table_id,
                SweepView {
                    swept_at_ledger: now,
                    total_swept: transfer_total(sweep_transfers(t)) as i128,
                    swept_amounts: swept_from(t.players@),
                },
            ),
            ..self.with_table(table_id, u)
        })
    }

    /// Why swept chips cannot be claimed back at ledger `now`, if they cannot. `amount` is what
    /// was swept from the player.
    pub open spec fn reclaim_refusal(self, table_id: u32, amount: i128, now: u32) -> Option<
        PokerTableError,
    > {
        let t = self.tables[table_id];
        if self.paused_at(table_id) {
            Some(PokerTableError::ContractPaused)
        } else if !self.sweeps.contains_key(table_id) {
            Some(PokerTableError::DeadChipsNotSwept)
        } else if !self.tables.contains_key(table_id) {
            Some(PokerTableError::TableNotFound)
        } else if t.config.reclaim_period_ledgers == 0 {
            Some(PokerTableError::ReclaimPeriodNotConfigured)
        } else if now > self.sweeps[table_id].swept_at_ledger + t.config.reclaim_period_ledgers {
            Some(PokerTableError::ReclaimPeriodElapsed)
        } else if amount == 0 {
            Some(PokerTableError::NoDeadChipsToReclaim)
        } else if t.config.treasury is None {
            Some(PokerTableError::TreasuryNotConfigured)
        } else {
            None
        }
    }
}

proof fn lemma_stack_sweep(t: TableState, players: Seq<PlayerState>)
    requires
        forall|i: int| 0 <= i < players.len() ==> (#[trigger] players[i]).stack >= 0,
    ensures
        transfer_total(stack_transfers(t, players)) == sum_by(players, stack_of()),
        sum_by(stacks_swept(players), stack_of()) == 0,
    decreases players.len(),
{
    if players.len() > 0 {
        let d = players.drop_last();
        assert forall|i: int| 0 <= i < d.len() implies (#[trigger] d[i]).stack >= 0 by {
            assert(d[i] == players[i]);
        }
        lemma_stack_sweep(t, d);
        assert(players[players.len() - 1].stack >= 0);
        assert(stacks_swept(players).drop_last() =~= stacks_swept(d));
        let rest = stack_transfers(t, d);
        assert(rest.push(to_treasury(t, players.last().stack)).drop_last() =~= rest);
    } else {
        assert(stacks_swept(players) =~= Seq::empty());
    }
}

proof fn lemma_side_sweep(t: TableState, before: Seq<Transfer>, pots: Seq<SidePot>)
    ensures
        transfer_total(side_pot_transfers(t, before, pots)) == transfer_total(before)
            + side_pot_total(pots),
        side_pot_total(pots) >= 0,
    decreases pots.len(),
{
    if pots.len() > 0 {
        let d = pots.drop_last();
        lemma_side_sweep(t, before, d);
        let rest = side_pot_transfers(t, before, d);
        assert(rest.push(to_treasury(t, pots.last().amount)).drop_last() =~= rest);
    }
}

proof fn lemma_side_prefix(pots: Seq<SidePot>, i: int)
    requires
        0 <= i <= pots.len(),
    ensures
        0 <= side_pot_total(pots.take(i)) <= side_pot_total(pots),
    decreases pots.len(),
{
    if i == pots.len() {
        assert(pots.take(i) =~= pots);
        if pots.len() > 0 {
            lemma_side_prefix(pots.drop_last(), pots.len() - 1);
            assert(pots.drop_last().take(pots.len() - 1) =~= pots.drop_last());
        }
    } else {
        assert(pots.drop_last().take(i) =~= pots.take(i));
        lemma_side_prefix(pots.drop_last(), i);
    }
}

proof fn lemma_stack_prefix(players: Seq<PlayerState>, i: int)
    requires
        0 <= i <= players.len(),
        forall|j: int| 0 <= j < players.len() ==> (#[trigger] players[j]).stack >= 0,
    ensures
        0 <= sum_by(players.take(i), stack_of()) <= sum_by(players, stack_of()),
    decreases players.len(),
{
    if i == players.len() {
        assert(players.take(i) =~= players);
        lemma_stack_bounds(players, 0);
    } else {
        let d = players.drop_last();
        assert forall|j: int| 0 <= j < d.len() implies (#[trigger] d[j]).stack >= 0 by {
            assert(d[j] == players[j]);
        }
        assert(d.take(i) =~= players.take(i));
        lemma_stack_prefix(d, i);
        assert(players[players.len() - 1].stack >= 0);
    }
}

/// What a sweep reports is what its transfers move: all stacks, the pot and the side pots.
pub proof fn sweep_moves_everything(t: TableState)
    requires
        table_wf(t),
    ensures
        transfer_total(sweep_transfers(t)) == sum_by(t.players@, stack_of()) + t.pot
            + side_pot_total(t.side_pots@),
        sum_by(stacks_swept(t.players@), stack_of()) == 0,
{
    lemma_stack_sweep(t, t.players@);
    let stacks = stack_transfers(t, t.players@);
    assert(stacks.push(to_treasury(t, t.pot)).drop_last() =~= stacks);
    let with_pot = if t.pot > 0 {
        stacks.push(to_treasury(t, t.pot))
    } else {
        stacks
    };
    lemma_side_sweep(t, with_pot, t.side_pots@);
}

/// Sweeps the stacks of a table.
fn sweep_stacks(table: &mut TableState, treasury: Address) -> (r: (
    i128,
    Vec<Transfer>,
    Vec<SweptAmount>,
))
    requires
        table_wf(*old(table)),
        old(table).config.treasury == Some(treasury),
    ensures
        r.0 == sum_by(old(table).players@, stack_of()),
        r.1@ == stack_transfers(*old(table), old(table).players@),
        r.2@ == swept_from(old(table).players@),
        final(table).players@ == stacks_swept(old(table).players@),
        *final(table) == (TableState { players: final(table).players, ..*old(table) }),
{
    let ghost t = *table;
    let ghost ps = table.players@;
    let token: Address = table.config.token;
    let mut total: i128 = 0;
    let mut transfers: Vec<Transfer> = Vec::new();
    let mut amounts: Vec<SweptAmount> = Vec::new();
    let mut i: usize = 0;
    proof {
        assert(ps.take(0) =~= Seq::empty());
        assert(table.players@ =~= stacks_swept(ps).take(0) + ps.skip(0));
        lemma_stack_bounds(ps, 0);
    }
    while i < table.players.len()
        invariant
            t == *old(table),
            ps == t.players@,
            table_wf(t),
            i <= ps.len(),
            token == t.config.token,
            t.config.treasury == Some(treasury),
            table.players@ == stacks_swept(ps).take(i as int) + ps.skip(i as int),
            *table == (TableState { players: table.players, ..t }),
            total == sum_by(ps.take(i as int), stack_of()),
            transfers@ == stack_transfers(t, ps.take(i as int)),
            amounts@ == swept_from(ps.take(i as int)),
        decreases ps.len() - i,
    {
        proof {
            assert(ps.take(i + 1).drop_last() =~= ps.take(i as int));
            assert(ps.take(i + 1).last() == ps[i as int]);
            assert(table.players@[i as int] == ps[i as int]);
            lemma_stack_prefix(ps, i + 1);
        }
        let p = table.players[i];
        if p.stack > 0 {
            transfers.push(
                Transfer {
                    token,
                    from: Party::This,
                    to: Party::Wallet(treasury),
                    amount: p.stack,
                },
            );
            total = total + p.stack;
            amounts.push(SweptAmount { player: p.address, amount: p.stack });
            let next = PlayerState {
                address: p.address,
                stack: 0,
                bet_this_round: p.bet_this_round,
                committed: p.committed,
                folded: p.folded,
                all_in: p.all_in,
                sitting_out: p.sitting_out,
                seat_index: p.seat_index,
                total_buy_in: p.total_buy_in,
                rebuy_count: p.rebuy_count,
            };
            table.players.set(i, next);
        }
        assert(table.players@ =~= stacks_swept(ps).take(i + 1) + ps.skip(i + 1));
        i += 1;
    }
    assert(ps.take(i as int) =~= ps);
    assert(table.players@ =~= stacks_swept(ps));
    (total, transfers, amounts)
}

/// The big-endian bytes of a number, `n` of them.
pub open spec fn be_bytes(u: int, n: nat) -> Seq<u8>
    decreases n,
{
    if n == 0 {
        Seq::empty()
    } else {
        be_bytes(u / 256, (n - 1) as nat).push((u % 256) as u8)
    }
}

/// The words that a claim starts with.
pub open spec fn claim_words() -> Seq<u8> {
    seq![
        0x72u8,
        0x65u8,
        0x63u8,
        0x6cu8,
        0x61u8,
        0x69u8,
        0x6du8,
        0x5fu8,
        0x64u8,
        0x65u8,
        0x61u8,
        0x64u8,
        0x5fu8,
        0x63u8,
        0x68u8,
        0x69u8,
        0x70u8,
        0x73u8,
        0x3au8,
    ]
}

/// What a player signs to claim their chips back: the words "reclaim_dead_chips:", the number of
/// the table, the amount and the ledger of the sweep, with colons between them.
pub open spec fn claim_message(table_id: u32, amount: i128, swept_at: u32) -> Seq<u8> {
    claim_words() + be_bytes(table_id as int, 4) + seq![0x3au8] + be_bytes(bits_of(amount), 16)
        + seq![0x3au8] + be_bytes(swept_at as int, 4)
}

/// Appends the big-endian bytes of a number, `n` of them.
fn push_be(out: &mut Vec<u8>, u: u128, n: usize)
    requires
        n <= 16,
    ensures
        final(out)@ == old(out)@ + be_bytes(u as int, n as nat),
    decreases n,
{
    if n == 0 {
        assert(out@ =~= old(out)@ + be_bytes(u as int, 0));
        return;
    }
    push_be(out, u / 256, n - 1);
    out.push((u % 256) as u8);
    assert(out@ =~= old(out)@ + be_bytes(u as int, n as nat));
}

/// Builds what a player signs to claim their chips back.
pub fn reclaim_message(table_id: u32, amount: i128, swept_at: u32) -> (r: Vec<u8>)
    ensures
        r@ == claim_message(table_id, amount, swept_at),
{
    let mut out: Vec<u8> = vec![
        0x72,
        0x65,
        0x63,
        0x6c,
        0x61,
        0x69,
        0x6d,
        0x5f,
        0x64,
        0x65,
        0x61,
        0x64,
        0x5f,
        0x63,
        0x68,
        0x69,
        0x70,
        0x73,
        0x3a,
    ];
    assert(out@ =~= claim_words());
    push_be(&mut out, table_id as u128, 4);
    out.push(0x3a);
    let bits: u128 = if amount >= 0 {
        amount as u128
    } else {
        u128::MAX - ((-(amount + 1)) as u128)
    };
    assert(bits == bits_of(amount));
    push_be(&mut out, bits, 16);
    out.push(0x3a);
    push_be(&mut out, swept_at as u128, 4);
    assert(out@ =~= claim_message(table_id, amount, swept_at));
    out
}

/// What was swept from the first entry with the digest of `player`, or nothing.
pub open spec fn swept_of(amounts: Seq<SweptAmount>, player: Address) -> i128
    decreases amounts.len(),
{
    if amounts.len() == 0 {
        0
    } else if address_digest(amounts[0].player) == address_digest(player) {
        amounts[0].amount
    } else {
        swept_of(amounts.skip(1), player)
    }
}

/// A claim on swept chips.
#[derive(Debug)]
pub struct Reclaim {
    pub amount: i128,
    /// The key by which the signature of the message is checked.
    pub key: Bytes32,
    /// What the player has to have signed.
    pub message: Vec<u8>,
    /// The payment that follows a good signature.
    pub transfer: Transfer,
}

impl PokerTableContract {
    /// Sweeps the chips of a table to its treasury at ledger `now`. Returns the sum and the
    /// transfers.
    pub fn sweep_dead_chips(&mut self, table_id: u32, now: u32) -> (r: Result<
        (i128, Vec<Transfer>),
        PokerTableError,
    >)
        requires
            old(self)@.wf(),
            old(self)@.tables.contains_key(table_id)
                ==> old(self)@.tables[table_id].hand().chips() + side_pot_total(
                old(self)@.tables[table_id].side_pots@,
            ) <= i128::MAX,
        ensures
            ({
                let t = old(self)@.tables[table_id];
                match old(self)@.sweep_refusal(table_id, now) {
                    Some(e) => r == Err::<(i128, Vec<Transfer>), _>(e) && final(self)@ == old(self)@,
                    None => {
                        &&& r matches Ok((sum, transfers)) && transfers@ == sweep_transfers(t)
                            && sum == transfer_total(transfers@)
                        &&& old(self)@.swept(final(self)@, table_id, now)
                        &&& final(self)@.funds(table_id) == old(self)@.funds(table_id) - sum_by(
                            t.players@,
                            stack_of(),
                        )
                    },
                }
            }),
            final(self)@.wf(),
    {
        let ghost st = self@;
        if self.is_paused(table_id) {
            return Err(PokerTableError::ContractPaused);
        }
        let treasury: Address = match self.get_table(table_id) {
            Ok(t) => {
                let a = match t.config.treasury {
                    Some(a) => a,
                    None => {
                        return Err(PokerTableError::TreasuryNotConfigured);
                    },
                };
                let wait: u32 = t.config.dead_chip_timeout_ledgers;
                if wait == 0 {
                    return Err(PokerTableError::DeadChipTimeoutNotConfigured);
                }
                if t.phase != GamePhase::Settlement {
                    return Err(PokerTableError::DeadChipsNotSweepable);
                }
                let elapsed: u32 = now.saturating_sub(t.settlement_entered_ledger);
                if elapsed < wait {
                    return Err(PokerTableError::DeadChipTimeoutNotReached);
                }
                a
            },
            Err(e) => {
                return Err(e);
            },
        };
        if self.sweeps.contains(&table_id) {
            return Err(PokerTableError::DeadChipsAlreadySwept);
        }
        let ghost t = st.tables[table_id];
        let mut table = self.take_table(table_id);
        let token: Address = table.config.token;
        proof {
            sweep_moves_everything(t);
            lemma_stack_bounds(t.players@, 0);
        }
        let (stacks, mut transfers, amounts) = sweep_stacks(&mut table, treasury);
        let mut total: i128 = stacks;
        if table.pot > 0 {
            transfers.push(
                Transfer {
                    token,
                    from: Party::This,
                    to: Party::Wallet(treasury),
                    amount: table.pot,
                },
            );
            total = total + table.pot;
            table.pot = 0;
        }
        let ghost base = transfers@;
        let ghost sum = total as int;
        let ghost pots = table.side_pots@;
        let mut i: usize = 0;
        while i < table.side_pots.len()
            invariant
                i <= pots.len(),
                pots == table.side_pots@,
                pots == t.side_pots@,
                token == t.config.token,
                t.config.treasury == Some(treasury),
                transfers@ == side_pot_transfers(t, base, pots.take(i as int)),
                total == sum + side_pot_total(pots.take(i as int)),
                0 <= sum,
                sum + side_pot_total(pots) <= i128::MAX,
            decreases pots.len() - i,
        {
            proof {
                assert(pots.take(i + 1).drop_last() =~= pots.take(i as int));
                assert(pots.take(i + 1).last() == pots[i as int]);
                lemma_side_prefix(pots, i + 1);
                lemma_side_prefix(pots, i as int);
            }
            let amount: i128 = table.side_pots[i].amount;
            if amount > 0 {
                transfers.push(
                    Transfer { token, from: Party::This, to: Party::Wallet(treasury), amount },
                );
                total = total + amount;
            }
            i += 1;
        }
        assert(pots.take(i as int) =~= pots);
        table.side_pots = Vec::new();
        self.sweeps.insert(
            table_id,
            SweepState { swept_at_ledger: now, total_swept: total, swept_amounts: amounts },
        );
        let ghost u = table;
        self.put_table(table_id, table);
        proof {
            assert(u.hand().chips() == t.hand().chips() - sum_by(t.players@, stack_of()));
            assert forall|k: int| 0 <= k < u.players@.len() implies {
                let p = #[trigger] u.players@[k];
                &&& 0 <= p.stack
                &&& 0 <= p.bet_this_round <= p.committed
                &&& p.seat_index == k
            } by {
                assert(t.players@[k].seat_index == k);
            }
            assert(u.hand().wf());
            assert(table_wf(u));
            let m = st.with_table(table_id, u);
            assert(m.queue_of(table_id) == st.queue_of(table_id));
            assert(st.funds(table_id) <= i128::MAX);
            lemma_with_table(st, table_id, u);
            assert(self@.tables =~= m.tables);
            lemma_same_funds(m, self@);
            assert(self@.queue_of(table_id) == st.queue_of(table_id));
            assert(st.swept(self@, table_id, now));
        }
        Ok((total, transfers))
    }

    /// Prepares the claim of a player on swept chips at ledger `now`. The chips are theirs once
    /// the signature of the message is checked.
    pub fn reclaim_dead_chips(&self, env: &Env, table_id: u32, player: &Address, now: u32) -> (r: Result<
        Reclaim,
        PokerTableError,
    >)
        ensures
            ({
                let t = self@.tables[table_id];
                let s = self@.sweeps[table_id];
                let amount = swept_of(s.swept_amounts, *player);
                match self@.reclaim_refusal(table_id, amount, now) {
                    Some(e) => r == Err::<Reclaim, _>(e),
                    None => r matches Ok(c) && {
                        &&& c.amount == amount
                        &&& c.key.words() == address_digest(*player)
                        &&& c.message@ == claim_message(table_id, amount, s.swept_at_ledger)
                        &&& c.transfer == (Transfer {
                            token: t.config.token,
                            from: Party::Wallet(t.config.treasury->0),
                            to: Party::Wallet(*player),
                            amount,
                        })
                    },
                }
            }),
    {
        if self.is_paused(table_id) {
            return Err(PokerTableError::ContractPaused);
        }
        let amount: i128 = match self.sweeps.get(&table_id) {
            Some(s) => find_swept(env, &s.swept_amounts, player),
            None => {
                return Err(PokerTableError::DeadChipsNotSwept);
            },
        };
        let key = digest_of_address(env, player);
        self.reclaim_dead_chips_as(table_id, player, amount, key, now)
    }

    /// The same, where what was swept from the player and the digest of their address are known.
    pub fn reclaim_dead_chips_as(
        &self,
        table_id: u32,
        player: &Address,
        amount: i128,
        key: Bytes32,
        now: u32,
    ) -> (r: Result<Reclaim, PokerTableError>)
        ensures
            ({
                let t = self@.tables[table_id];
                match self@.reclaim_refusal(table_id, amount, now) {
                    Some(e) => r == Err::<Reclaim, _>(e),
                    None => r matches Ok(c) && {
                        &&& c.amount == amount
                        &&& c.key == key
                        &&& c.message@ == claim_message(
                            table_id,
                            amount,
                            self@.sweeps[table_id].swept_at_ledger,
                        )
                        &&& c.transfer == (Transfer {
                            token: t.config.token,
                            from: Party::Wallet(t.config.treasury->0),
                            to: Party::Wallet(*player),
                            amount,
                        })
                    },
                }
            }),
    {
        if self.is_paused(table_id) {
            return Err(PokerTableError::ContractPaused);
        }
        let swept_at: u32 = match self.sweeps.get(&table_id) {
            Some(s) => s.swept_at_ledger,
            None => {
                return Err(PokerTableError::DeadChipsNotSwept);
            },
        };
        let t = match self.get_table(table_id) {
            Ok(t) => t,
            Err(e) => {
                return Err(e);
            },
        };
        let period: u32 = t.config.reclaim_period_ledgers;
        if period == 0 {
            return Err(PokerTableError::ReclaimPeriodNotConfigured);
        }
        let elapsed: u32 = now.saturating_sub(swept_at);
        if elapsed > period {
            return Err(PokerTableError::ReclaimPeriodElapsed);
        }
        if amount == 0 {
            return Err(PokerTableError::NoDeadChipsToReclaim);
        }
        let treasury: Address = match t.config.treasury {
            Some(a) => a,
            None => {
                return Err(PokerTableError::TreasuryNotConfigured);
            },
        };
        let message = reclaim_message(table_id, amount, swept_at);
        Ok(
            Reclaim {
                amount,
                key,
                message,
                transfer: Transfer {
                    token: t.config.token,
                    from: Party::Wallet(treasury),
                    to: Party::Wallet(*player),
                    amount,
                },
            },
        )
    }

    /// What was swept from a table.
    pub fn get_dead_chip_sweep_state(&self, table_id: u32) -> (r: Result<
        SweepState,
        PokerTableError,
    >)
        ensures
            match r {
                Ok(s) => self@.sweeps.contains_key(table_id) && s@ == self@.sweeps[table_id],
                Err(e) => e == PokerTableError::DeadChipsNotSwept && !self@.sweeps.contains_key(
                    table_id,
                ),
            },
    {
        match self.sweeps.get(&table_id) {
            Some(s) => Ok(s.dup()),
            None => Err(PokerTableError::DeadChipsNotSwept),
        }
    }
}

/// Finds what was swept from the first entry with the digest of `player`.
fn find_swept(env: &Env, amounts: &Vec<SweptAmount>, player: &Address) -> (r: i128)
    ensures
        r == swept_of(amounts@, *player),
{
    let mut i: usize = 0;
    assert(amounts@.skip(0) =~= amounts@);
    while i < amounts.len()
        invariant
            i <= amounts@.len(),
            swept_of(amounts@.skip(i as int), *player) == swept_of(amounts@, *player),
        decreases amounts@.len() - i,
    {
        assert(amounts@.skip(i as int).skip(1) =~= amounts@.skip(i + 1));
        assert(amounts@.skip(i as int)[0] == amounts@[i as int]);
        if address_eq(env, &amounts[i].player, player) {
            return amounts[i].amount;
        }
        i += 1;
    }
    assert(amounts@.skip(i as int) =~= Seq::empty());
    0
}

/// The chips of a table are swept at most once.
pub proof fn swept_once(st: ContractView, next: ContractView, table_id: u32, now: u32, later: u32)
    requires
        st.sweep_refusal(table_id, now) is None,
        st.swept(next, table_id, now),
    ensures
        next.sweep_refusal(table_id, later) is Some,
{
}

/// Chips are swept from a table that has a treasury and a timeout for it, once it has been settled for
/// that long, and once; and then they are.
pub proof fn settled_tables_are_swept_in_time(st: ContractView, table_id: u32, now: u32)
    ensures
        st.sweep_refusal(table_id, now) is None <==> {
            let t = st.tables[table_id];
            &&& !(st.paused.contains_key(table_id) && st.paused[table_id])
            &&& st.tables.contains_key(table_id)
            &&& t.config.treasury is Some
            &&& t.config.dead_chip_timeout_ledgers > 0
            &&& t.phase is Settlement
            &&& now >= t.settlement_entered_ledger + t.config.dead_chip_timeout_ledgers
            &&& !st.sweeps.contains_key(table_id)
        },
{
}

/// Swept chips can be reclaimed while the time for it lasts, and then they are.
pub proof fn swept_chips_are_reclaimed_in_time(
    st: ContractView,
    table_id: u32,
    amount: i128,
    now: u32,
)
    ensures
        st.reclaim_refusal(table_id, amount, now) is None <==> {
            let t = st.tables[table_id];
            &&& !(st.paused.contains_key(table_id) && st.paused[table_id])
            &&& st.sweeps.contains_key(table_id) && st.tables.contains_key(table_id)
            &&& t.config.reclaim_period_ledgers > 0
            &&& now <= st.sweeps[table_id].swept_at_ledger + t.config.reclaim_period_ledgers
            &&& amount != 0
            &&& t.config.treasury is Some
        },
{
}

/// A sweep takes every stack, and leaves a note of it at the ledger it was made. Nobody's record at the
/// table changes but the stack, and what the table has taken stays.
pub proof fn sweeps_take_every_stack(
    st: ContractView,
    next: ContractView,
    table_id: u32,
    now: u32,
    i: int,
)
    requires
        st.wf(),
        st.tables.contains_key(table_id),
        st.swept(next, table_id, now),
        0 <= i < st.tables[table_id].players@.len(),
    ensures
        ({
            let t = st.tables[table_id];
            let u = next.tables[table_id];
            &&& u.players@.len() == t.players@.len()
            &&& u.players@[i].stack == 0
            &&& u.players@[i].address == t.players@[i].address && u.players@[i].committed
                == t.players@[i].committed
            &&& u.pot == 0
            &&& u.rake_balance == t.rake_balance && u.jackpot_balance == t.jackpot_balance
            &&& next.sweeps[table_id].swept_at_ledger == now
        }),
{
    let t = st.tables[table_id];
    assert(table_wf(t));
    assert(t.hand().players[i].stack >= 0);
}

/// Whether two addresses have the same digest.
#[verifier::opaque]
pub open spec fn same_digest(a: Address, b: Address) -> bool {
    address_digest(a) == address_digest(b)
}

proof fn lemma_swept_step(amounts: Seq<SweptAmount>, player: Address)
    ensures
        swept_of(amounts, player) == (if amounts.len() == 0 {
            0
        } else if same_digest(amounts[0].player, player) {
            amounts[0].amount
        } else {
            swept_of(amounts.skip(1), player)
        }),
{
    reveal(same_digest);
}

proof fn lemma_swept_at(amounts: Seq<SweptAmount>, player: Address, k: int)
    requires
        0 <= k < amounts.len(),
        same_digest(amounts[k].player, player),
        forall|j: int| 0 <= j < k ==> !same_digest((#[trigger] amounts[j]).player, player),
    ensures
        swept_of(amounts, player) == amounts[k].amount,
    decreases k,
{
    lemma_swept_step(amounts, player);
    if k > 0 {
        assert(!same_digest(amounts[0].player, player));
        let rest = amounts.skip(1);
        assert(rest[k - 1] == amounts[k]);
        assert forall|j: int| 0 <= j < k - 1 implies !same_digest(
            (#[trigger] rest[j]).player,
            player,
        ) by {
            assert(rest[j] == amounts[j + 1]);
        }
        lemma_swept_at(rest, player, k - 1);
    }
}

proof fn lemma_not_swept(amounts: Seq<SweptAmount>, player: Address)
    requires
        forall|j: int|
            0 <= j < amounts.len() ==> !same_digest((#[trigger] amounts[j]).player, player),
    ensures
        swept_of(amounts, player) == 0,
    decreases amounts.len(),
{
    lemma_swept_step(amounts, player);
    if amounts.len() > 0 {
        let rest = amounts.skip(1);
        assert(!same_digest(amounts[0].player, player));
        assert forall|j: int| 0 <= j < rest.len() implies !same_digest(
            (#[trigger] rest[j]).player,
            player,
        ) by {
            assert(rest[j] == amounts[j + 1]);
        }
        lemma_not_swept(rest, player);
    }
}

/// Where the player at `i` alone has a digest, their stack is noted under it, and nothing else is.
proof fn lemma_swept_entry(players: Seq<PlayerState>, a: Address, i: int)
    requires
        forall|j: int|
            0 <= j < players.len() && j != i ==> !same_digest(
                (#[trigger] players[j]).address,
                a,
            ),
        0 <= i < players.len() ==> same_digest(players[i].address, a),
    ensures
        forall|k: int|
            0 <= k < swept_from(players).len() && same_digest(
                (#[trigger] swept_from(players)[k]).player,
                a,
            ) ==> 0 <= i < players.len() && swept_from(players)[k].amount == players[i].stack
                && players[i].stack > 0,
        0 <= i < players.len() && players[i].stack > 0 ==> exists|k: int|
            0 <= k < swept_from(players).len() && same_digest(
                (#[trigger] swept_from(players)[k]).player,
                a,
            ),
    decreases players.len(),
{
    if players.len() > 0 {
        let d = players.drop_last();
        let last = players[players.len() - 1];
        assert forall|j: int| 0 <= j < d.len() && j != i implies !same_digest(
            (#[trigger] d[j]).address,
            a,
        ) by {
            assert(d[j] == players[j]);
        }
        if 0 <= i < d.len() {
            assert(d[i] == players[i]);
        }
        lemma_swept_entry(d, a, i);
        let (x, y) = (swept_from(d), swept_from(players));
        assert forall|k: int|
            0 <= k < y.len() && same_digest((#[trigger] y[k]).player, a) implies 0 <= i
            < players.len() && y[k].amount == players[i].stack && players[i].stack > 0 by {
            if k < x.len() {
                assert(x[k] == y[k]);
            } else {
                assert(y[k].player == last.address);
            }
        }
        if 0 <= i < players.len() && players[i].stack > 0 {
            if i < d.len() {
                let k = choose|k: int|
                    0 <= k < x.len() && same_digest((#[trigger] x[k]).player, a);
                assert(y[k] == x[k]);
            } else {
                assert(y[y.len() - 1].player == last.address);
            }
        }
    }
}

proof fn lemma_first_entry(amounts: Seq<SweptAmount>, a: Address, k: int) -> (f: int)
    requires
        0 <= k < amounts.len(),
        same_digest(amounts[k].player, a),
    ensures
        0 <= f <= k,
        same_digest(amounts[f].player, a),
        forall|j: int| 0 <= j < f ==> !same_digest((#[trigger] amounts[j]).player, a),
    decreases k,
{
    if exists|j: int| 0 <= j < k && same_digest((#[trigger] amounts[j]).player, a) {
        let j = choose|j: int| 0 <= j < k && same_digest((#[trigger] amounts[j]).player, a);
        lemma_first_entry(amounts, a, j)
    } else {
        k
    }
}

/// What is noted of a sweep for a player is the stack that they had.
pub proof fn the_own_stack_can_be_reclaimed(players: Seq<PlayerState>, i: int)
    requires
        0 <= i < players.len(),
        players[i].stack >= 0,
        forall|j: int|
            0 <= j < players.len() && j != i ==> address_digest((#[trigger] players[j]).address)
                != address_digest(players[i].address),
    ensures
        swept_of(swept_from(players), players[i].address) == players[i].stack,
{
    let a = players[i].address;
    let amounts = swept_from(players);
    assert forall|j: int| 0 <= j < players.len() && j != i implies !same_digest(
        (#[trigger] players[j]).address,
        a,
    ) by {
        reveal(same_digest);
    }
    assert(same_digest(a, a)) by {
        reveal(same_digest);
    }
    lemma_swept_entry(players, a, i);
    if players[i].stack > 0 {
        let k = choose|k: int|
            0 <= k < amounts.len() && same_digest((#[trigger] amounts[k]).player, a);
        let f = lemma_first_entry(amounts, a, k);
        lemma_swept_at(amounts, a, f);
    } else {
        lemma_not_swept(amounts, a);
    }
}

proof fn lemma_to_treasury(t: TableState, players: Seq<PlayerState>, k: int)
    requires
        0 <= k < stack_transfers(t, players).len(),
    ensures
        stack_transfers(t, players)[k].to == Party::Wallet(t.config.treasury->0),
        stack_transfers(t, players)[k].from == Party::This,
        stack_transfers(t, players)[k].amount > 0,
    decreases players.len(),
{
    let d = players.drop_last();
    if k < stack_transfers(t, d).len() {
        assert(stack_transfers(t, players)[k] == stack_transfers(t, d)[k]);
        lemma_to_treasury(t, d, k);
    }
}

proof fn lemma_sides_to_treasury(
    t: TableState,
    before: Seq<Transfer>,
    pots: Seq<SidePot>,
    k: int,
)
    requires
        0 <= k < side_pot_transfers(t, before, pots).len(),
        forall|j: int|
            0 <= j < before.len() ==> (#[trigger] before[j]).to == Party::Wallet(
                t.config.treasury->0,
            ) && before[j].from == Party::This && before[j].amount > 0,
    ensures
        side_pot_transfers(t, before, pots)[k].to == Party::Wallet(t.config.treasury->0),
        side_pot_transfers(t, before, pots)[k].from == Party::This,
        side_pot_transfers(t, before, pots)[k].amount > 0,
    decreases pots.len(),
{
    if pots.len() > 0 {
        let d = pots.drop_last();
        if k < side_pot_transfers(t, before, d).len() {
            assert(side_pot_transfers(t, before, pots)[k] == side_pot_transfers(t, before, d)[k]);
            lemma_sides_to_treasury(t, before, d, k);
        }
    }
}

/// All that is swept goes to the treasury of the table.
pub proof fn sweeps_go_to_the_treasury(t: TableState, k: int)
    requires
        0 <= k < sweep_transfers(t).len(),
    ensures
        sweep_transfers(t)[k].to == Party::Wallet(t.config.treasury->0),
        sweep_transfers(t)[k].from == Party::This,
        sweep_transfers(t)[k].amount > 0,
{
    let stacks = stack_transfers(t, t.players@);
    let with_pot = if t.pot > 0 {
        stacks.push(to_treasury(t, t.pot))
    } else {
        stacks
    };
    assert forall|j: int| 0 <= j < with_pot.len() implies (#[trigger] with_pot[j]).to
        == Party::Wallet(t.config.treasury->0) && with_pot[j].from == Party::This
        && with_pot[j].amount > 0 by {
        if j < stacks.len() {
            lemma_to_treasury(t, t.players@, j);
            assert(with_pot[j] == stacks[j]);
        }
    }
    lemma_sides_to_treasury(t, with_pot, t.side_pots@, k);
}

/// A sweep that cannot be made is refused for a reason.
pub proof fn sweeps_are_refused_for_a_reason(
    st: ContractView,
    table_id: u32,
    now: u32,
)
    ensures
        ({
            let r = st.sweep_refusal(table_id, now);
            let t = st.tables[table_id];
            &&& r == Some(PokerTableError::ContractPaused)
                ==> st.paused.contains_key(table_id) && st.paused[table_id]
            &&& r == Some(PokerTableError::TableNotFound) ==> !st.tables.contains_key(table_id)
            &&& r == Some(PokerTableError::TreasuryNotConfigured) ==> t.config.treasury is None
            &&& r == Some(PokerTableError::DeadChipTimeoutNotConfigured)
                ==> t.config.dead_chip_timeout_ledgers == 0
            &&& r == Some(PokerTableError::DeadChipsNotSweepable) ==> !(t.phase is Settlement)
            &&& r == Some(PokerTableError::DeadChipTimeoutNotReached)
                ==> now < t.settlement_entered_ledger
                + t.config.dead_chip_timeout_ledgers
            &&& r == Some(PokerTableError::DeadChipsAlreadySwept)
                ==> st.sweeps.contains_key(table_id)
        }),
{
}

/// A reclaim that cannot be made is refused for a reason.
pub proof fn reclaims_are_refused_for_a_reason(
    st: ContractView,
    table_id: u32,
    amount: i128,
    now: u32,
)
    ensures
        ({
            let r = st.reclaim_refusal(table_id, amount, now);
            let t = st.tables[table_id];
            &&& r == Some(PokerTableError::ContractPaused)
                ==> st.paused.contains_key(table_id) && st.paused[table_id]
            &&& r == Some(PokerTableError::DeadChipsNotSwept) ==> !st.sweeps.contains_key(table_id)
            &&& r == Some(PokerTableError::TableNotFound) ==> !st.tables.contains_key(table_id)
            &&& r == Some(PokerTableError::ReclaimPeriodNotConfigured)
                ==> t.config.reclaim_period_ledgers == 0
            &&& r == Some(PokerTableError::ReclaimPeriodElapsed)
                ==> now > st.sweeps[table_id].swept_at_ledger
                + t.config.reclaim_period_ledgers
            &&& r == Some(PokerTableError::NoDeadChipsToReclaim) ==> amount == 0
            &&& r == Some(PokerTableError::TreasuryNotConfigured) ==> t.config.treasury is None
        }),
{
}

proof fn lemma_be_bytes(u: int, v: int, n: nat, bound: int)
    requires
        0 <= u < bound,
        0 <= v < bound,
        bound == pow256(n),
    ensures
        be_bytes(u, n).len() == n,
        be_bytes(u, n) == be_bytes(v, n) ==> u == v,
    decreases n,
{
    if n > 0 {
        let (a, b) = (u / 256, v / 256);
        let m = (n - 1) as nat;
        lemma_be_bytes(a, b, m, pow256(m));
        lemma_be_bytes(b, b, m, pow256(m));
        if be_bytes(u, n) == be_bytes(v, n) {
            let (x, y) = (be_bytes(a, m), be_bytes(b, m));
            assert(x.push((u % 256) as u8).last() == y.push((v % 256) as u8).last());
            assert(x =~= x.push((u % 256) as u8).drop_last());
            assert(y =~= y.push((v % 256) as u8).drop_last());
        }
    }
}

/// The message of a claim is for one table, one amount and one sweep: two claims that differ in any of
/// them have different messages.
#[verifier::rlimit(30)]
pub proof fn messages_bind_the_claim(
    table_id: u32,
    amount: i128,
    swept_at: u32,
    other_id: u32,
    other_amount: i128,
    other_at: u32,
)
    requires
        claim_message(table_id, amount, swept_at) == claim_message(
            other_id,
            other_amount,
            other_at,
        ),
    ensures
        table_id == other_id && amount == other_amount && swept_at == other_at,
        claim_message(table_id, amount, swept_at).len() == 45,
{
    reveal_with_fuel(pow256, 18);
    lemma_be_bytes(table_id as int, other_id as int, 4, pow256(4));
    lemma_be_bytes(other_id as int, other_id as int, 4, pow256(4));
    lemma_be_bytes(bits_of(amount), bits_of(other_amount), 16, pow256(16));
    lemma_be_bytes(bits_of(other_amount), bits_of(other_amount), 16, pow256(16));
    lemma_be_bytes(swept_at as int, other_at as int, 4, pow256(4));
    lemma_be_bytes(other_at as int, other_at as int, 4, pow256(4));
    let (m, n) = (
        claim_message(table_id, amount, swept_at),
        claim_message(other_id, other_amount, other_at),
    );
    assert(claim_words().len() == 19);
    assert(be_bytes(table_id as int, 4) =~= m.subrange(19, 23));
    assert(be_bytes(other_id as int, 4) =~= n.subrange(19, 23));
    assert(be_bytes(bits_of(amount), 16) =~= m.subrange(24, 40));
    assert(be_bytes(bits_of(other_amount), 16) =~= n.subrange(24, 40));
    assert(be_bytes(swept_at as int, 4) =~= m.subrange(41, 45));
    assert(be_bytes(other_at as int, 4) =~= n.subrange(41, 45));
}

} // verus!
