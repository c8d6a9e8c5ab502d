//! Signs that one player passes chips to another.

use crate::arith::{div_to_zero, div_trunc};
use crate::host::Address;
use vstd::prelude::*;

verus! {

/// Losses to one opponent that are suspicious.
pub const REPEATED_LOSS_THRESHOLD: u32 = 5;

/// The rate of folds against one opponent, in percent, that is suspicious.
pub const ABNORMAL_FOLD_RATE_THRESHOLD: u32 = 80;

/// The hands over which signs are counted.
pub const TRACKING_WINDOW: u32 = 20;

/// How a player fared against one opponent.
#[derive(Clone, Copy, Debug, PartialEq, Eq, Structural)]
pub struct PlayerInteractionStats {
    pub losses_to_opponent: u32,
    pub folds_against_opponent: u32,
    pub total_interactions: u32,
    pub avg_loss_amount: i128,
}

impl PlayerInteractionStats {
    /// The rate of folds, in percent.
    pub open spec fn rate(self) -> int {
        if self.total_interactions == 0 {
            0
        } else {
            self.folds_against_opponent * 100 / self.total_interactions as int
        }
    }

    /// The folds can be counted in percent.
    pub open spec fn rate_fits(self) -> bool {
        self.total_interactions != 0 ==> self.folds_against_opponent * 100 <= u32::MAX
    }

    /// Several losses, each of them small.
    pub open spec fn small_losses(self) -> bool {
        self.losses_to_opponent > 3 && 0 < self.avg_loss_amount < 500
    }

    pub open spec fn suspicious(self) -> bool {
        ||| self.losses_to_opponent >= REPEATED_LOSS_THRESHOLD
        ||| self.rate() >= ABNORMAL_FOLD_RATE_THRESHOLD
        ||| self.small_losses()
    }

    /// How strong the signs are, out of a hundred.
    pub open spec fn confidence(self) -> int {
        (if self.losses_to_opponent >= REPEATED_LOSS_THRESHOLD {
            40int
        } else {
            0
        }) + (if self.rate() >= ABNORMAL_FOLD_RATE_THRESHOLD {
            35int
        } else {
            0
        }) + (if self.small_losses() {
            25int
        } else {
            0
        })
    }

    /// Losses and folds are counted among the hands played.
    pub open spec fn wf(self) -> bool {
        self.losses_to_opponent + self.folds_against_opponent <= self.total_interactions
    }

    pub fn new() -> (r: Self)
        ensures
            r == (PlayerInteractionStats {
                losses_to_opponent: 0,
                folds_against_opponent: 0,
                total_interactions: 0,
                avg_loss_amount: 0,
            }),
            r.wf(),
    {
        PlayerInteractionStats {
            losses_to_opponent: 0,
            folds_against_opponent: 0,
            total_interactions: 0,
            avg_loss_amount: 0,
        }
    }

    /// The rate of folds, in percent.
    pub fn fold_rate(&self) -> (r: u32)
        requires
            self.rate_fits(),
        ensures
            r == self.rate(),
    {
        if self.total_interactions == 0 {
            return 0;
        }
        proof {
            let x = self.folds_against_opponent * 100;
            let n = self.total_interactions as int;
            assert(0 <= x / n <= x) by (nonlinear_arith)
                requires
                    x >= 0,
                    n > 0,
            ;
        }
        (self.folds_against_opponent * 100) / self.total_interactions
    }

    /// Whether the play suggests that chips are passed on.
    pub fn is_suspicious(&self) -> (r: bool)
        requires
            self.losses_to_opponent < REPEATED_LOSS_THRESHOLD ==> self.rate_fits(),
        ensures
            r == self.suspicious(),
    {
        if self.losses_to_opponent >= REPEATED_LOSS_THRESHOLD {
            return true;
        }
        if self.fold_rate() >= ABNORMAL_FOLD_RATE_THRESHOLD {
            return true;
        }
        if self.losses_to_opponent > 3 && self.avg_loss_amount > 0 && self.avg_loss_amount < 500 {
            return true;
        }
        false
    }
}

/// A suspicion.
#[derive(Clone, Copy, Debug, PartialEq, Eq, Structural)]
pub struct ChipDumpingFlag {
    pub suspected_dumper: Address,
    pub suspected_receiver: Address,
    pub reason: ChipDumpingReason,
    /// Out of a hundred.
    pub confidence: u32,
}

#[derive(Clone, Copy, Debug, PartialEq, Eq, Structural)]
pub enum ChipDumpingReason {
    RepeatedLosses,
    AbnormalFoldRate,
    ShortStackTargeting,
    SuspiciousLossPattern,
}

/// The suspicion that the play of one player against another raises, if its signs are strong
/// enough.
pub open spec fn flag_of(a: Address, b: Address, stats: PlayerInteractionStats) -> Option<
    ChipDumpingFlag,
> {
    if stats.confidence() >= 50 {
        Some(
            ChipDumpingFlag {
                suspected_dumper: a,
                suspected_receiver: b,
                reason: if stats.losses_to_opponent >= REPEATED_LOSS_THRESHOLD {
                    ChipDumpingReason::RepeatedLosses
                } else if stats.rate() >= ABNORMAL_FOLD_RATE_THRESHOLD {
                    ChipDumpingReason::AbnormalFoldRate
                } else {
                    ChipDumpingReason::SuspiciousLossPattern
                },
                confidence: stats.confidence() as u32,
            },
        )
    } else {
        None
    }
}

/// Weighs the play of one player against another.
pub fn detect_chip_dumping(
    player_a: &Address,
    player_b: &Address,
    stats: &PlayerInteractionStats,
) -> (r: Option<ChipDumpingFlag>)
    requires
        stats.rate_fits(),
    ensures
        r == flag_of(*player_a, *player_b, *stats),
{
    if !stats.is_suspicious() {
        return None;
    }
    let mut confidence: u32 = 0;
    let mut reason = ChipDumpingReason::SuspiciousLossPattern;
    if stats.losses_to_opponent >= REPEATED_LOSS_THRESHOLD {
        confidence = confidence + 40;
        reason = ChipDumpingReason::RepeatedLosses;
    }
    if stats.fold_rate() >= ABNORMAL_FOLD_RATE_THRESHOLD {
        confidence = confidence + 35;
        if confidence == 35 {
            reason = ChipDumpingReason::AbnormalFoldRate;
        }
    }
    if stats.losses_to_opponent > 3 && stats.avg_loss_amount > 0 && stats.avg_loss_amount < 500 {
        confidence = confidence + 25;
    }
    if confidence > 100 {
        confidence = 100;
    }
    if confidence >= 50 {
        Some(
            ChipDumpingFlag {
                suspected_dumper: *player_a,
                suspected_receiver: *player_b,
                reason,
                confidence,
            },
        )
    } else {
        None
    }
}

/// The counts after one more hand, before old hands are let go.
pub open spec fn counted(s: PlayerInteractionStats, won: bool, folded: bool, pot: i128) -> PlayerInteractionStats {
    let lost = !won && !folded;
    PlayerInteractionStats {
        total_interactions: (s.total_interactions + 1) as u32,
        folds_against_opponent: if folded {
            (s.folds_against_opponent + 1) as u32
        } else {
            s.folds_against_opponent
        },
        losses_to_opponent: if lost {
            (s.losses_to_opponent + 1) as u32
        } else {
            s.losses_to_opponent
        },
        avg_loss_amount: if lost {
            div_to_zero(
                s.avg_loss_amount * s.losses_to_opponent + pot,
                s.losses_to_opponent + 1,
            ) as i128
        } else {
            s.avg_loss_amount
        },
    }
}

/// The counts with old hands let go: beyond the window, each count loses a fifth.
pub open spec fn windowed(s: PlayerInteractionStats) -> PlayerInteractionStats {
    if s.total_interactions > TRACKING_WINDOW {
        PlayerInteractionStats {
            losses_to_opponent: (s.losses_to_opponent * 80 / 100) as u32,
            folds_against_opponent: (s.folds_against_opponent * 80 / 100) as u32,
            total_interactions: TRACKING_WINDOW,
            ..s
        }
    } else {
        s
    }
}

/// The counts of one more hand stay within the numbers there are.
pub open spec fn outcome_fits(s: PlayerInteractionStats, won: bool, folded: bool, pot: i128) -> bool {
    let lost = !won && !folded;
    let n = counted(s, won, folded, pot);
    &&& s.total_interactions < u32::MAX
    &&& folded ==> s.folds_against_opponent < u32::MAX
    &&& lost ==> {
        &&& s.losses_to_opponent < u32::MAX
        &&& i128::MIN <= s.avg_loss_amount * s.losses_to_opponent <= i128::MAX
        &&& i128::MIN < s.avg_loss_amount * s.losses_to_opponent + pot <= i128::MAX
    }
    &&& s.total_interactions >= TRACKING_WINDOW ==> n.losses_to_opponent * 80 <= u32::MAX
        && n.folds_against_opponent * 80 <= u32::MAX
}

/// Counts one more hand.
pub fn record_hand_outcome(
    stats: &mut PlayerInteractionStats,
    player_a_won: bool,
    player_a_folded: bool,
    pot_amount: i128,
)
    requires
        outcome_fits(*old(stats), player_a_won, player_a_folded, pot_amount),
    ensures
        *final(stats) == windowed(
            counted(*old(stats), player_a_won, player_a_folded, pot_amount),
        ),
        old(stats).total_interactions < 20 ==> {
            &&& final(stats).total_interactions == old(stats).total_interactions + 1
            &&& final(stats).folds_against_opponent == old(stats).folds_against_opponent + (
            if player_a_folded {
                1int
            } else {
                0
            })
            &&& final(stats).losses_to_opponent == old(stats).losses_to_opponent + (
            if !player_a_won && !player_a_folded {
                1int
            } else {
                0
            })
        },
        old(stats).total_interactions >= 20 ==> final(stats).total_interactions == 20,
{
    stats.total_interactions = stats.total_interactions + 1;
    if player_a_folded {
        stats.folds_against_opponent = stats.folds_against_opponent + 1;
    }
    if !player_a_won && !player_a_folded {
        stats.losses_to_opponent = stats.losses_to_opponent + 1;
        let total_losses: i128 = stats.losses_to_opponent as i128;
        let prev_total: i128 = stats.avg_loss_amount * (total_losses - 1);
        stats.avg_loss_amount = div_trunc(prev_total + pot_amount, total_losses);
    }
    if stats.total_interactions > TRACKING_WINDOW {
        stats.losses_to_opponent = (stats.losses_to_opponent * 80) / 100;
        stats.folds_against_opponent = (stats.folds_against_opponent * 80) / 100;
        stats.total_interactions = TRACKING_WINDOW;
    }
}

/// The play of one player against another.
#[derive(Clone, Copy, Debug, PartialEq, Eq, Structural)]
pub struct Interaction {
    pub player_a: Address,
    pub player_b: Address,
    pub stats: PlayerInteractionStats,
}

/// The suspicions that a list raises, in order.
pub open spec fn flags_of(all: Seq<Interaction>) -> Seq<ChipDumpingFlag>
    decreases all.len(),
{
    if all.len() == 0 {
        Seq::empty()
    } else {
        let rest = flags_of(all.drop_last());
        let x = all.last();
        match flag_of(x.player_a, x.player_b, x.stats) {
            Some(f) => rest.push(f),
            None => rest,
        }
    }
}

/// Collects the suspicions that a list raises.
pub fn get_flagged_interactions(all_stats: &Vec<Interaction>) -> (r: Vec<ChipDumpingFlag>)
    requires
        forall|i: int| 0 <= i < all_stats@.len() ==> (#[trigger] all_stats@[i]).stats.rate_fits(),
    ensures
        r@ == flags_of(all_stats@),
{
    let mut flags: Vec<ChipDumpingFlag> = Vec::new();
    let mut i: usize = 0;
    while i < all_stats.len()
        invariant
            i <= all_stats@.len(),
            forall|j: int|
                0 <= j < all_stats@.len() ==> (#[trigger] all_stats@[j]).stats.rate_fits(),
            flags@ == flags_of(all_stats@.take(i as int)),
        decreases all_stats@.len() - i,
    {
        assert(all_stats@.take(i + 1).drop_last() =~= all_stats@.take(i as int));
        let x = all_stats[i];
        assert(x.stats.rate_fits());
        if let Some(flag) = detect_chip_dumping(&x.player_a, &x.player_b, &x.stats) {
            flags.push(flag);
        }
        i += 1;
    }
    assert(all_stats@.take(i as int) =~= all_stats@);
    flags
}

/// Whether a player wins mostly against short stacks: at least 70 percent of five wins or more.
pub fn detect_short_stack_targeting(wins_vs_short_stacks: u32, total_wins: u32) -> (r: bool)
    requires
        total_wins >= 5 ==> wins_vs_short_stacks * 100 <= u32::MAX,
    ensures
        r == (total_wins >= 5 && wins_vs_short_stacks * 100 / (total_wins as int) >= 70),
        r <==> total_wins >= 5 && 10 * wins_vs_short_stacks >= 7 * total_wins,
{
    if total_wins < 5 {
        return false;
    }
    let rate: u32 = (wins_vs_short_stacks * 100) / total_wins;
    assert(rate >= 70 <==> 10 * wins_vs_short_stacks >= 7 * total_wins) by (nonlinear_arith)
        requires
            rate == wins_vs_short_stacks * 100 / (total_wins as int),
            total_wins >= 5,
    ;
    rate >= 70
}

/// The window bounds what is counted, and losses and folds stay among the hands played.
pub proof fn counts_stay_in_window(s: PlayerInteractionStats, won: bool, folded: bool, pot: i128)
    requires
        s.wf(),
        s.total_interactions <= TRACKING_WINDOW,
    ensures
        windowed(counted(s, won, folded, pot)).wf(),
        windowed(counted(s, won, folded, pot)).total_interactions <= TRACKING_WINDOW,
{
}

/// A suspicion is raised only by suspicious play, and never with a confidence below half.
pub proof fn flags_are_founded(a: Address, b: Address, s: PlayerInteractionStats)
    requires
        flag_of(a, b, s) is Some,
    ensures
        s.suspicious(),
        50 <= (flag_of(a, b, s)->0).confidence <= 100,
{
}

/// A fold rate is the percentage of folds, with fractions dropped.
pub proof fn fold_rate_is_a_percentage(s: PlayerInteractionStats)
    requires
        s.total_interactions > 0,
    ensures
        s.rate() * s.total_interactions <= 100 * s.folds_against_opponent < (s.rate() + 1)
            * s.total_interactions,
{
    let (f, n, r) = (s.folds_against_opponent as int, s.total_interactions as int, s.rate());
    assert(r * n <= f * 100 < (r + 1) * n) by (nonlinear_arith)
        requires
            r == f * 100 / n,
            n > 0,
    ;
}

/// There are three signs: five losses or more to the same opponent, folds against them four times in
/// five or more, and more than three losses of less than 500 on average. One sign makes a pair
/// suspicious; two are needed to flag it, and are enough. The first of the signs is the reason.
pub proof fn two_signs_make_a_flag(a: Address, b: Address, s: PlayerInteractionStats)
    requires
        s.total_interactions > 0,
    ensures
        ({
            let losses = s.losses_to_opponent >= 5;
            let folds = 100 * s.folds_against_opponent >= 80 * s.total_interactions;
            let small = s.losses_to_opponent > 3 && 0 < s.avg_loss_amount < 500;
            &&& s.suspicious() <==> losses || folds || small
            &&& flag_of(a, b, s) is Some <==> (losses && folds) || (losses && small) || (folds
                && small)
            &&& flag_of(a, b, s) matches Some(f) ==> {
                &&& f.suspected_dumper == a && f.suspected_receiver == b
                &&& f.reason is RepeatedLosses <==> losses
                &&& f.reason is AbnormalFoldRate <==> !losses && folds
                &&& losses && folds && small ==> f.confidence == 100
                &&& losses && folds && !small ==> f.confidence == 75
                &&& losses && !folds && small ==> f.confidence == 65
                &&& !losses && folds && small ==> f.confidence == 60
            }
        }),
{
    fold_rate_is_a_percentage(s);
    let (f, n, r) = (s.folds_against_opponent as int, s.total_interactions as int, s.rate());
    assert(r >= 80 <==> 100 * f >= 80 * n) by (nonlinear_arith)
        requires
            r * n <= 100 * f < (r + 1) * n,
            n > 0,
    ;
}

/// Every hand counts as one; a fold counts as a fold and only that, a win as neither a fold nor a
/// loss, and any other hand as a loss. The average loss is then that of all losses so far, with
/// fractions dropped.
pub proof fn hands_are_counted_once(s: PlayerInteractionStats, won: bool, folded: bool, pot: i128)
    requires
        outcome_fits(s, won, folded, pot),
        s.avg_loss_amount >= 0,
        pot >= 0,
    ensures
        ({
            let n = counted(s, won, folded, pot);
            let lost = !won && !folded;
            &&& n.total_interactions == s.total_interactions + 1
            &&& n.folds_against_opponent - s.folds_against_opponent == (if folded {
                1int
            } else {
                0
            })
            &&& n.losses_to_opponent - s.losses_to_opponent == (if lost {
                1int
            } else {
                0
            })
            &&& !lost ==> n.avg_loss_amount == s.avg_loss_amount
            &&& lost ==> n.avg_loss_amount * n.losses_to_opponent <= s.avg_loss_amount
                * s.losses_to_opponent + pot < (n.avg_loss_amount + 1) * n.losses_to_opponent
        }),
{
    if !won && !folded {
        let all = s.avg_loss_amount * s.losses_to_opponent + pot;
        let n = s.losses_to_opponent + 1;
        assert(all >= 0) by (nonlinear_arith)
            requires
                s.avg_loss_amount >= 0,
                s.losses_to_opponent >= 0,
                pot >= 0,
                all == s.avg_loss_amount * s.losses_to_opponent + pot,
        ;
        let q = all / n;
        assert(q * n <= all < (q + 1) * n && 0 <= q <= all) by (nonlinear_arith)
            requires
                q == all / n,
                n > 0,
                all >= 0,
        ;
    }
}

/// Up to twenty hands count in full; past that, a fifth of the counts is forgotten and the number of
/// hands stays at twenty.
pub proof fn old_hands_fade(s: PlayerInteractionStats)
    ensures
        s.total_interactions <= 20 ==> windowed(s) == s,
        s.total_interactions > 20 ==> {
            let n = windowed(s);
            &&& n.total_interactions == 20
            &&& 5 * n.losses_to_opponent <= 4 * s.losses_to_opponent < 5 * (n.losses_to_opponent
                + 1)
            &&& 5 * n.folds_against_opponent <= 4 * s.folds_against_opponent < 5 * (
            n.folds_against_opponent + 1)
            &&& n.avg_loss_amount == s.avg_loss_amount
        },
{
}

/// Among many pairs, those that are flagged are the ones that are flagged each for itself, in their
/// order.
pub proof fn every_flagged_pair_is_listed(all: Seq<Interaction>, i: int)
    requires
        0 <= i < all.len(),
    ensures
        flag_of(all[i].player_a, all[i].player_b, all[i].stats) matches Some(f) ==> flags_of(
            all,
        ).contains(f),
        flags_of(all).len() <= all.len(),
    decreases all.len(),
{
    let d = all.drop_last();
    if i < d.len() {
        assert(d[i] == all[i]);
        every_flagged_pair_is_listed(d, i);
        if let Some(f) = flag_of(all[i].player_a, all[i].player_b, all[i].stats) {
            let k = flags_of(d).index_of(f);
            assert(flags_of(all)[k] == f);
        }
    } else {
        if d.len() > 0 {
            every_flagged_pair_is_listed(d, 0);
        }
        if let Some(f) = flag_of(all[i].player_a, all[i].player_b, all[i].stats) {
            assert(flags_of(all)[flags_of(all).len() - 1] == f);
        }
    }
}

} // verus!
