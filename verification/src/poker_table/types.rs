//! The data of a poker table.

use crate::host::{Address, Bytes32};
use crate::seqs::Dup;
use vstd::prelude::*;

verus! {

#[derive(Clone, Copy, Debug, PartialEq, Eq, Structural)]
pub enum BettingStructure {
    NoLimit,
    PotLimit,
    FixedLimit(FixedLimitConfig),
}

#[derive(Clone, Copy, Debug, PartialEq, Eq, Structural)]
pub struct FixedLimitConfig {
    pub small_bet: i128,
    pub big_bet: i128,
}

/// How a table is set up.
#[derive(Debug)]
pub struct TableConfig {
    /// The token that is played for.
    pub token: Address,
    pub min_buy_in: i128,
    pub max_buy_in: i128,
    pub betting_structure: BettingStructure,
    pub blinds_schedule: BlindsSchedule,
    /// The least number of seated players with which a hand starts.
    pub min_players: u32,
    /// The most players that can be seated.
    pub max_players: u32,
    /// Ledgers after which a stalled hand times out.
    pub timeout_ledgers: u32,
    pub committee: Address,
    pub verifier: Address,
    pub game_hub: Address,
    /// The rake, in basis points of the pot.
    pub rake_bps: u32,
    /// How often a player may rebuy in one session; zero for no limit.
    pub max_rebuys: u32,
    /// The share of the rake that feeds the jackpot, in basis points.
    pub jackpot_rake_share_bps: u32,
    pub min_bad_beat_category: u32,
    pub min_bad_beat_rank: u32,
    pub street_time_limit: Option<StreetTimeLimit>,
    /// Where uncollected chips are swept.
    pub treasury: Option<Address>,
    /// Ledgers after which uncollected chips can be swept; zero for never.
    pub dead_chip_timeout_ledgers: u32,
    /// Ledgers in which swept chips can be reclaimed; zero for never.
    pub reclaim_period_ledgers: u32,
}

#[derive(Clone, Copy, Debug, PartialEq, Eq, Structural)]
pub enum AnteMode {
    Fixed(i128),
    /// A percentage of the big blind.
    Percentage(u32),
    NoAnte,
}

/// One level of a blinds schedule.
#[derive(Clone, Copy, Debug, PartialEq, Eq, Structural)]
pub struct BlindLevel {
    pub small_blind: i128,
    pub big_blind: i128,
    pub ante: AnteMode,
    /// How long the level lasts, in seconds.
    pub duration_seconds: u64,
    /// How long the break after the level lasts, in seconds.
    pub break_seconds: u64,
}

/// The blinds of a table, level by level.
#[derive(Debug)]
pub struct BlindsSchedule {
    pub levels: Vec<BlindLevel>,
}

impl BlindsSchedule {
    /// One level that never advances, without an ante.
    pub fn fixed(small_blind: i128, big_blind: i128) -> (r: Self)
        ensures
            r.levels@ == seq![
                BlindLevel {
                    small_blind,
                    big_blind,
                    ante: AnteMode::NoAnte,
                    duration_seconds: 0,
                    break_seconds: 0,
                },
            ],
    {
        let mut levels: Vec<BlindLevel> = Vec::new();
        levels.push(
            BlindLevel {
                small_blind,
                big_blind,
                ante: AnteMode::NoAnte,
                duration_seconds: 0,
                break_seconds: 0,
            },
        );
        assert(levels@ =~= seq![
            BlindLevel {
                small_blind,
                big_blind,
                ante: AnteMode::NoAnte,
                duration_seconds: 0,
                break_seconds: 0,
            },
        ]);
        BlindsSchedule { levels }
    }
}

/// A player who waits for a seat, with the buy-in already paid.
#[derive(Clone, Copy, Debug, PartialEq, Eq, Structural)]
pub struct QueueEntry {
    pub player: Address,
    pub buy_in: i128,
}

/// A code upgrade that waits for its delay.
#[derive(Clone, Copy, Debug, PartialEq, Eq, Structural)]
pub struct UpgradeProposal {
    pub new_wasm_hash: Bytes32,
    pub execute_after: u64,
}

impl View for UpgradeProposal {
    type V = UpgradeProposal;

    open spec fn view(&self) -> UpgradeProposal {
        *self
    }
}

/// The last upgrade that was executed.
#[derive(Clone, Copy, Debug, PartialEq, Eq)]
pub struct UpgradeRecord {
    /// What the code was before; unknown for the first upgrade.
    pub previous_wasm_hash: Option<Bytes32>,
    pub new_wasm_hash: Bytes32,
    pub executed_at: u64,
}

impl View for UpgradeRecord {
    type V = UpgradeRecord;

    open spec fn view(&self) -> UpgradeRecord {
        *self
    }
}

/// Where a straddle is posted.
#[derive(Clone, Copy, Debug, PartialEq, Eq, Structural)]
pub enum StraddlePosition {
    BigBlind,
    Utg,
    Button,
    /// Any seated player may post it.
    Mississippi,
    /// The same as `Mississippi`.
    Any,
    Custom(u32),
}

/// An optional straddle of two or three big blinds.
#[derive(Clone, Copy, Debug, PartialEq, Eq, Structural)]
pub struct StraddleConfig {
    /// Zero for none.
    pub multiplier: u32,
    pub position: StraddlePosition,
    pub live_only: bool,
    /// The most a straddle can be; zero for no cap.
    pub amount_cap: i128,
    pub allow_reraise: bool,
}

impl View for StraddleConfig {
    type V = StraddleConfig;

    open spec fn view(&self) -> StraddleConfig {
        *self
    }
}

/// A straddle before its cap: on the big blind it adds one blind less.
pub open spec fn uncapped_straddle(multiplier: u32, big_blind: i128, on_big_blind: bool) -> int {
    if on_big_blind {
        big_blind * (if multiplier == 0 {
            0
        } else {
            multiplier - 1
        })
    } else {
        big_blind * multiplier
    }
}

impl StraddleConfig {
    pub fn new(
        multiplier: u32,
        position: StraddlePosition,
        live_only: bool,
        amount_cap: i128,
        allow_reraise: bool,
    ) -> (r: Self)
        ensures
            r == (StraddleConfig { multiplier, position, live_only, amount_cap, allow_reraise }),
    {
        StraddleConfig { multiplier, position, live_only, amount_cap, allow_reraise }
    }

    /// No straddle.
    pub fn disabled() -> (r: Self)
        ensures
            r == (StraddleConfig {
                multiplier: 0,
                position: StraddlePosition::BigBlind,
                live_only: false,
                amount_cap: 0,
                allow_reraise: true,
            }),
    {
        StraddleConfig {
            multiplier: 0,
            position: StraddlePosition::BigBlind,
            live_only: false,
            amount_cap: 0,
            allow_reraise: true,
        }
    }

    /// The straddle, no larger than its cap.
    pub fn effective_amount(&self, big_blind: i128, is_big_blind_straddle: bool) -> (r: i128)
        requires
            i128::MIN <= uncapped_straddle(self.multiplier, big_blind, is_big_blind_straddle)
                <= i128::MAX,
        ensures
            r == (if self.amount_cap > 0 && uncapped_straddle(
                self.multiplier,
                big_blind,
                is_big_blind_straddle,
            ) > self.amount_cap {
                self.amount_cap as int
            } else {
                uncapped_straddle(self.multiplier, big_blind, is_big_blind_straddle)
            }),
    {
        let raw: i128 = if is_big_blind_straddle {
            let less: i128 = if self.multiplier == 0 {
                0
            } else {
                self.multiplier as i128 - 1
            };
            big_blind * less
        } else {
            big_blind * self.multiplier as i128
        };
        if self.amount_cap > 0 && raw > self.amount_cap {
            self.amount_cap
        } else {
            raw
        }
    }
}

/// A straddle that a player has volunteered for the next hand.
#[derive(Clone, Copy, Debug, PartialEq, Eq, Structural)]
pub struct MississippiStraddle {
    pub player: Address,
    pub seat: u32,
    pub amount: i128,
    pub live_only: bool,
    pub allow_reraise: bool,
}

impl View for MississippiStraddle {
    type V = MississippiStraddle;

    open spec fn view(&self) -> MississippiStraddle {
        *self
    }
}

/// The straddle of the current hand.
#[derive(Clone, Copy, Debug, PartialEq, Eq, Structural)]
pub struct ActiveStraddle {
    pub seat: u32,
    pub amount: i128,
    pub live_only: bool,
    pub allow_reraise: bool,
    pub position: StraddlePosition,
}

impl View for ActiveStraddle {
    type V = ActiveStraddle;

    open spec fn view(&self) -> ActiveStraddle {
        *self
    }
}

/// How long a player may take on each street, in seconds.
#[derive(Clone, Copy, Debug, PartialEq, Eq, Structural)]
pub struct StreetTimeLimit {
    pub preflop_seconds: u64,
    pub flop_seconds: u64,
    pub turn_seconds: u64,
    pub river_seconds: u64,
}

impl StreetTimeLimit {
    pub fn standard() -> (r: Self)
        ensures
            r == (StreetTimeLimit {
                preflop_seconds: 30,
                flop_seconds: 60,
                turn_seconds: 60,
                river_seconds: 60,
            }),
    {
        StreetTimeLimit {
            preflop_seconds: 30,
            flop_seconds: 60,
            turn_seconds: 60,
            river_seconds: 60,
        }
    }

    pub fn turbo() -> (r: Self)
        ensures
            r == (StreetTimeLimit {
                preflop_seconds: 15,
                flop_seconds: 20,
                turn_seconds: 20,
                river_seconds: 20,
            }),
    {
        StreetTimeLimit {
            preflop_seconds: 15,
            flop_seconds: 20,
            turn_seconds: 20,
            river_seconds: 20,
        }
    }

    /// The limit of a street; that of the first street for any other phase.
    pub open spec fn limit(self, phase: GamePhase) -> u64 {
        match phase {
            GamePhase::Flop => self.flop_seconds,
            GamePhase::Turn => self.turn_seconds,
            GamePhase::River => self.river_seconds,
            _ => self.preflop_seconds,
        }
    }

    /// The limit of a street; that of the first street for any other phase.
    pub fn for_phase(&self, phase: &GamePhase) -> (r: u64)
        ensures
            r == self.limit(*phase),
    {
        match phase {
            GamePhase::Preflop => self.preflop_seconds,
            GamePhase::Flop => self.flop_seconds,
            GamePhase::Turn => self.turn_seconds,
            GamePhase::River => self.river_seconds,
            _ => self.preflop_seconds,
        }
    }
}

impl TableConfig {
    /// The ledgers that a player has to act on a street: the time limit of the street at five
    /// seconds a ledger, rounded up, or the timeout of the table where there is no such limit.
    pub open spec fn turn_ledgers(self, phase: GamePhase) -> u32 {
        match self.street_time_limit {
            Some(l) => if (l.limit(phase) + 4) / 5 > u32::MAX {
                u32::MAX
            } else {
                ((l.limit(phase) + 4) / 5) as u32
            },
            None => self.timeout_ledgers,
        }
    }

    /// The ledgers that a player has to act on a street.
    pub fn turn_time(&self, phase: &GamePhase) -> (r: u32)
        ensures
            r == self.turn_ledgers(*phase),
    {
        match &self.street_time_limit {
            Some(l) => {
                let seconds: u64 = l.for_phase(phase);
                let ledgers: u64 = seconds / 5 + (if seconds % 5 == 0 {
                    0
                } else {
                    1
                });
                if ledgers > u32::MAX as u64 {
                    u32::MAX
                } else {
                    ledgers as u32
                }
            },
            None => self.timeout_ledgers,
        }
    }
}

/// Every deadline that can be set at ledger `now` is a ledger that there can be.
pub open spec fn turns_fit(config: TableConfig, now: u32) -> bool {
    forall|phase: GamePhase| now + #[trigger] config.turn_ledgers(phase) <= u32::MAX
}

/// Why a request is refused.
#[derive(Clone, Copy, Debug, PartialEq, Eq, Structural)]
pub enum PokerTableError {
    TableNotFound,
    TableNotAcceptingPlayers,
    TableFull,
    InvalidBuyIn,
    AlreadySeated,
    PlayerNotAtTable,
    CannotLeaveDuringActiveHand,
    HandAlreadyInProgress,
    NotEnoughPlayers,
    InvalidPlayerIndex,
    NotYourTurn,
    PlayerAlreadyFolded,
    PlayerAlreadyAllIn,
    MustCallOrFold,
    NothingToCall,
    CannotBetWhenOutstandingBet,
    BetTooSmall,
    RaiseTooSmall,
    NotEnoughChips,
    NotInBettingPhase,
    NotInDealingPhase,
    NotInRevealPhase,
    NotInShowdownPhase,
    WrongCommitmentCount,
    WrongCardCount,
    NotAuthorizedCommittee,
    DealProofVerificationFailed,
    RevealProofVerificationFailed,
    ShowdownProofVerificationFailed,
    BoardNotComplete,
    InvalidHoleCards,
    TimeoutNotReached,
    TimeoutNotApplicable,
    HoleCardMismatch,
    WinnerNotEligibleForPot,
    RakeBpsExceedsMax,
    InvalidPlayerCount,
    CannotChangeMinPlayersMidHand,
    ContractPaused,
    ForceFoldNotAvailable,
    TargetNotActive,
    CannotRebuyDuringActiveHand,
    RebuyLimitReached,
    InvalidRebuyAmount,
    NotInRitPhase,
    RitAlreadyDecided,
    NotHeadsUpAllIn,
    RunItTwiceNotEnabled,
    RitAlreadyActive,
    BoardAlreadyRevealedForRun,
    JackpotNotConfigured,
    BadBeatHandDataInvalid,
    NotAnUpgradeSigner,
    NotEnoughUpgradeApprovals,
    UpgradeTimelockPending,
    NoPendingUpgrade,
    InvalidGovernanceConfig,
    UpgradeAlreadyApproved,
    StaleActionSequence,
    EmptyBlindsSchedule,
    InvalidBlindLevel,
    AlreadyQueued,
    NotQueued,
    QueueFull,
    NoUpgradeProposal,
    UpgradeDelayNotElapsed,
    UpgradeDelayTooShort,
    InvalidVarianceConfig,
    TableClosureNotProposed,
    TableClosureNoticeActive,
    TableClosureNotReady,
    TableClosureInProgress,
    InvalidStraddleConfig,
    EmergencyWithdrawalNotApplicable,
    EmergencyTimelockActive,
    AlreadyApprovedEmergencyWithdrawal,
    ActionAlreadyCommitted,
    ActionCommitmentNotFound,
    InvalidActionReveal,
    InvalidHandType,
    TreasuryNotConfigured,
    DeadChipTimeoutNotConfigured,
    DeadChipsNotSweepable,
    DeadChipTimeoutNotReached,
    DeadChipsAlreadySwept,
    DeadChipsNotSwept,
    ReclaimPeriodNotConfigured,
    ReclaimPeriodElapsed,
    NoDeadChipsToReclaim,
    InvalidSignature,
    StraddleNotAllowed,
    StraddleCapExceeded,
    MississippiStraddleAlreadyPosted,
    NoMississippiStraddle,
    TimeBankNotConfigured,
    TimeBankExhausted,
    TimeBankAlreadyUsed,
    InvalidTimeBankConfig,
    NotYourTurnForTimeBank,
    RbacNotConfigured,
    InsufficientPermission,
    JackpotProofInvalid,
    JackpotNotEnabled,
    JackpotAlreadyClaimed,
    InvalidAction,
    NoUpgradeToRevert,
    RollbackWindowExpired,
}

/// A seated player.
#[derive(Clone, Copy, Debug, PartialEq, Eq, Structural)]
pub struct PlayerState {
    pub address: Address,
    pub stack: i128,
    pub bet_this_round: i128,
    /// What the player has put into the pot in this hand.
    pub committed: i128,
    pub folded: bool,
    pub all_in: bool,
    pub sitting_out: bool,
    pub seat_index: u32,
    /// What the player has deposited in this session.
    pub total_buy_in: i128,
    pub rebuy_count: u32,
}

#[derive(Clone, Copy, Debug, PartialEq, Eq, Structural)]
pub enum GamePhase {
    Waiting,
    WaitingForPlayers,
    Dealing,
    Preflop,
    DealingFlop,
    Flop,
    DealingTurn,
    Turn,
    DealingRiver,
    River,
    Showdown,
    Settlement,
    Dispute,
    AwaitingRunItTwice,
    ShowdownRun1,
    ShowdownRun2,
    RitSettlement,
}

impl GamePhase {
    /// Whether players bet in this phase.
    pub open spec fn betting(self) -> bool {
        self is Preflop || self is Flop || self is Turn || self is River
    }

    /// Whether no hand is being played in this phase.
    pub open spec fn between_hands(self) -> bool {
        self is Waiting || self is Settlement
    }

    /// Whether players bet in this phase.
    pub fn is_betting(&self) -> (r: bool)
        ensures
            r == self.betting(),
    {
        matches!(self, GamePhase::Preflop | GamePhase::Flop | GamePhase::Turn | GamePhase::River)
    }

    /// Whether no hand is being played in this phase.
    pub fn is_between_hands(&self) -> (r: bool)
        ensures
            r == self.between_hands(),
    {
        matches!(self, GamePhase::Waiting | GamePhase::Settlement)
    }
}

#[derive(Clone, Copy, Debug, PartialEq, Eq, Structural)]
pub enum Action {
    Fold,
    Check,
    Call,
    Bet(i128),
    Raise(i128),
    AllIn,
}

/// A part of the pot and the seats that can win it.
#[derive(Debug)]
pub struct SidePot {
    pub amount: i128,
    pub eligible_players: Vec<u32>,
}

/// The state of a board that is run twice for two players who are all in.
#[derive(Debug)]
pub struct RitState {
    pub active: bool,
    pub player1_seat: u32,
    pub player2_seat: u32,
    pub player1_opted_in: bool,
    pub player2_opted_in: bool,
    /// Board cards that both runs share.
    pub shared_board_count: u32,
    pub current_run: u32,
    pub run1_board_indices: Vec<u32>,
    pub run2_board_indices: Vec<u32>,
    pub run1_winner: u32,
    pub run2_winner: u32,
}

#[derive(Clone, Copy, Debug, PartialEq, Eq, Structural)]
pub enum ActionKind {
    Fold,
    Check,
    Call,
    Bet,
    Raise,
    AllIn,
}

/// One action of a hand.
#[derive(Clone, Copy, Debug, PartialEq, Eq, Structural)]
pub struct ActionRecord {
    pub seat: u32,
    pub phase: GamePhase,
    pub kind: ActionKind,
    /// The chips that the action put into the pot.
    pub amount: i128,
}

/// The chips that a seat won.
#[derive(Clone, Copy, Debug, PartialEq, Eq, Structural)]
pub struct Payout {
    pub seat: u32,
    pub address: Address,
    pub amount: i128,
}

/// A finished hand.
#[derive(Debug)]
pub struct HandRecord {
    pub hand_number: u32,
    pub players: Vec<Address>,
    pub board: Vec<u32>,
    pub actions: Vec<ActionRecord>,
    pub payouts: Vec<Payout>,
    /// The pot before the rake.
    pub total_pot: i128,
    pub rake: i128,
    pub showdown: bool,
    pub settled_ledger: u32,
}

/// The contents of a finished hand.
#[verifier::ext_equal]
pub struct HandRecordView {
    pub hand_number: u32,
    pub players: Seq<Address>,
    pub board: Seq<u32>,
    pub actions: Seq<ActionRecord>,
    pub payouts: Seq<Payout>,
    pub total_pot: i128,
    pub rake: i128,
    pub showdown: bool,
    pub settled_ledger: u32,
}

impl View for HandRecord {
    type V = HandRecordView;

    open spec fn view(&self) -> HandRecordView {
        HandRecordView {
            hand_number: self.hand_number,
            players: self.players@,
            board: self.board@,
            actions: self.actions@,
            payouts: self.payouts@,
            total_pot: self.total_pot,
            rake: self.rake,
            showdown: self.showdown,
            settled_ledger: self.settled_ledger,
        }
    }
}

impl Dup for HandRecord {
    fn dup(&self) -> (r: Self) {
        HandRecord {
            hand_number: self.hand_number,
            players: self.players.dup(),
            board: self.board.dup(),
            actions: self.actions.dup(),
            payouts: self.payouts.dup(),
            total_pot: self.total_pot,
            rake: self.rake,
            showdown: self.showdown,
            settled_ledger: self.settled_ledger,
        }
    }
}

/// Where the history of a table stands.
#[derive(Clone, Copy, Debug, PartialEq, Eq, Structural)]
pub struct HandHistoryMeta {
    pub next_slot: u32,
    pub stored: u32,
    pub total_archived: u32,
}

impl View for HandHistoryMeta {
    type V = HandHistoryMeta;

    open spec fn view(&self) -> HandHistoryMeta {
        *self
    }
}

/// An upgrade that signers are approving.
#[derive(Debug)]
pub struct PendingUpgrade {
    pub wasm_hash: Bytes32,
    pub approvals: Vec<Address>,
    pub started_ledger: u32,
}

/// The contents of a pending upgrade.
#[verifier::ext_equal]
pub struct PendingUpgradeView {
    pub wasm_hash: Bytes32,
    pub approvals: Seq<Address>,
    pub started_ledger: u32,
}

impl View for PendingUpgrade {
    type V = PendingUpgradeView;

    open spec fn view(&self) -> PendingUpgradeView {
        PendingUpgradeView {
            wasm_hash: self.wasm_hash,
            approvals: self.approvals@,
            started_ledger: self.started_ledger,
        }
    }
}

/// When concentrated outcomes feed the jackpot.
#[derive(Clone, Copy, Debug, PartialEq, Eq, Structural)]
pub struct VarianceConfig {
    pub threshold_bps: u32,
    pub extra_jackpot_share_bps: u32,
}

impl View for VarianceConfig {
    type V = VarianceConfig;

    open spec fn view(&self) -> VarianceConfig {
        *self
    }
}

/// Who has won the hands of a table.
#[derive(Debug)]
pub struct VarianceStats {
    pub hands: u32,
    /// How often each seat has won.
    pub winner_counts: Vec<u32>,
    pub variance_bps: u32,
}

/// The contents of the statistics of a table.
#[verifier::ext_equal]
pub struct VarianceView {
    pub hands: u32,
    pub winner_counts: Seq<u32>,
    pub variance_bps: u32,
}

impl View for VarianceStats {
    type V = VarianceView;

    open spec fn view(&self) -> VarianceView {
        VarianceView {
            hands: self.hands,
            winner_counts: self.winner_counts@,
            variance_bps: self.variance_bps,
        }
    }
}

impl Dup for VarianceStats {
    fn dup(&self) -> (r: Self) {
        VarianceStats {
            hands: self.hands,
            winner_counts: self.winner_counts.dup(),
            variance_bps: self.variance_bps,
        }
    }
}

/// What was swept from a table.
#[derive(Debug)]
pub struct SweepState {
    pub swept_at_ledger: u32,
    pub total_swept: i128,
    pub swept_amounts: Vec<SweptAmount>,
}

/// What was swept from one player.
#[derive(Clone, Copy, Debug, PartialEq, Eq, Structural)]
pub struct SweptAmount {
    pub player: Address,
    pub amount: i128,
}

/// The contents of a sweep.
#[verifier::ext_equal]
pub struct SweepView {
    pub swept_at_ledger: u32,
    pub total_swept: i128,
    pub swept_amounts: Seq<SweptAmount>,
}

impl View for SweepState {
    type V = SweepView;

    open spec fn view(&self) -> SweepView {
        SweepView {
            swept_at_ledger: self.swept_at_ledger,
            total_swept: self.total_swept,
            swept_amounts: self.swept_amounts@,
        }
    }
}

impl Dup for SweepState {
    fn dup(&self) -> (r: Self) {
        SweepState {
            swept_at_ledger: self.swept_at_ledger,
            total_swept: self.total_swept,
            swept_amounts: self.swept_amounts.dup(),
        }
    }
}

/// A player's reserve of time.
#[derive(Clone, Copy, Debug, PartialEq, Eq, Structural)]
pub struct TimeBank {
    pub remaining_seconds: u64,
    pub last_replenish_ledger: u32,
    pub extensions_used_this_hand: u32,
    pub active_extension: bool,
    pub active_extension_seconds: u64,
}

impl View for TimeBank {
    type V = TimeBank;

    open spec fn view(&self) -> TimeBank {
        *self
    }
}

/// How reserves of time are kept.
#[derive(Clone, Copy, Debug, PartialEq, Eq, Structural)]
pub struct TimeBankConfig {
    pub initial_seconds: u64,
    pub max_seconds: u64,
    pub replenish_per_hand: u64,
    pub replenish_per_ledger: u64,
    pub extension_seconds: u64,
    pub max_extensions_per_hand: u32,
}

impl View for TimeBankConfig {
    type V = TimeBankConfig;

    open spec fn view(&self) -> TimeBankConfig {
        *self
    }
}

impl TimeBankConfig {
    pub open spec fn enabled(self) -> bool {
        self.max_seconds > 0 && self.extension_seconds > 0
    }

    pub fn default_config() -> (r: Self)
        ensures
            r == (TimeBankConfig {
                initial_seconds: 60,
                max_seconds: 120,
                replenish_per_hand: 10,
                replenish_per_ledger: 0,
                extension_seconds: 30,
                max_extensions_per_hand: 2,
            }),
    {
        TimeBankConfig {
            initial_seconds: 60,
            max_seconds: 120,
            replenish_per_hand: 10,
            replenish_per_ledger: 0,
            extension_seconds: 30,
            max_extensions_per_hand: 2,
        }
    }

    pub fn disabled() -> (r: Self)
        ensures
            r == (TimeBankConfig {
                initial_seconds: 0,
                max_seconds: 0,
                replenish_per_hand: 0,
                replenish_per_ledger: 0,
                extension_seconds: 0,
                max_extensions_per_hand: 0,
            }),
    {
        TimeBankConfig {
            initial_seconds: 0,
            max_seconds: 0,
            replenish_per_hand: 0,
            replenish_per_ledger: 0,
            extension_seconds: 0,
            max_extensions_per_hand: 0,
        }
    }

    pub fn is_enabled(&self) -> (r: bool)
        ensures
            r == self.enabled(),
    {
        self.max_seconds > 0 && self.extension_seconds > 0
    }
}

#[derive(Clone, Copy, Debug, PartialEq, Eq, Structural)]
pub struct TableClosureProposal {
    pub execute_after: u64,
}

impl View for TableClosureProposal {
    type V = TableClosureProposal;

    open spec fn view(&self) -> TableClosureProposal {
        *self
    }
}

/// A table.
#[derive(Debug)]
pub struct TableState {
    pub id: u32,
    pub admin: Address,
    pub config: TableConfig,
    pub phase: GamePhase,
    pub players: Vec<PlayerState>,
    pub dealer_seat: u32,
    pub current_turn: u32,
    pub pot: i128,
    pub side_pots: Vec<SidePot>,
    pub deck_root: Bytes32,
    pub hand_commitments: Vec<Bytes32>,
    pub board_cards: Vec<u32>,
    pub dealt_indices: Vec<u32>,
    pub hand_number: u32,
    pub last_action_ledger: u32,
    pub committee: Address,
    pub session_id: u32,
    pub rake_balance: i128,
    pub jackpot_balance: i128,
    /// The ledger by which the current player must act; zero for none.
    pub action_deadline: u32,
    pub hand_actions: Vec<ActionRecord>,
    pub rit_state: Option<RitState>,
    /// The size of the last bet or raise of the round.
    pub last_raise_size: i128,
    pub current_blind_level: u32,
    pub level_started_at: u64,
    pub break_ends_at: u64,
    pub settlement_entered_ledger: u32,
}

impl View for TableState {
    type V = TableState;

    open spec fn view(&self) -> TableState {
        *self
    }
}

/// A street's time limit is rounded up to whole ledgers of five seconds, each street has its own,
/// and a table without limits gives the ledgers of its timeout.
pub proof fn turns_last_as_configured(config: TableConfig, phase: GamePhase)
    ensures
        config.street_time_limit is None ==> config.turn_ledgers(phase) == config.timeout_ledgers,
        config.street_time_limit matches Some(l) ==> {
            let seconds = if phase is Flop {
                l.flop_seconds
            } else if phase is Turn {
                l.turn_seconds
            } else if phase is River {
                l.river_seconds
            } else {
                l.preflop_seconds
            };
            let ledgers = config.turn_ledgers(phase);
            &&& 5 * ledgers < seconds + 5
            &&& 5 * ledgers >= seconds || ledgers == u32::MAX
        },
{
}

} // verus!
