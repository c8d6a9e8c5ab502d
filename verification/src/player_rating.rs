//! Player ratings: an integer Elo scheme, and a leaderboard for players with enough hands.

use crate::assoc::{value_or, AssocMap};
use crate::host::Address;
use crate::seqs::{copy_without, lemma_without, without};
use vstd::prelude::*;

verus! {

/// The rating a player starts with, unless configured otherwise.
pub const DEFAULT_RATING: u32 = 1500;

/// The weight of one hand, unless configured otherwise.
pub const DEFAULT_K_FACTOR: u32 = 32;

/// The hands a player needs for the leaderboard, unless configured otherwise.
pub const DEFAULT_MIN_HANDS: u32 = 10;

/// The most entries of one leaderboard page.
pub const MAX_LEADERBOARD_LIMIT: u32 = 50;

/// A player's record.
#[derive(Clone, Copy, Debug, PartialEq, Eq, Structural)]
pub struct PlayerRating {
    pub address: Address,
    pub rating: u32,
    pub hands_played: u32,
    pub hands_won: u32,
    pub last_update_ledger: u32,
}

impl View for PlayerRating {
    type V = PlayerRating;

    open spec fn view(&self) -> PlayerRating {
        *self
    }
}

/// How ratings are kept.
#[derive(Clone, Copy, Debug, PartialEq, Eq, Structural)]
pub struct RatingConfig {
    pub min_hands: u32,
    pub k_factor: u32,
    pub initial_rating: u32,
}

/// Why a request is refused.
#[derive(Clone, Copy, Debug, PartialEq, Eq, Structural)]
pub enum RatingError {
    AlreadyInitialized,
    NotInitialized,
    Unauthorized,
    Paused,
    EmptyResults,
    InvalidConfig,
    PlayerNotFound,
    LimitTooLarge,
}

/// The score expected of a player, in hundredths of a percent, from the rating gap to the
/// opponent.
pub open spec fn expected_bp(player: int, opponent: int) -> int {
    let diff = opponent - player;
    if diff <= -400 {
        9000
    } else if diff <= -200 {
        7500
    } else if diff <= -100 {
        6400
    } else if diff <= 0 {
        5000 + (-diff) * 14 / 10
    } else if diff <= 100 {
        5000 - diff * 14 / 10
    } else if diff <= 200 {
        3600
    } else if diff <= 400 {
        2500
    } else {
        1000
    }
}

/// What a hand is worth: the share of `k` by which the score exceeds what was expected, rounded
/// towards zero.
pub open spec fn delta_of(player: int, opponent: int, won: bool, k: int) -> int {
    if won {
        k * (10_000 - expected_bp(player, opponent)) / 10_000
    } else {
        -(k * expected_bp(player, opponent) / 10_000)
    }
}

/// A rating moved by `delta` and kept between 100 and 4000.
pub open spec fn moved_rating(rating: int, delta: int) -> int {
    if rating + delta < 100 {
        100
    } else if rating + delta > 4000 {
        4000
    } else {
        rating + delta
    }
}

/// The rating changes of a hand, in whole points.
pub fn elo_delta(player: u32, opponent: u32, won: bool, k: u32) -> (r: i32)
    ensures
        r == delta_of(player as int, opponent as int, won, k as int) as i32,
{
    let gap: i64 = opponent as i64 - player as i64;
    let diff: i64 = if gap < -800 {
        -800
    } else if gap > 800 {
        800
    } else {
        gap
    };
    let expected: i64 = if diff <= -400 {
        9000
    } else if diff <= -200 {
        7500
    } else if diff <= -100 {
        6400
    } else if diff <= 0 {
        5000 + (-diff) * 14 / 10
    } else if diff <= 100 {
        5000 - diff * 14 / 10
    } else if diff <= 200 {
        3600
    } else if diff <= 400 {
        2500
    } else {
        1000
    };
    assert(expected == expected_bp(player as int, opponent as int));
    assert(0 <= expected <= 10_000);
    let share: i64 = if won {
        10_000 - expected
    } else {
        expected
    };
    assert(0 <= k * share <= u32::MAX * 10_000) by (nonlinear_arith)
        requires
            0 <= k <= u32::MAX,
            0 <= share <= 10_000,
    ;
    let size: i64 = (k as i64) * share / 10_000;
    let delta: i64 = if won {
        size
    } else {
        -size
    };
    #[verifier::truncate]
    let r: i32 = delta as i32;
    r
}

/// Moves a rating, keeping it between 100 and 4000.
pub fn apply_delta(rating: u32, delta: i32) -> (r: u32)
    ensures
        r == moved_rating(rating as int, delta as int),
        100 <= r <= 4000,
{
    let next: i64 = rating as i64 + delta as i64;
    if next < 100 {
        100
    } else if next > 4000 {
        4000
    } else {
        next as u32
    }
}

/// The contents of the rating contract.
#[verifier::ext_equal]
pub struct RatingState {
    pub admin: Option<Address>,
    pub config: Option<RatingConfig>,
    pub players: Map<Address, PlayerRating>,
    pub board: Seq<Address>,
    pub recorders: Map<Address, bool>,
    pub paused: Option<bool>,
}

/// The rating on record for a player, or zero.
pub open spec fn rating_of(players: Map<Address, PlayerRating>, a: Address) -> int {
    if players.contains_key(a) {
        players[a].rating as int
    } else {
        0
    }
}

/// The hands on record for a player, or zero.
pub open spec fn hands_of(players: Map<Address, PlayerRating>, a: Address) -> int {
    if players.contains_key(a) {
        players[a].hands_played as int
    } else {
        0
    }
}

/// The players of the board who have at least `min_hands` hands, in order.
pub open spec fn eligible_among(
    board: Seq<Address>,
    players: Map<Address, PlayerRating>,
    min_hands: int,
) -> Seq<Address>
    decreases board.len(),
{
    if board.len() == 0 {
        Seq::empty()
    } else {
        let rest = eligible_among(board.drop_last(), players, min_hands);
        if hands_of(players, board.last()) >= min_hands {
            rest.push(board.last())
        } else {
            rest
        }
    }
}

/// The first place of the board whose rating is below `rating`.
pub open spec fn place_for(board: Seq<Address>, players: Map<Address, PlayerRating>, rating: int) -> int
    decreases board.len(),
{
    if board.len() == 0 {
        0
    } else {
        let k = place_for(board.drop_last(), players, rating);
        if k < board.len() - 1 {
            k
        } else if rating_of(players, board.last()) < rating {
            board.len() - 1
        } else {
            board.len() as int
        }
    }
}

/// The sum of the ratings of everyone but the winner.
pub open spec fn field_sum(bases: Seq<PlayerRating>, winner: int) -> int
    decreases bases.len(),
{
    if bases.len() == 0 {
        0
    } else {
        field_sum(bases.drop_last(), winner) + (if bases.len() - 1 == winner {
            0
        } else {
            bases.last().rating as int
        })
    }
}

/// A participant's record after a hand: the winner gains against the average of the field, and
/// everyone else loses against the winner.
pub open spec fn updated_record(
    bases: Seq<PlayerRating>,
    i: int,
    winner: int,
    k: u32,
    ledger: u32,
) -> PlayerRating {
    let b = bases[i];
    let average = (field_sum(bases, winner) / (bases.len() - 1)) as u32;
    let delta = if i == winner {
        delta_of(b.rating as int, average as int, true, k as int) as i32
    } else {
        delta_of(b.rating as int, bases[winner].rating as int, false, k as int) as i32
    };
    PlayerRating {
        address: b.address,
        rating: moved_rating(b.rating as int, delta as int) as u32,
        hands_played: (b.hands_played + 1) as u32,
        hands_won: if i == winner {
            (b.hands_won + 1) as u32
        } else {
            b.hands_won
        },
        last_update_ledger: ledger,
    }
}

impl RatingState {
    /// The configuration in force.
    pub open spec fn settings(self) -> RatingConfig {
        match self.config {
            Some(c) => c,
            None => RatingConfig {
                min_hands: DEFAULT_MIN_HANDS,
                k_factor: DEFAULT_K_FACTOR,
                initial_rating: DEFAULT_RATING,
            },
        }
    }

    /// The record of a player, or the one that a new player starts with.
    pub open spec fn base(self, a: Address, ledger: u32) -> PlayerRating {
        value_or(
            self.players,
            a,
            PlayerRating {
                address: a,
                rating: self.settings().initial_rating,
                hands_played: 0,
                hands_won: 0,
                last_update_ledger: ledger,
            },
        )
    }

    /// The records of the participants of a hand before it.
    pub open spec fn bases(self, participants: Seq<Address>, ledger: u32) -> Seq<PlayerRating> {
        Seq::new(participants.len(), |i: int| self.base(participants[i], ledger))
    }

    /// The records of the participants of a hand after it.
    pub open spec fn updates(self, participants: Seq<Address>, winner: int, ledger: u32) -> Seq<
        PlayerRating,
    > {
        let bases = self.bases(participants, ledger);
        Seq::new(
            participants.len(),
            |i: int| updated_record(bases, i, winner, self.settings().k_factor, ledger),
        )
    }

    /// The state with one record stored. Its player leaves the board, and enters it again in
    /// their place once they have enough hands.
    pub open spec fn with_record(self, pr: PlayerRating, min_hands: u32) -> Self {
        let players = self.players.insert(pr.address, pr);
        let rest = without(self.board, pr.address);
        RatingState {
            players,
            board: if pr.hands_played < min_hands {
                rest
            } else {
                rest.insert(place_for(rest, players, pr.rating as int), pr.address)
            },
            ..self
        }
    }

    /// The state with a list of records stored, in order.
    pub open spec fn with_records(self, prs: Seq<PlayerRating>, min_hands: u32) -> Self
        decreases prs.len(),
    {
        if prs.len() == 0 {
            self
        } else {
            self.with_records(prs.drop_last(), min_hands).with_record(prs.last(), min_hands)
        }
    }

    /// Whether `caller` may record hands.
    pub open spec fn may_record(self, caller: Address) -> bool {
        self.admin == Some(caller) || value_or(self.recorders, caller, false)
    }

    /// Why a hand is not recorded, if it is not.
    pub open spec fn hand_refusal(self, caller: Address, n: int, winner: int) -> Option<RatingError> {
        if self.admin is None {
            Some(RatingError::NotInitialized)
        } else if self.paused == Some(true) {
            Some(RatingError::Paused)
        } else if !self.may_record(caller) {
            Some(RatingError::Unauthorized)
        } else if n < 2 || winner >= n {
            Some(RatingError::EmptyResults)
        } else {
            None
        }
    }

    /// The state with the hands needed for the board and the weight of a hand set. Whoever has
    /// too few hands then leaves the board.
    pub open spec fn with_config(self, min_hands: u32, k_factor: u32) -> Self {
        RatingState {
            config: Some(RatingConfig { min_hands, k_factor, ..self.settings() }),
            board: eligible_among(self.board, self.players, min_hands as int),
            ..self
        }
    }

    /// Every record is filed under its own player. The board lists players on record who have
    /// enough hands, none twice, by falling rating.
    pub open spec fn wf(self) -> bool {
        &&& self.board.len() <= u32::MAX
        &&& self.board.no_duplicates()
        &&& forall|a: Address| #[trigger]
            self.players.contains_key(a) ==> self.players[a].address == a
        &&& forall|i: int|
            0 <= i < self.board.len() ==> self.players.contains_key(#[trigger] self.board[i])
                && self.players[self.board[i]].hands_played >= self.settings().min_hands
        &&& sorted_board(self.board, self.players)
    }
}

/// No player on the board has a higher rating than one before them.
pub open spec fn sorted_board(board: Seq<Address>, players: Map<Address, PlayerRating>) -> bool {
    forall|i: int, j: int|
        0 <= i < j < board.len() ==> rating_of(players, #[trigger] board[i]) >= rating_of(
            players,
            #[trigger] board[j],
        )
}

proof fn lemma_place_for(board: Seq<Address>, players: Map<Address, PlayerRating>, rating: int)
    ensures
        0 <= place_for(board, players, rating) <= board.len(),
        forall|i: int|
            0 <= i < place_for(board, players, rating) ==> rating_of(players, #[trigger] board[i])
                >= rating,
        place_for(board, players, rating) < board.len() ==> rating_of(
            players,
            board[place_for(board, players, rating)],
        ) < rating,
    decreases board.len(),
{
    if board.len() > 0 {
        let d = board.drop_last();
        lemma_place_for(d, players, rating);
        let k = place_for(board, players, rating);
        assert forall|i: int| 0 <= i < k implies rating_of(players, #[trigger] board[i])
            >= rating by {
            if i < d.len() {
                assert(d[i] == board[i]);
            }
        }
    }
}

proof fn lemma_without_sorted(board: Seq<Address>, x: Address, players: Map<Address, PlayerRating>)
    requires
        sorted_board(board, players),
    ensures
        sorted_board(without(board, x), players),
    decreases board.len(),
{
    if board.len() > 0 {
        let d = board.drop_last();
        assert forall|i: int, j: int| 0 <= i < j < d.len() implies rating_of(
            players,
            #[trigger] d[i],
        ) >= rating_of(players, #[trigger] d[j]) by {
            assert(d[i] == board[i] && d[j] == board[j]);
        }
        lemma_without_sorted(d, x, players);
        lemma_without(d, x);
        let w = without(d, x);
        let r = without(board, x);
        if board.last() != x {
            assert forall|i: int, j: int| 0 <= i < j < r.len() implies rating_of(
                players,
                #[trigger] r[i],
            ) >= rating_of(players, #[trigger] r[j]) by {
                assert(r[i] == w[i]);
                if j < w.len() {
                    assert(r[j] == w[j]);
                } else {
                    assert(w.contains(w[i]));
                    assert(d.contains(w[i]));
                    let m = choose|m: int| 0 <= m < d.len() && d[m] == w[i];
                    assert(board[m] == w[i]);
                    assert(board[board.len() - 1] == r[j]);
                }
            }
        }
    }
}

proof fn lemma_eligible(board: Seq<Address>, players: Map<Address, PlayerRating>, min_hands: int)
    ensures
        eligible_among(board, players, min_hands).len() <= board.len(),
        forall|a: Address| #[trigger]
            eligible_among(board, players, min_hands).contains(a) <==> board.contains(a)
                && hands_of(players, a) >= min_hands,
        board.no_duplicates() ==> eligible_among(board, players, min_hands).no_duplicates(),
        sorted_board(board, players) ==> sorted_board(
            eligible_among(board, players, min_hands),
            players,
        ),
    decreases board.len(),
{
    if board.len() > 0 {
        let d = board.drop_last();
        let x = board.last();
        lemma_eligible(d, players, min_hands);
        let w = eligible_among(d, players, min_hands);
        let r = eligible_among(board, players, min_hands);
        assert forall|a: Address| #[trigger] r.contains(a) implies board.contains(a) && hands_of(
            players,
            a,
        ) >= min_hands by {
            let i = choose|i: int| 0 <= i < r.len() && r[i] == a;
            if i < w.len() {
                assert(w[i] == a);
                assert(w.contains(a));
                assert(d.contains(a));
                assert(board[d.index_of(a)] == a);
            } else {
                assert(board[board.len() - 1] == a);
            }
        }
        assert forall|a: Address|
            board.contains(a) && hands_of(players, a) >= min_hands implies #[trigger] r.contains(
            a,
        ) by {
            let i = choose|i: int| 0 <= i < board.len() && board[i] == a;
            if i < d.len() {
                assert(d[i] == a);
                assert(d.contains(a));
                assert(w.contains(a));
                assert(r[w.index_of(a)] == a);
            } else {
                assert(r[r.len() - 1] == a);
            }
        }
        assert forall|i: int| 0 <= i < w.len() implies r[i] == #[trigger] w[i] && exists|m: int|
            0 <= m < d.len() && board[m] == w[i] by {
            assert(w.contains(w[i]));
            assert(d.contains(w[i]));
            assert(board[d.index_of(w[i])] == w[i]);
        }
        if board.no_duplicates() {
            assert forall|i: int, j: int| 0 <= i < r.len() && 0 <= j < r.len() && i != j implies r[i]
                != r[j] by {
                if i < w.len() {
                    assert(r[i] == w[i]);
                }
                if j < w.len() {
                    assert(r[j] == w[j]);
                }
            }
        }
        if sorted_board(board, players) {
            assert forall|i: int, j: int| 0 <= i < j < d.len() implies rating_of(
                players,
                #[trigger] d[i],
            ) >= rating_of(players, #[trigger] d[j]) by {
                assert(d[i] == board[i] && d[j] == board[j]);
            }
            assert forall|i: int, j: int| 0 <= i < j < r.len() implies rating_of(
                players,
                #[trigger] r[i],
            ) >= rating_of(players, #[trigger] r[j]) by {
                assert(r[i] == w[i]);
                if j < w.len() {
                    assert(r[j] == w[j]);
                } else {
                    let m = choose|m: int| 0 <= m < d.len() && board[m] == w[i];
                    assert(board[board.len() - 1] == r[j]);
                }
            }
        }
    }
}

/// A new configuration keeps the state well formed, and leaves on the board exactly those who
/// were on it and have enough hands.
pub proof fn config_keeps_board_eligible(st: RatingState, min_hands: u32, k_factor: u32)
    requires
        st.wf(),
    ensures
        st.with_config(min_hands, k_factor).wf(),
        forall|a: Address| #[trigger]
            st.with_config(min_hands, k_factor).board.contains(a) <==> st.board.contains(a)
                && st.players[a].hands_played >= min_hands,
{
    let n = st.with_config(min_hands, k_factor);
    lemma_eligible(st.board, st.players, min_hands as int);
    assert forall|a: Address| #[trigger] n.board.contains(a) <==> st.board.contains(a)
        && st.players[a].hands_played >= min_hands by {
        if st.board.contains(a) {
            let i = choose|i: int| 0 <= i < st.board.len() && st.board[i] == a;
            assert(st.players.contains_key(st.board[i]));
        }
    }
    assert forall|i: int| 0 <= i < n.board.len() implies n.players.contains_key(
        #[trigger] n.board[i],
    ) && n.players[n.board[i]].hands_played >= n.settings().min_hands by {
        assert(n.board.contains(n.board[i]));
        let a = n.board[i];
        let m = choose|m: int| 0 <= m < st.board.len() && st.board[m] == a;
        assert(st.players.contains_key(st.board[m]));
    }
}

/// Storing a record keeps the state well formed.
pub proof fn record_keeps_board_sorted(st: RatingState, pr: PlayerRating, min_hands: u32)
    requires
        st.wf(),
        st.board.len() < u32::MAX,
        min_hands == st.settings().min_hands,
    ensures
        st.with_record(pr, min_hands).wf(),
        st.with_record(pr, min_hands).board.len() <= st.board.len() + 1,
        st.with_record(pr, min_hands).board.contains(pr.address) <==> pr.hands_played >= min_hands,
{
    let n = st.with_record(pr, min_hands);
    let rest = without(st.board, pr.address);
    lemma_without(st.board, pr.address);
    lemma_without_sorted(st.board, pr.address, st.players);
    assert forall|i: int| 0 <= i < rest.len() implies n.players.contains_key(#[trigger] rest[i])
        && rest[i] != pr.address && n.players[rest[i]].hands_played >= min_hands by {
        assert(rest.contains(rest[i]));
        assert(st.board.contains(rest[i]));
        let m = choose|m: int| 0 <= m < st.board.len() && st.board[m] == rest[i];
        assert(st.players.contains_key(st.board[m]));
    }
    assert forall|i: int, j: int| 0 <= i < j < rest.len() implies rating_of(
        n.players,
        #[trigger] rest[i],
    ) >= rating_of(n.players, #[trigger] rest[j]) by {
        assert(rating_of(n.players, rest[i]) == rating_of(st.players, rest[i]));
        assert(rating_of(n.players, rest[j]) == rating_of(st.players, rest[j]));
    }
    if pr.hands_played >= min_hands {
        let k = place_for(rest, n.players, pr.rating as int);
        lemma_place_for(rest, n.players, pr.rating as int);
        let b = n.board;
        assert(b.len() == rest.len() + 1);
        assert(b[k] == pr.address);
        assert forall|i: int| 0 <= i < b.len() implies n.players.contains_key(#[trigger] b[i])
            && n.players[b[i]].hands_played >= min_hands by {
            if i < k {
                assert(b[i] == rest[i]);
            } else if i > k {
                assert(b[i] == rest[i - 1]);
            }
        }
        assert forall|i: int, j: int| 0 <= i < b.len() && 0 <= j < b.len() && i != j implies b[i]
            != b[j] by {
            let ri = if i < k {
                i
            } else {
                i - 1
            };
            let rj = if j < k {
                j
            } else {
                j - 1
            };
            if i != k {
                assert(b[i] == rest[ri]);
            }
            if j != k {
                assert(b[j] == rest[rj]);
            }
        }
        assert forall|i: int, j: int| 0 <= i < j < b.len() implies rating_of(
            n.players,
            #[trigger] b[i],
        ) >= rating_of(n.players, #[trigger] b[j]) by {
            let ri = if i < k {
                i
            } else {
                i - 1
            };
            let rj = if j < k {
                j
            } else {
                j - 1
            };
            if i != k {
                assert(b[i] == rest[ri]);
            }
            if j != k {
                assert(b[j] == rest[rj]);
                if i == k && rj > k {
                    assert(rating_of(n.players, rest[k]) >= rating_of(n.players, rest[rj]));
                }
            }
        }
    }
}

proof fn lemma_field_sum_bound(bases: Seq<PlayerRating>, winner: int)
    ensures
        0 <= field_sum(bases, winner) <= bases.len() * u32::MAX,
        0 <= winner < bases.len() ==> field_sum(bases, winner) <= (bases.len() - 1) * u32::MAX,
    decreases bases.len(),
{
    if bases.len() > 0 {
        lemma_field_sum_bound(bases.drop_last(), winner);
    }
}

/// The rating contract.
pub struct PlayerRatingContract {
    admin: Option<Address>,
    config: Option<RatingConfig>,
    players: AssocMap<Address, PlayerRating>,
    board: Vec<Address>,
    recorders: AssocMap<Address, bool>,
    paused: Option<bool>,
}

impl View for PlayerRatingContract {
    type V = RatingState;

    closed spec fn view(&self) -> RatingState {
        RatingState {
            admin: self.admin,
            config: self.config,
            players: self.players@,
            board: self.board@,
            recorders: self.recorders@,
            paused: self.paused,
        }
    }
}

/// An administrative step: `next` where the administrator calls.
pub open spec fn admin_step(
    before: RatingState,
    admin: Address,
    next: RatingState,
    after: RatingState,
    r: Result<(), RatingError>,
) -> bool {
    if before.admin is None {
        r == Err::<(), _>(RatingError::NotInitialized) && after == before
    } else if before.admin != Some(admin) {
        r == Err::<(), _>(RatingError::Unauthorized) && after == before
    } else {
        r is Ok && after == next
    }
}

impl PlayerRatingContract {
    /// A contract that nobody has set up yet.
    pub fn new() -> (r: Self)
        ensures
            r@ == (RatingState {
                admin: None,
                config: None,
                players: Map::empty(),
                board: Seq::empty(),
                recorders: Map::empty(),
                paused: None,
            }),
            r@.wf(),
    {
        PlayerRatingContract {
            admin: None,
            config: None,
            players: AssocMap::new(),
            board: Vec::new(),
            recorders: AssocMap::new(),
            paused: None,
        }
    }

    /// Sets the administrator and the configuration, once.
    pub fn initialize(&mut self, admin: Address, min_hands: u32, k_factor: u32, initial_rating: u32) -> (r:
        Result<(), RatingError>)
        ensures
            r == (if old(self)@.admin is Some {
                Err::<(), _>(RatingError::AlreadyInitialized)
            } else if k_factor == 0 || initial_rating == 0 {
                Err(RatingError::InvalidConfig)
            } else {
                Ok(())
            }),
            r is Err ==> final(self)@ == old(self)@,
            r is Ok ==> final(self)@ == (RatingState {
                admin: Some(admin),
                config: Some(RatingConfig { min_hands, k_factor, initial_rating }),
                board: Seq::empty(),
                paused: Some(false),
                ..old(self)@
            }),
            old(self)@.wf() ==> final(self)@.wf(),
            r is Ok <==> old(self)@.admin is None && k_factor > 0 && initial_rating > 0,
            r is Ok ==> final(self)@.settings() == (RatingConfig {
                min_hands,
                k_factor,
                initial_rating,
            }) && final(self)@.admin == Some(admin) && final(self)@.board.len() == 0,
    {
        if self.admin.is_some() {
            return Err(RatingError::AlreadyInitialized);
        }
        if k_factor == 0 || initial_rating == 0 {
            return Err(RatingError::InvalidConfig);
        }
        self.admin = Some(admin);
        self.config = Some(RatingConfig { min_hands, k_factor, initial_rating });
        self.board = Vec::new();
        self.paused = Some(false);
        Ok(())
    }

    /// Lets an address record hands.
    pub fn add_recorder(&mut self, admin: Address, recorder: Address) -> (r: Result<(), RatingError>)
        ensures
            admin_step(
                old(self)@,
                admin,
                RatingState { recorders: old(self)@.recorders.insert(recorder, true), ..old(self)@ },
                final(self)@,
                r,
            ),
    {
        match self.require_admin(&admin) {
            Ok(_) => {},
            Err(e) => {
                return Err(e);
            },
        }
        self.recorders.insert(recorder, true);
        Ok(())
    }

    /// No longer lets an address record hands.
    pub fn remove_recorder(&mut self, admin: Address, recorder: Address) -> (r: Result<
        (),
        RatingError,
    >)
        ensures
            admin_step(
                old(self)@,
                admin,
                RatingState { recorders: old(self)@.recorders.remove(recorder), ..old(self)@ },
                final(self)@,
                r,
            ),
    {
        match self.require_admin(&admin) {
            Ok(_) => {},
            Err(e) => {
                return Err(e);
            },
        }
        let _ = self.recorders.remove(&recorder);
        Ok(())
    }

    /// Changes the hands needed for the board and the weight of a hand. Ratings stay. Whoever has
    /// too few hands leaves the board.
    pub fn set_config(&mut self, admin: Address, min_hands: u32, k_factor: u32) -> (r: Result<
        (),
        RatingError,
    >)
        ensures
            old(self)@.admin == Some(admin) && k_factor == 0 ==> r == Err::<(), _>(
                RatingError::InvalidConfig,
            ) && final(self)@ == old(self)@,
            old(self)@.admin != Some(admin) || k_factor != 0 ==> admin_step(
                old(self)@,
                admin,
                old(self)@.with_config(min_hands, k_factor),
                final(self)@,
                r,
            ),
            old(self)@.wf() ==> final(self)@.wf(),
    {
        match self.require_admin(&admin) {
            Ok(_) => {},
            Err(e) => {
                return Err(e);
            },
        }
        if k_factor == 0 {
            return Err(RatingError::InvalidConfig);
        }
        let cfg = self.settings();
        let mut board: Vec<Address> = Vec::new();
        let mut i: usize = 0;
        while i < self.board.len()
            invariant
                i <= self.board@.len(),
                board@ == eligible_among(
                    self.board@.take(i as int),
                    self.players@,
                    min_hands as int,
                ),
            decreases self.board@.len() - i,
        {
            let a = self.board[i];
            assert(self.board@.take(i + 1).drop_last() =~= self.board@.take(i as int));
            let hands: u32 = match self.players.get(&a) {
                Some(pr) => pr.hands_played,
                None => 0,
            };
            if hands >= min_hands {
                board.push(a);
            }
            i += 1;
        }
        assert(self.board@.take(i as int) =~= self.board@);
        self.config = Some(
            RatingConfig { min_hands, k_factor, initial_rating: cfg.initial_rating },
        );
        self.board = board;
        proof {
            if old(self)@.wf() {
                config_keeps_board_eligible(old(self)@, min_hands, k_factor);
            }
        }
        Ok(())
    }

    /// Stops the recording of hands.
    pub fn pause(&mut self, admin: Address) -> (r: Result<(), RatingError>)
        ensures
            admin_step(
                old(self)@,
                admin,
                RatingState { paused: Some(true), ..old(self)@ },
                final(self)@,
                r,
            ),
    {
        match self.require_admin(&admin) {
            Ok(_) => {},
            Err(e) => {
                return Err(e);
            },
        }
        self.paused = Some(true);
        Ok(())
    }

    /// Resumes the recording of hands.
    pub fn unpause(&mut self, admin: Address) -> (r: Result<(), RatingError>)
        ensures
            admin_step(
                old(self)@,
                admin,
                RatingState { paused: Some(false), ..old(self)@ },
                final(self)@,
                r,
            ),
    {
        match self.require_admin(&admin) {
            Ok(_) => {},
            Err(e) => {
                return Err(e);
            },
        }
        self.paused = Some(false);
        Ok(())
    }

    /// Records a finished hand, at ledger `ledger`: the winner gains against the average of the
    /// other participants, and each of them loses against the winner.
    #[verifier::rlimit(40)]
    pub fn record_hand(
        &mut self,
        caller: Address,
        participants: &Vec<Address>,
        winner_index: u32,
        ledger: u32,
    ) -> (r: Result<(), RatingError>)
        requires
            old(self)@.wf(),
            participants@.len() <= u32::MAX,
            old(self)@.board.len() + participants@.len() <= u32::MAX,
            old(self)@.hand_refusal(caller, participants@.len() as int, winner_index as int) is None
                ==> forall|i: int|
                0 <= i < participants@.len() ==> old(self)@.base(
                    #[trigger] participants@[i],
                    ledger,
                ).hands_played < u32::MAX && (i == winner_index ==> old(self)@.base(
                    participants@[i],
                    ledger,
                ).hands_won < u32::MAX),
        ensures
            match old(self)@.hand_refusal(caller, participants@.len() as int, winner_index as int) {
                Some(e) => r == Err::<(), _>(e) && final(self)@ == old(self)@,
                None => r is Ok && final(self)@ == old(self)@.with_records(
                    old(self)@.updates(participants@, winner_index as int, ledger),
                    old(self)@.settings().min_hands,
                ),
            },
            final(self)@.wf(),
    {
        match self.require_not_paused() {
            Ok(_) => {},
            Err(e) => {
                return Err(e);
            },
        }
        match self.require_recorder_or_admin(&caller) {
            Ok(_) => {},
            Err(e) => {
                return Err(e);
            },
        }
        let n: usize = participants.len();
        let w: usize = winner_index as usize;
        if n < 2 || w >= n {
            return Err(RatingError::EmptyResults);
        }
        let cfg = self.settings();
        let ghost st0 = self@;
        let ghost gbases = st0.bases(participants@, ledger);
        let mut bases: Vec<PlayerRating> = Vec::new();
        let mut i: usize = 0;
        while i < n
            invariant
                i <= n,
                n == participants@.len(),
                self@ == st0,
                cfg == st0.settings(),
                gbases == st0.bases(participants@, ledger),
                bases@ == gbases.take(i as int),
            decreases n - i,
        {
            let pr = self.get_or_create(&participants[i], &cfg, ledger);
            assert(gbases.take(i + 1) =~= gbases.take(i as int).push(gbases[i as int]));
            bases.push(pr);
            i += 1;
        }
        assert(bases@ =~= gbases);
        let winner_rating: u32 = bases[w].rating;
        let mut opp_sum: u64 = 0;
        let mut j: usize = 0;
        while j < n
            invariant
                j <= n,
                n == bases@.len(),
                n <= u32::MAX,
                w < n,
                bases@ == gbases,
                opp_sum == field_sum(gbases.take(j as int), w as int),
            decreases n - j,
        {
            proof {
                assert(gbases.take(j + 1).drop_last() =~= gbases.take(j as int));
                lemma_field_sum_bound(gbases.take(j as int), w as int);
                assert(j * u32::MAX + u32::MAX <= u64::MAX) by (nonlinear_arith)
                    requires
                        j < u32::MAX,
                ;
            }
            if j != w {
                opp_sum = opp_sum + bases[j].rating as u64;
            }
            j += 1;
        }
        assert(gbases.take(j as int) =~= gbases);
        let opp_avg64: u64 = opp_sum / (n as u64 - 1);
        proof {
            lemma_field_sum_bound(gbases, w as int);
            assert(opp_avg64 <= u32::MAX) by (nonlinear_arith)
                requires
                    opp_avg64 == opp_sum / (n as u64 - 1) as u64,
                    n >= 2,
                    opp_sum <= (n - 1) * u32::MAX,
            ;
        }
        let opp_avg: u32 = opp_avg64 as u32;
        let winner_delta: i32 = elo_delta(winner_rating, opp_avg, true, cfg.k_factor);
        let new_winner: u32 = apply_delta(winner_rating, winner_delta);
        let ghost ups = st0.updates(participants@, w as int, ledger);
        let mut m: usize = 0;
        assert(ups.take(0) =~= Seq::empty());
        while m < n
            invariant
                m <= n,
                n == participants@.len(),
                n == bases@.len(),
                w < n,
                n >= 2,
                st0 == old(self)@,
                cfg == st0.settings(),
                bases@ == gbases,
                gbases == st0.bases(participants@, ledger),
                ups == st0.updates(participants@, w as int, ledger),
                winner_rating == gbases[w as int].rating,
                opp_avg == (field_sum(gbases, w as int) / (n - 1)) as u32,
                new_winner == moved_rating(
                    winner_rating as int,
                    delta_of(winner_rating as int, opp_avg as int, true, cfg.k_factor as int) as i32 as int,
                ),
                st0.wf(),
                st0.board.len() + n <= u32::MAX,
                forall|q: int|
                    0 <= q < n ==> st0.base(#[trigger] participants@[q], ledger).hands_played
                        < u32::MAX && (q == w ==> st0.base(participants@[q], ledger).hands_won
                        < u32::MAX),
                self@ == st0.with_records(ups.take(m as int), cfg.min_hands),
                self@.config == st0.config,
                self@.wf(),
                self@.board.len() <= st0.board.len() + m,
            decreases n - m,
        {
            let b = bases[m];
            assert(b == st0.base(participants@[m as int], ledger));
            let hands_won: u32 = if m == w {
                b.hands_won + 1
            } else {
                b.hands_won
            };
            let rating: u32 = if m == w {
                new_winner
            } else {
                let d: i32 = elo_delta(b.rating, winner_rating, false, cfg.k_factor);
                apply_delta(b.rating, d)
            };
            let updated = PlayerRating {
                address: participants[m],
                rating,
                hands_played: b.hands_played + 1,
                hands_won,
                last_update_ledger: ledger,
            };
            assert(b.address == participants@[m as int]);
            assert(updated == ups[m as int]);
            proof {
                assert(ups.take(m + 1).drop_last() =~= ups.take(m as int));
                record_keeps_board_sorted(self@, updated, cfg.min_hands);
            }
            let ghost stm = self@;
            self.players.insert(updated.address, updated);
            assert(self@.players.insert(updated.address, updated) =~= stm.players.insert(
                updated.address,
                updated,
            ));
            self.refresh_leaderboard_entry(&updated, cfg.min_hands);
            m += 1;
        }
        assert(ups.take(m as int) =~= ups);
        Ok(())
    }

    /// A player's record, or the one that a new player starts with.
    pub fn get_rating(&self, player: Address) -> (r: Result<PlayerRating, RatingError>)
        ensures
            r == (if self@.admin is None {
                Err(RatingError::NotInitialized)
            } else {
                Ok(self@.base(player, 0))
            }),
    {
        match self.require_initialized() {
            Ok(_) => {},
            Err(e) => {
                return Err(e);
            },
        }
        let cfg = self.settings();
        Ok(self.get_or_create(&player, &cfg, 0))
    }

    /// A page of the board, from the highest rating down. The board holds only players with
    /// enough hands.
    pub fn get_leaderboard(&self, offset: u32, limit: u32) -> (r: Result<
        Vec<PlayerRating>,
        RatingError,
    >)
        requires
            self@.wf(),
        ensures
            match r {
                Err(e) => if self@.admin is None {
                    e == RatingError::NotInitialized
                } else {
                    e == RatingError::LimitTooLarge && !(1 <= limit <= MAX_LEADERBOARD_LIMIT)
                },
                Ok(page) => self@.admin is Some && 1 <= limit <= MAX_LEADERBOARD_LIMIT && page@
                    == leaderboard_page(self@, offset as int, limit as int),
            },
            r is Ok <==> self@.admin is Some && 1 <= limit <= 50,
            r matches Ok(page) ==> page@.len() <= limit,
    {
        match self.require_initialized() {
            Ok(_) => {},
            Err(e) => {
                return Err(e);
            },
        }
        if limit == 0 || limit > MAX_LEADERBOARD_LIMIT {
            return Err(RatingError::LimitTooLarge);
        }
        let upto: usize = offset.saturating_add(limit) as usize;
        let end: usize = if upto <= self.board.len() {
            upto
        } else {
            self.board.len()
        };
        let ghost page = leaderboard_page(self@, offset as int, limit as int);
        let mut out: Vec<PlayerRating> = Vec::new();
        let mut i: usize = offset as usize;
        while i < end
            invariant
                self@.wf(),
                end <= self.board@.len(),
                page == leaderboard_page(self@, offset as int, limit as int),
                end > offset ==> page.len() == end - offset,
                end <= offset ==> page.len() == 0 && i == offset,
                i >= offset,
                end > offset ==> i <= end,
                out@ == page.take(i - offset),
            decreases end - i,
        {
            assert(page[i - offset] == self@.players[self@.board[i as int]]);
            assert(self@.players.contains_key(self@.board[i as int]));
            let a = self.board[i];
            if let Some(pr) = self.players.get(&a) {
                out.push(*pr);
            }
            assert(page.take(i + 1 - offset) =~= page.take(i - offset).push(page[i - offset]));
            i += 1;
        }
        assert(out@ =~= page);
        Ok(out)
    }

    /// The configuration in force.
    pub fn get_config(&self) -> (r: Result<RatingConfig, RatingError>)
        ensures
            r == (if self@.admin is None {
                Err(RatingError::NotInitialized)
            } else {
                Ok(self@.settings())
            }),
    {
        match self.require_initialized() {
            Ok(_) => Ok(self.settings()),
            Err(e) => Err(e),
        }
    }

    /// How many players are on the board.
    pub fn leaderboard_size(&self) -> (r: Result<u32, RatingError>)
        requires
            self@.wf(),
        ensures
            r == (if self@.admin is None {
                Err(RatingError::NotInitialized)
            } else {
                Ok(self@.board.len() as u32)
            }),
    {
        match self.require_initialized() {
            Ok(_) => Ok(self.board.len() as u32),
            Err(e) => Err(e),
        }
    }

    fn settings(&self) -> (r: RatingConfig)
        ensures
            r == self@.settings(),
    {
        match self.config {
            Some(c) => c,
            None => RatingConfig {
                min_hands: DEFAULT_MIN_HANDS,
                k_factor: DEFAULT_K_FACTOR,
                initial_rating: DEFAULT_RATING,
            },
        }
    }

    fn require_initialized(&self) -> (r: Result<(), RatingError>)
        ensures
            r == (if self@.admin is None {
                Err::<(), _>(RatingError::NotInitialized)
            } else {
                Ok(())
            }),
    {
        if self.admin.is_some() {
            Ok(())
        } else {
            Err(RatingError::NotInitialized)
        }
    }

    fn require_admin(&self, admin: &Address) -> (r: Result<(), RatingError>)
        ensures
            r == (if self@.admin is None {
                Err::<(), _>(RatingError::NotInitialized)
            } else if self@.admin != Some(*admin) {
                Err(RatingError::Unauthorized)
            } else {
                Ok(())
            }),
    {
        match self.admin {
            None => Err(RatingError::NotInitialized),
            Some(a) => if a == *admin {
                Ok(())
            } else {
                Err(RatingError::Unauthorized)
            },
        }
    }

    fn require_recorder_or_admin(&self, caller: &Address) -> (r: Result<(), RatingError>)
        ensures
            r == (if self@.admin is None {
                Err::<(), _>(RatingError::NotInitialized)
            } else if !self@.may_record(*caller) {
                Err(RatingError::Unauthorized)
            } else {
                Ok(())
            }),
    {
        match self.admin {
            None => {
                return Err(RatingError::NotInitialized);
            },
            Some(a) => {
                if a == *caller {
                    return Ok(());
                }
            },
        }
        match self.recorders.get(caller) {
            Some(yes) => if *yes {
                Ok(())
            } else {
                Err(RatingError::Unauthorized)
            },
            None => Err(RatingError::Unauthorized),
        }
    }

    fn require_not_paused(&self) -> (r: Result<(), RatingError>)
        ensures
            r == (if self@.admin is None {
                Err::<(), _>(RatingError::NotInitialized)
            } else if self@.paused == Some(true) {
                Err(RatingError::Paused)
            } else {
                Ok(())
            }),
    {
        if self.admin.is_none() {
            return Err(RatingError::NotInitialized);
        }
        match self.paused {
            Some(p) => if p {
                Err(RatingError::Paused)
            } else {
                Ok(())
            },
            None => Ok(()),
        }
    }

    fn get_or_create(&self, addr: &Address, cfg: &RatingConfig, ledger: u32) -> (r: PlayerRating)
        requires
            *cfg == self@.settings(),
        ensures
            r == self@.base(*addr, ledger),
    {
        match self.players.get(addr) {
            Some(pr) => *pr,
            None => PlayerRating {
                address: *addr,
                rating: cfg.initial_rating,
                hands_played: 0,
                hands_won: 0,
                last_update_ledger: ledger,
            },
        }
    }

    /// The first place of the board whose rating is below `rating`.
    fn place(&self, board: &Vec<Address>, rating: u32) -> (k: usize)
        ensures
            k == place_for(board@, self@.players, rating as int),
    {
        let mut k: usize = 0;
        while k < board.len()
            invariant
                k <= board@.len(),
                place_for(board@.take(k as int), self@.players, rating as int) == k,
            decreases board@.len() - k,
        {
            assert(board@.take(k + 1).drop_last() =~= board@.take(k as int));
            let other: u32 = match self.players.get(&board[k]) {
                Some(o) => o.rating,
                None => 0,
            };
            if rating > other {
                proof {
                    lemma_place_stays(board@, self@.players, rating as int, k as int);
                }
                return k;
            }
            k += 1;
        }
        assert(board@.take(k as int) =~= board@);
        k
    }

    /// Takes a player off the board, and puts them back in their place once they have enough
    /// hands.
    fn refresh_leaderboard_entry(&mut self, pr: &PlayerRating, min_hands: u32)
        requires
            old(self)@.players.contains_key(pr.address),
            old(self)@.players[pr.address] == *pr,
        ensures
            final(self)@ == old(self)@.with_record(*pr, min_hands),
    {
        assert(self@.players.insert(pr.address, *pr) =~= self@.players);
        let mut board = copy_without(&self.board, &pr.address);
        let ghost rest = board@;
        if pr.hands_played >= min_hands {
            let k: usize = self.place(&board, pr.rating);
            proof {
                lemma_place_for(rest, self@.players, pr.rating as int);
            }
            board.insert(k, pr.address);
        }
        self.board = board;
    }
}

/// Once a place is found, the rest of the board does not change it.
proof fn lemma_place_stays(
    board: Seq<Address>,
    players: Map<Address, PlayerRating>,
    rating: int,
    k: int,
)
    requires
        0 <= k <= board.len(),
        place_for(board.take(k), players, rating) == k,
    ensures
        k < board.len() && rating_of(players, board[k]) < rating ==> place_for(
            board,
            players,
            rating,
        ) == k,
        k == board.len() ==> place_for(board, players, rating) == k,
    decreases board.len(),
{
    if k == board.len() {
        assert(board.take(k) =~= board);
    } else if rating_of(players, board[k]) < rating {
        let d = board.drop_last();
        if k < d.len() {
            assert(d.take(k) =~= board.take(k));
            assert(d[k] == board[k]);
            lemma_place_stays(d, players, rating, k);
        } else {
            assert(board.take(k) =~= d);
        }
    }
}

/// The records on a page of the board.
pub open spec fn leaderboard_page(st: RatingState, offset: int, limit: int) -> Seq<PlayerRating> {
    let end = if offset + limit < st.board.len() {
        offset + limit
    } else {
        st.board.len() as int
    };
    Seq::new(
        if offset < end {
            (end - offset) as nat
        } else {
            0
        },
        |i: int| st.players[st.board[offset + i]],
    )
}

/// A hand never takes from its winner nor gives to a loser, and never moves a rating by more than
/// the weight of the hand.
pub proof fn winner_gains_loser_loses(player: int, opponent: int, k: int)
    requires
        0 <= k,
    ensures
        0 <= delta_of(player, opponent, true, k) <= k,
        -k <= delta_of(player, opponent, false, k) <= 0,
{
    let e = expected_bp(player, opponent);
    assert(1000 <= e <= 9000);
    assert(0 <= k * (10_000 - e) <= k * 10_000) by (nonlinear_arith)
        requires
            0 <= k,
            1000 <= e <= 9000,
    ;
    assert(0 <= k * e <= k * 10_000) by (nonlinear_arith)
        requires
            0 <= k,
            1000 <= e <= 9000,
    ;
}

/// The expected scores of two players sum to one.
pub proof fn expected_scores_balance(a: int, b: int)
    requires
        a - b != 100 && a - b != -100 && a - b != 200 && a - b != -200 && a - b != 400 && a - b
            != -400,
    ensures
        expected_bp(a, b) + expected_bp(b, a) == 10_000,
{
}

/// Whatever a hand does, ratings stay between 100 and 4000.
pub proof fn ratings_stay_in_range(rating: int, delta: int)
    ensures
        100 <= moved_rating(rating, delta) <= 4000,
{
}

/// The winner's rating does not fall and a loser's does not rise, for ratings in range and a
/// weight that fits a signed number.
pub proof fn hand_orders_players(rating: int, opponent: int, k: int)
    requires
        100 <= rating <= 4000,
        0 <= k <= i32::MAX,
    ensures
        moved_rating(rating, delta_of(rating, opponent, true, k) as i32 as int) >= rating,
        moved_rating(rating, delta_of(rating, opponent, false, k) as i32 as int) <= rating,
{
    winner_gains_loser_loses(rating, opponent, k);
}

/// The stronger player is expected to score at least half, the weaker at most half, and equal
/// players half each.
pub proof fn the_stronger_is_expected_to_win(a: int, b: int)
    ensures
        a >= b ==> expected_bp(a, b) >= 5_000,
        a <= b ==> expected_bp(a, b) <= 5_000,
        a - b >= 100 ==> expected_bp(a, b) > 5_000,
        b - a > 100 ==> expected_bp(a, b) < 5_000,
{
}

/// The expected score does not fall as the player's rating rises, and does not rise as the
/// opponent's does.
pub proof fn expected_score_follows_ratings(a: int, better: int, b: int, stronger: int)
    requires
        a <= better,
        b <= stronger,
    ensures
        expected_bp(a, b) <= expected_bp(better, b),
        expected_bp(a, b) >= expected_bp(a, stronger),
{
}

/// Only the gap between two ratings counts, and of that no more than four hundred points.
pub proof fn only_the_gap_counts(a: int, b: int, d: int)
    ensures
        expected_bp(a + d, b + d) == expected_bp(a, b),
        a - b >= 400 && d >= 0 ==> expected_bp(a + d, b) == expected_bp(a, b),
        b - a > 400 && d >= 0 ==> expected_bp(a, b + d) == expected_bp(a, b),
{
}

/// A win against a stronger opponent is worth at least as much as one against a weaker, and a loss
/// to a stronger opponent costs at most as much as one to a weaker. A hand of greater weight moves
/// a rating at least as far.
pub proof fn upsets_are_worth_more(
    player: int,
    opponent: int,
    stronger: int,
    k: int,
    heavier: int,
)
    requires
        opponent <= stronger,
        0 <= k <= heavier,
    ensures
        delta_of(player, opponent, true, k) <= delta_of(player, stronger, true, k),
        delta_of(player, opponent, false, k) <= delta_of(player, stronger, false, k),
        delta_of(player, opponent, true, k) <= delta_of(player, opponent, true, heavier),
        delta_of(player, opponent, false, k) >= delta_of(player, opponent, false, heavier),
{
    let (e, f) = (expected_bp(player, opponent), expected_bp(player, stronger));
    assert(f <= e && 0 <= f && e <= 10_000);
    assert(k * (10_000 - e) <= k * (10_000 - f) && k * f <= k * e && k * (10_000 - e) <= heavier * (
    10_000 - e) && k * e <= heavier * e) by (nonlinear_arith)
        requires
            0 <= k <= heavier,
            0 <= f <= e <= 10_000,
    ;
}

/// What a hand is worth by the gap between the ratings, in shares of its weight: a favourite by
/// four hundred points wins a tenth and loses nine tenths; by two hundred, a quarter and three
/// quarters; by one hundred, thirty-six and sixty-four hundredths. For the weaker player it is the
/// other way round once the gap is exceeded. Fractions of a point are dropped.
pub proof fn shares_by_gap(player: int, opponent: int, k: int)
    requires
        0 <= k,
    ensures
        ({
            let win = delta_of(player, opponent, true, k);
            let loss = -delta_of(player, opponent, false, k);
            let lead = player - opponent;
            &&& lead >= 400 ==> 10 * win <= k < 10 * (win + 1) && 10 * loss <= 9 * k < 10 * (loss
                + 1)
            &&& 200 <= lead < 400 ==> 4 * win <= k < 4 * (win + 1) && 4 * loss <= 3 * k < 4 * (loss
                + 1)
            &&& 100 <= lead < 200 ==> 25 * win <= 9 * k < 25 * (win + 1) && 25 * loss <= 16 * k
                < 25 * (loss + 1)
            &&& lead == 0 ==> 2 * win <= k < 2 * (win + 1) && win == loss
            &&& -200 <= lead < -100 ==> 25 * win <= 16 * k < 25 * (win + 1) && 25 * loss <= 9 * k
                < 25 * (loss + 1)
            &&& -400 <= lead < -200 ==> 4 * win <= 3 * k < 4 * (win + 1) && 4 * loss <= k < 4 * (
            loss + 1)
            &&& lead < -400 ==> 10 * win <= 9 * k < 10 * (win + 1) && 10 * loss <= k < 10 * (loss
                + 1)
        }),
{
    let e = expected_bp(player, opponent);
    assert(k * (10_000 - e) == 10_000 * k - k * e) by (nonlinear_arith);
    if player - opponent >= 400 {
        assert(k * e == 9_000 * k);
    } else if player - opponent >= 200 {
        assert(k * e == 7_500 * k);
    } else if player - opponent >= 100 {
        assert(k * e == 6_400 * k);
    } else if player == opponent {
        assert(e == 5_000);
        assert(k * e == 5_000 * k);
    } else if -200 <= player - opponent < -100 {
        assert(k * e == 3_600 * k);
    } else if -400 <= player - opponent < -200 {
        assert(k * e == 2_500 * k);
    } else if player - opponent < -400 {
        assert(k * e == 1_000 * k);
    }
}

/// Within a hundred points the expected score moves by fourteen parts in ten thousand for every
/// ten points of the gap.
pub proof fn close_ratings_shift_evenly(a: int, b: int)
    requires
        -100 <= a - b < 100,
    ensures
        a >= b ==> 10 * (expected_bp(a, b) - 5_000) <= 14 * (a - b) < 10 * (expected_bp(a, b)
            - 5_000) + 10,
        a <= b ==> 10 * (5_000 - expected_bp(a, b)) <= 14 * (b - a) < 10 * (5_000 - expected_bp(
            a,
            b,
        )) + 10,
{
}

/// Between two players a hand takes from the loser what it gives to the winner, but for the gaps
/// at which the expected scores do not sum to the whole.
pub proof fn hands_between_two_are_zero_sum(a: int, b: int, k: int)
    requires
        0 <= k,
        a - b != 100 && a - b != -100 && a - b != 200 && a - b != -200 && a - b != 400 && a - b
            != -400,
    ensures
        delta_of(a, b, true, k) + delta_of(b, a, false, k) == 0,
{
    expected_scores_balance(a, b);
    assert(10_000 - expected_bp(a, b) == expected_bp(b, a));
}

/// A rating that stays in range moves by exactly the change, and one that would leave it stops at
/// the end that it would cross. A larger change never leads to a smaller rating.
pub proof fn ratings_move_by_the_change(rating: int, delta: int, more: int)
    requires
        delta <= more,
    ensures
        100 <= rating + delta <= 4_000 ==> moved_rating(rating, delta) == rating + delta,
        rating + delta <= 100 ==> moved_rating(rating, delta) == 100,
        rating + delta >= 4_000 ==> moved_rating(rating, delta) == 4_000,
        moved_rating(rating, delta) <= moved_rating(rating, more),
{
}

proof fn lemma_field_between(bases: Seq<PlayerRating>, winner: int, low: int, high: int)
    requires
        0 <= winner,
        forall|i: int|
            0 <= i < bases.len() && i != winner ==> low <= (#[trigger] bases[i]).rating <= high,
    ensures
        ({
            let n = bases.len() - (if winner < bases.len() {
                1int
            } else {
                0
            });
            low * n <= field_sum(bases, winner) <= high * n
        }),
    decreases bases.len(),
{
    if bases.len() > 0 {
        let d = bases.drop_last();
        assert forall|i: int| 0 <= i < d.len() && i != winner implies low <= (
        #[trigger] d[i]).rating <= high by {
            assert(d[i] == bases[i]);
        }
        lemma_field_between(d, winner, low, high);
        let m = d.len() - (if winner < d.len() {
            1int
        } else {
            0
        });
        if bases.len() - 1 != winner {
            assert(low <= bases[bases.len() - 1].rating <= high);
            assert(low * (m + 1) == low * m + low && high * (m + 1) == high * m + high)
                by (nonlinear_arith);
        }
    } else {
        assert(low * 0 == 0 && high * 0 == 0);
    }
}

/// A recorded hand counts for everyone who took part, and as a win for the winner alone, at the
/// ledger it is recorded at. Each loser loses against the winner; the winner gains as against one
/// opponent whose rating lies between the lowest and the highest of the others.
pub proof fn hands_count_for_all_and_win_for_one(
    bases: Seq<PlayerRating>,
    i: int,
    winner: int,
    k: u32,
    ledger: u32,
    low: u32,
    high: u32,
)
    requires
        2 <= bases.len() <= u32::MAX,
        0 <= i < bases.len(),
        0 <= winner < bases.len(),
        bases[i].hands_played < u32::MAX,
        bases[i].hands_won < u32::MAX,
        k <= i32::MAX,
        forall|j: int|
            0 <= j < bases.len() && j != winner ==> low <= (#[trigger] bases[j]).rating <= high,
    ensures
        ({
            let n = updated_record(bases, i, winner, k, ledger);
            let b = bases[i];
            &&& n.address == b.address
            &&& n.hands_played == b.hands_played + 1
            &&& n.hands_won == b.hands_won + (if i == winner {
                1int
            } else {
                0
            })
            &&& n.last_update_ledger == ledger
            &&& i != winner ==> n.rating == moved_rating(
                b.rating as int,
                delta_of(b.rating as int, bases[winner].rating as int, false, k as int),
            )
            &&& i == winner ==> moved_rating(
                b.rating as int,
                delta_of(b.rating as int, low as int, true, k as int),
            ) <= n.rating <= moved_rating(
                b.rating as int,
                delta_of(b.rating as int, high as int, true, k as int),
            )
        }),
{
    let b = bases[i];
    let m = bases.len() - 1;
    let sum = field_sum(bases, winner);
    lemma_field_between(bases, winner, low as int, high as int);
    let avg = sum / m;
    assert(low <= avg <= high) by (nonlinear_arith)
        requires
            low * m <= sum <= high * m,
            m > 0,
            avg == sum / m,
    ;
    winner_gains_loser_loses(b.rating as int, avg, k as int);
    winner_gains_loser_loses(b.rating as int, low as int, k as int);
    winner_gains_loser_loses(b.rating as int, high as int, k as int);
    winner_gains_loser_loses(b.rating as int, bases[winner].rating as int, k as int);
    upsets_are_worth_more(b.rating as int, low as int, avg, k as int, k as int);
    upsets_are_worth_more(b.rating as int, avg, high as int, k as int, k as int);
}

/// Storing a record leaves every other record as it is, and the order of the others on the board.
/// The player stands behind all who are rated at least as high, and before all who are rated
/// lower.
pub proof fn newcomers_stand_behind_their_equals(
    st: RatingState,
    pr: PlayerRating,
    min_hands: u32,
    other: Address,
)
    requires
        other != pr.address,
    ensures
        ({
            let n = st.with_record(pr, min_hands);
            &&& n.players[pr.address] == pr
            &&& n.players.contains_key(other) == st.players.contains_key(other)
            &&& n.players[other] == st.players[other]
            &&& n.admin == st.admin && n.config == st.config && n.recorders == st.recorders
                && n.paused == st.paused
            &&& pr.hands_played >= min_hands ==> exists|k: int|
                {
                    &&& 0 <= k < n.board.len()
                    &&& #[trigger] n.board[k] == pr.address
                    &&& forall|i: int|
                        0 <= i < k ==> rating_of(n.players, #[trigger] n.board[i]) >= pr.rating
                    &&& k + 1 < n.board.len() ==> rating_of(n.players, n.board[k + 1]) < pr.rating
                }
            &&& without(n.board, pr.address) == without(st.board, pr.address)
        }),
{
    let n = st.with_record(pr, min_hands);
    let rest = without(st.board, pr.address);
    let k = place_for(rest, n.players, pr.rating as int);
    lemma_place_for(rest, n.players, pr.rating as int);
    lemma_without(st.board, pr.address);
    if pr.hands_played >= min_hands {
        assert(n.board[k] == pr.address);
        assert forall|i: int| 0 <= i < k implies rating_of(n.players, #[trigger] n.board[i])
            >= pr.rating by {
            assert(n.board[i] == rest[i]);
        }
        if k + 1 < n.board.len() {
            assert(n.board[k + 1] == rest[k]);
        }
        lemma_insert_without(rest, k, pr.address);
    } else {
        lemma_without_absent(rest, pr.address);
    }
}

proof fn lemma_without_absent(s: Seq<Address>, x: Address)
    requires
        !s.contains(x),
    ensures
        without(s, x) == s,
    decreases s.len(),
{
    if s.len() > 0 {
        let d = s.drop_last();
        assert(!d.contains(x)) by {
            if d.contains(x) {
                assert(s[d.index_of(x)] == x);
            }
        }
        assert(s[s.len() - 1] != x);
        lemma_without_absent(d, x);
        assert(d.push(s.last()) =~= s);
    }
}

proof fn lemma_insert_without(s: Seq<Address>, k: int, x: Address)
    requires
        0 <= k <= s.len(),
        !s.contains(x),
    ensures
        without(s.insert(k, x), x) == s,
    decreases s.len(),
{
    let t = s.insert(k, x);
    if k == s.len() {
        assert(t.drop_last() =~= s);
        lemma_without_absent(s, x);
    } else {
        let d = s.drop_last();
        assert(!d.contains(x)) by {
            if d.contains(x) {
                assert(s[d.index_of(x)] == x);
            }
        }
        assert(t.drop_last() =~= d.insert(k, x));
        assert(t.last() == s.last());
        assert(s[s.len() - 1] != x);
        lemma_insert_without(d, k, x);
        assert(d.push(s.last()) =~= s);
    }
}

/// Pages follow one another: a page of `a + b` entries is the page of `a` entries followed by that
/// of the `b` entries behind it, a page never holds more than asked for, and the whole board is on
/// a page that is long enough.
pub proof fn pages_follow_one_another(st: RatingState, offset: int, a: int, b: int)
    requires
        0 <= offset,
        0 <= a,
        0 <= b,
    ensures
        leaderboard_page(st, offset, a + b) == leaderboard_page(st, offset, a) + leaderboard_page(
            st,
            offset + a,
            b,
        ),
        leaderboard_page(st, offset, a).len() <= a,
        a >= st.board.len() ==> leaderboard_page(st, 0, a).len() == st.board.len() && forall|i: int|
            0 <= i < st.board.len() ==> #[trigger] leaderboard_page(st, 0, a)[i]
                == st.players[st.board[i]],
{
    assert(leaderboard_page(st, offset, a + b) =~= leaderboard_page(st, offset, a)
        + leaderboard_page(st, offset + a, b));
}

/// Hands are recorded for the administrator and for recorders alone, not while paused, and only
/// with two or more players of whom one has won.
pub proof fn hands_are_recorded_by_the_entitled(
    st: RatingState,
    caller: Address,
    n: int,
    winner: int,
)
    requires
        st.hand_refusal(caller, n, winner) is None,
    ensures
        st.admin is Some,
        st.paused != Some(true),
        st.admin == Some(caller) || (st.recorders.contains_key(caller) && st.recorders[caller]),
        n >= 2,
        winner < n,
{
}

/// A newcomer starts with the initial rating and without hands, and a known player with their
/// record. Where nothing is configured a rating starts at 1500, a hand weighs 32 points and ten
/// hands make a player eligible.
pub proof fn newcomers_start_at_the_initial_rating(st: RatingState, a: Address, ledger: u32)
    ensures
        st.players.contains_key(a) ==> st.base(a, ledger) == st.players[a],
        !st.players.contains_key(a) ==> {
            let b = st.base(a, ledger);
            &&& b.address == a && b.hands_played == 0 && b.hands_won == 0
            &&& b.rating == (match st.config {
                Some(c) => c.initial_rating,
                None => 1500,
            })
        },
        st.config is None ==> st.settings().k_factor == 32 && st.settings().min_hands == 10,
        st.config matches Some(c) ==> st.settings() == c,
{
}

proof fn lemma_with_records(st: RatingState, prs: Seq<PlayerRating>, min_hands: u32, a: Address)
    requires
        forall|i: int, j: int|
            0 <= i < j < prs.len() ==> (#[trigger] prs[i]).address != (#[trigger] prs[j]).address,
    ensures
        ({
            let n = st.with_records(prs, min_hands);
            &&& (forall|i: int| 0 <= i < prs.len() ==> (#[trigger] prs[i]).address != a)
                ==> n.players.contains_key(a) == st.players.contains_key(a) && n.players[a]
                == st.players[a]
            &&& forall|i: int|
                0 <= i < prs.len() ==> n.players.contains_key((#[trigger] prs[i]).address)
                    && n.players[prs[i].address] == prs[i]
            &&& n.config == st.config && n.admin == st.admin && n.recorders == st.recorders
                && n.paused == st.paused
        }),
    decreases prs.len(),
{
    if prs.len() > 0 {
        let d = prs.drop_last();
        let last = prs.len() - 1;
        assert forall|i: int, j: int| 0 <= i < j < d.len() implies (#[trigger] d[i]).address != (
        #[trigger] d[j]).address by {
            assert(d[i] == prs[i] && d[j] == prs[j]);
        }
        lemma_with_records(st, d, min_hands, a);
        if forall|i: int| 0 <= i < prs.len() ==> (#[trigger] prs[i]).address != a {
            assert forall|i: int| 0 <= i < d.len() implies (#[trigger] d[i]).address != a by {
                assert(d[i] == prs[i]);
            }
            assert(prs[last].address != a);
        }
        let m = st.with_records(d, min_hands);
        let n = st.with_records(prs, min_hands);
        assert(n.players == m.players.insert(prs[last].address, prs[last]));
        assert forall|i: int| 0 <= i < prs.len() implies n.players.contains_key(
            (#[trigger] prs[i]).address,
        ) && n.players[prs[i].address] == prs[i] by {
            if i < last {
                assert(d[i] == prs[i]);
                assert(prs[i].address != prs[last].address);
            }
        }
    }
}

/// A recorded hand changes the records of those who took part and of nobody else: each has played
/// one more hand, the winner has won one more and does not fall, and the others do not rise.
pub proof fn hands_are_recorded_for_those_who_played(
    st: RatingState,
    participants: Seq<Address>,
    winner: int,
    ledger: u32,
    i: int,
    stranger: Address,
)
    requires
        st.wf(),
        2 <= participants.len() <= u32::MAX,
        0 <= winner < participants.len(),
        0 <= i < participants.len(),
        participants.no_duplicates(),
        !participants.contains(stranger),
        st.settings().k_factor <= i32::MAX,
        100 <= st.base(participants[i], ledger).rating <= 4_000,
        st.base(participants[i], ledger).hands_played < u32::MAX,
        st.base(participants[i], ledger).hands_won < u32::MAX,
    ensures
        ({
            let n = st.with_records(
                st.updates(participants, winner, ledger),
                st.settings().min_hands,
            );
            let (b, q) = (st.base(participants[i], ledger), n.players[participants[i]]);
            &&& n.players.contains_key(participants[i])
            &&& q.hands_played == b.hands_played + 1
            &&& q.hands_won == b.hands_won + (if i == winner {
                1int
            } else {
                0
            })
            &&& i == winner ==> q.rating >= b.rating
            &&& i != winner ==> q.rating <= b.rating
            &&& q.last_update_ledger == ledger
            &&& n.players.contains_key(stranger) == st.players.contains_key(stranger)
            &&& n.players[stranger] == st.players[stranger]
            &&& n.config == st.config && n.admin == st.admin && n.recorders == st.recorders
        }),
{
    let bases = st.bases(participants, ledger);
    let prs = st.updates(participants, winner, ledger);
    let k = st.settings().k_factor;
    assert forall|j: int| 0 <= j < prs.len() implies (#[trigger] prs[j]).address
        == participants[j] by {
        assert(bases[j].address == participants[j]);
    }
    assert forall|a: int, b: int| 0 <= a < b < prs.len() implies (#[trigger] prs[a]).address != (
    #[trigger] prs[b]).address by {}
    assert forall|j: int| 0 <= j < prs.len() implies (#[trigger] prs[j]).address != stranger by {
        assert(participants[j] != stranger);
    }
    lemma_with_records(st, prs, st.settings().min_hands, stranger);
    let n = st.with_records(prs, st.settings().min_hands);
    assert(n.players[prs[i].address] == prs[i]);
    let r = bases[i].rating as int;
    let average = (field_sum(bases, winner) / (bases.len() - 1)) as u32;
    hand_orders_players(r, average as int, k as int);
    hand_orders_players(r, bases[winner].rating as int, k as int);
}

/// The administrator alone changes the settings; anyone else is refused and changes nothing.
pub proof fn settings_are_for_the_administrator(
    before: RatingState,
    admin: Address,
    next: RatingState,
    after: RatingState,
    r: Result<(), RatingError>,
)
    requires
        admin_step(before, admin, next, after, r),
    ensures
        r is Ok <==> before.admin == Some(admin),
        r is Ok ==> after == next,
        r is Err ==> after == before,
{
}

/// New settings take the place of the old, but for the initial rating, which stays.
pub proof fn settings_are_replaced(st: RatingState, min_hands: u32, k_factor: u32)
    ensures
        ({
            let n = st.with_config(min_hands, k_factor);
            &&& n.settings().min_hands == min_hands
            &&& n.settings().k_factor == k_factor
            &&& n.settings().initial_rating == st.settings().initial_rating
            &&& n.players == st.players && n.admin == st.admin && n.recorders == st.recorders
        }),
{
}

} // verus!
