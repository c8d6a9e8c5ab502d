//! Jackpots: whether a finished hand qualifies for one, and who has claimed it.

use crate::assoc::{AssocMap, Key};
use crate::host::{
    address_digest, be_u32, bytes32_at, ct_bytes32_eq, digest_of_address, keccak256, keccak_digest,
    read_bytes32, read_u32_be, Address, Bytes32, Symbol,
};
use soroban_sdk::Env;
use vstd::prelude::*;

verus! {

/// The jackpots there are.
#[derive(Clone, Copy, Debug, PartialEq, Eq, Structural)]
pub enum JackpotType {
    BadBeat,
    RoyalFlush,
    StraightFlush,
    FourOfAKind,
    FullHouse,
    Flush,
    Straight,
    Custom(Symbol),
}

impl Key for JackpotType {
    fn same(&self, other: &Self) -> (r: bool) {
        *self == *other
    }
}

/// The hand for which a jackpot is claimed.
#[derive(Debug)]
pub struct JackpotHandData {
    /// Seat of the player who claims the jackpot.
    pub claimant_seat: u32,
    /// Seat of the winner, for a bad beat; otherwise the claimant's.
    pub opponent_seat: u32,
    /// Hand category, from 0 for a high card to 9 for a royal flush.
    pub hand_category: u32,
    /// Primary rank of the hand; 12 is the ace.
    pub hand_rank: u32,
    pub kicker_rank: u32,
    pub board_cards: Vec<u32>,
    pub hole_cards: Vec<u32>,
    /// The category and rank as one number.
    pub hand_score: u32,
    pub deck_root: Bytes32,
    pub hand_commitment: Bytes32,
    /// Whether the hand lost, as a bad beat must.
    pub is_losing_hand: bool,
}

/// What qualifies for a jackpot.
#[derive(Clone, Copy, Debug, PartialEq, Eq)]
pub struct JackpotConfig {
    pub min_bad_beat_category: u32,
    pub min_bad_beat_rank: u32,
    pub min_straight_flush_category: u32,
    pub royal_flush_enabled: bool,
    pub min_hand_score: u32,
    pub verifier: Option<Address>,
    pub jackpot_pool: i128,
}

/// What is said of a hand.
#[derive(Clone, Copy, Debug, PartialEq, Eq, Structural)]
pub enum JackpotMessage {
    Qualified,
    NotQualified,
}

impl JackpotMessage {
    /// The symbol published for the message.
    pub fn name(&self) -> (r: &'static str)
        ensures
            r@ == (match *self {
                JackpotMessage::Qualified => "qualified"@,
                JackpotMessage::NotQualified => "not_qualified"@,
            }),
    {
        match *self {
            JackpotMessage::Qualified => "qualified",
            JackpotMessage::NotQualified => "not_qualified",
        }
    }
}

/// The answer to a request for verification.
#[derive(Clone, Copy, Debug, PartialEq, Eq, Structural)]
pub struct VerificationResult {
    pub qualifies: bool,
    pub jackpot_type: JackpotType,
    pub hand_score: u32,
    pub message: JackpotMessage,
}

/// Why a request is refused.
#[derive(Clone, Copy, Debug, PartialEq, Eq, Structural)]
pub enum JackpotError {
    AlreadyInitialized,
    NotInitialized,
    NotAdmin,
    NotAuthorized,
    ProofSizeError,
    PublicInputSizeError,
    VerificationFailed,
    HandDataInvalid,
    BoardIncomplete,
    AlreadyClaimed,
    JackpotNotQualified,
    ContractPaused,
    NoVkForJackpot,
    CommitmentMismatch,
    InvalidJackpotType,
}

/// A hand played at a table.
#[derive(Clone, Copy, Debug, PartialEq, Eq, Structural)]
pub struct ClaimKey {
    pub table_id: u32,
    pub hand_number: u32,
}

impl Key for ClaimKey {
    fn same(&self, other: &Self) -> (r: bool) {
        *self == *other
    }
}

/// The size of a proof.
pub const PROOF_BYTES_EXPECTED: usize = 14_624;

/// The size of the public inputs: ten fields of 32 bytes.
pub const PUBLIC_INPUTS_JACKPOT_BYTES: usize = 320;

/// The contents of the jackpot contract.
#[verifier::ext_equal]
pub struct JackpotState {
    pub admin: Option<Address>,
    pub config: Option<JackpotConfig>,
    pub vks: Map<JackpotType, Seq<u8>>,
    pub verified: Map<Bytes32, bool>,
    pub pool: Option<i128>,
    pub paused: Option<bool>,
    pub claims: Map<ClaimKey, Address>,
}

/// The number in the low four bytes of a public input.
pub open spec fn u32_field(public_inputs: Seq<u8>, field: int) -> int {
    be_u32(public_inputs, field * 32 + 28)
}

/// A public input as 32 bytes.
pub open spec fn bytes32_field(public_inputs: Seq<u8>, field: int) -> Bytes32 {
    bytes32_at(public_inputs, field * 32)
}

/// Every card is one of the 52.
pub open spec fn cards_valid(cards: Seq<u32>) -> bool {
    forall|i: int| 0 <= i < cards.len() ==> #[trigger] cards[i] <= 51
}

/// Why the hand data or its proof is malformed, if it is. The public inputs must carry the deck
/// root, the hand commitment, the category, the rank, the score, the seats of the claimant and of
/// the opponent, and whether the hand lost, in that order. A proof is absent or has the full size.
pub open spec fn malformed(hand: JackpotHandData, proof_len: int, public_inputs: Seq<u8>) -> Option<
    JackpotError,
> {
    if hand.board_cards@.len() != 5 {
        Some(JackpotError::BoardIncomplete)
    } else if hand.hole_cards@.len() != 2 || !cards_valid(hand.board_cards@) || !cards_valid(
        hand.hole_cards@,
    ) {
        Some(JackpotError::HandDataInvalid)
    } else if public_inputs.len() != PUBLIC_INPUTS_JACKPOT_BYTES {
        Some(JackpotError::PublicInputSizeError)
    } else if bytes32_field(public_inputs, 0) != hand.deck_root || bytes32_field(public_inputs, 1)
        != hand.hand_commitment {
        Some(JackpotError::CommitmentMismatch)
    } else if u32_field(public_inputs, 2) != hand.hand_category || u32_field(public_inputs, 3)
        != hand.hand_rank || u32_field(public_inputs, 4) != hand.hand_score || u32_field(
        public_inputs,
        5,
    ) != hand.claimant_seat || u32_field(public_inputs, 6) != hand.opponent_seat || u32_field(
        public_inputs,
        7,
    ) != (if hand.is_losing_hand {
        1int
    } else {
        0
    }) {
        Some(JackpotError::VerificationFailed)
    } else if proof_len != PROOF_BYTES_EXPECTED && proof_len != 0 {
        Some(JackpotError::ProofSizeError)
    } else {
        None
    }
}

/// The score below which no losing hand is a bad beat.
pub open spec fn bad_beat_score(config: JackpotConfig) -> u32 {
    (config.min_bad_beat_category << 28u32) | (config.min_bad_beat_rank << 4u32)
}

/// The least category and rank of each jackpot.
pub open spec fn type_threshold(jackpot_type: JackpotType) -> (u32, u32) {
    match jackpot_type {
        JackpotType::BadBeat => (7, 0),
        JackpotType::RoyalFlush => (9, 12),
        JackpotType::StraightFlush => (8, 0),
        JackpotType::FourOfAKind => (7, 0),
        JackpotType::FullHouse => (6, 0),
        JackpotType::Flush => (5, 0),
        JackpotType::Straight => (4, 0),
        JackpotType::Custom(_) => (0, 0),
    }
}

/// The score of the least hand of a jackpot.
pub open spec fn threshold_score(jackpot_type: JackpotType) -> u32 {
    let (category, rank) = type_threshold(jackpot_type);
    (category << 28u32) | (rank << 4u32)
}

/// Whether a hand qualifies for a jackpot: its category is that of the jackpot and its score meets
/// the threshold. A bad beat and a custom jackpot have their thresholds in the configuration.
pub open spec fn hand_qualifies(
    hand: JackpotHandData,
    jackpot_type: JackpotType,
    config: JackpotConfig,
) -> bool {
    match jackpot_type {
        JackpotType::BadBeat => {
            &&& hand.is_losing_hand
            &&& hand.hand_score >= bad_beat_score(config)
            &&& hand.hand_category > config.min_bad_beat_category || (hand.hand_category
                == config.min_bad_beat_category && hand.hand_rank >= config.min_bad_beat_rank)
        },
        JackpotType::RoyalFlush => config.royal_flush_enabled && hand.hand_category == 9
            && hand.hand_rank == 12 && hand.hand_score >= threshold_score(jackpot_type),
        JackpotType::StraightFlush => hand.hand_category == 8
            && config.min_straight_flush_category <= 8 && hand.hand_score >= threshold_score(
            jackpot_type,
        ),
        JackpotType::Custom(_) => config.min_hand_score > 0 && hand.hand_score
            >= config.min_hand_score,
        _ => hand.hand_category == type_threshold(jackpot_type).0 && hand.hand_score
            >= threshold_score(jackpot_type),
    }
}

/// The answer for a hand.
pub open spec fn answer_for(
    hand: JackpotHandData,
    jackpot_type: JackpotType,
    qualifies: bool,
) -> VerificationResult {
    VerificationResult {
        qualifies,
        jackpot_type,
        hand_score: hand.hand_score,
        message: if qualifies {
            JackpotMessage::Qualified
        } else {
            JackpotMessage::NotQualified
        },
    }
}

impl JackpotState {
    /// Whether the hand qualifies, or why it is refused.
    pub open spec fn judged(
        self,
        hand: JackpotHandData,
        proof_len: int,
        public_inputs: Seq<u8>,
        jackpot_type: JackpotType,
    ) -> Result<bool, JackpotError> {
        if self.paused == Some(true) {
            Err(JackpotError::ContractPaused)
        } else {
            match malformed(hand, proof_len, public_inputs) {
                Some(e) => Err(e),
                None => match self.config {
                    None => Err(JackpotError::NotInitialized),
                    Some(c) => Ok(hand_qualifies(hand, jackpot_type, c)),
                },
            }
        }
    }

    /// The state with a hand marked as verified, where it qualifies.
    pub open spec fn marked(self, hand_hash: Bytes32, qualifies: bool) -> Self {
        if qualifies {
            JackpotState { verified: self.verified.insert(hand_hash, true), ..self }
        } else {
            self
        }
    }

    /// Whether the hand can be claimed, or why it cannot.
    pub open spec fn claimable(
        self,
        key: ClaimKey,
        hand: JackpotHandData,
        proof_len: int,
        public_inputs: Seq<u8>,
        jackpot_type: JackpotType,
    ) -> Result<(), JackpotError> {
        if self.paused == Some(true) {
            Err(JackpotError::ContractPaused)
        } else if self.claims.contains_key(key) {
            Err(JackpotError::AlreadyClaimed)
        } else {
            match self.judged(hand, proof_len, public_inputs, jackpot_type) {
                Err(e) => Err(e),
                Ok(q) => if q {
                    Ok(())
                } else {
                    Err(JackpotError::JackpotNotQualified)
                },
            }
        }
    }

    /// The state after a claim: the hand is verified and claimed, and the pool is paid out.
    pub open spec fn claimed(self, key: ClaimKey, claimant: Address, hand_hash: Bytes32) -> Self {
        JackpotState {
            claims: self.claims.insert(key, claimant),
            pool: Some(0i128),
            ..self.marked(hand_hash, true)
        }
    }

    /// What is in the pool.
    pub open spec fn pool_balance(self) -> i128 {
        match self.pool {
            Some(p) => p,
            None => 0,
        }
    }

    /// Whether `caller` passes for the administrator, or why not. Addresses are compared by
    /// their digests.
    pub open spec fn admin_check(self, caller: Address) -> Result<(), JackpotError> {
        match self.admin {
            None => Err(JackpotError::NotInitialized),
            Some(a) => if address_digest(caller) == address_digest(a) {
                Ok(())
            } else {
                Err(JackpotError::NotAdmin)
            },
        }
    }

    /// An administrative step: `next` where the caller passes for the administrator.
    pub open spec fn admin_step(
        self,
        caller: Address,
        next: JackpotState,
        after: JackpotState,
        r: Result<(), JackpotError>,
    ) -> bool {
        r == self.admin_check(caller) && after == (if r is Ok {
            next
        } else {
            self
        })
    }
}

/// Reads the number in the low four bytes of a public input; bytes past the end count as zero.
pub fn extract_u32_from_public_inputs(public_inputs: &Vec<u8>, field_index: u32) -> (r: u32)
    requires
        field_index * 32 + 31 <= u32::MAX,
    ensures
        r == u32_field(public_inputs@, field_index as int),
{
    read_u32_be(public_inputs, (field_index * 32 + 28) as usize)
}

fn check_u32_field(public_inputs: &Vec<u8>, field_index: u32, expected: u32) -> (r: bool)
    requires
        field_index * 32 + 31 <= u32::MAX,
    ensures
        r == (u32_field(public_inputs@, field_index as int) == expected),
{
    extract_u32_from_public_inputs(public_inputs, field_index) == expected
}

fn check_bytes32_field(public_inputs: &Vec<u8>, field_index: u32, expected: &Bytes32) -> (r: bool)
    requires
        field_index * 32 + 31 <= u32::MAX,
    ensures
        r == (bytes32_field(public_inputs@, field_index as int) == *expected),
{
    let actual = read_bytes32(public_inputs, (field_index * 32) as usize);
    ct_bytes32_eq(&actual, expected)
}

/// The least category and rank of each jackpot.
pub fn jackpot_type_rank_threshold(jackpot_type: &JackpotType) -> (r: (u32, u32))
    ensures
        r == type_threshold(*jackpot_type),
{
    match jackpot_type {
        JackpotType::BadBeat => (7, 0),
        JackpotType::RoyalFlush => (9, 12),
        JackpotType::StraightFlush => (8, 0),
        JackpotType::FourOfAKind => (7, 0),
        JackpotType::FullHouse => (6, 0),
        JackpotType::Flush => (5, 0),
        JackpotType::Straight => (4, 0),
        JackpotType::Custom(_) => (0, 0),
    }
}

fn all_cards_valid(cards: &Vec<u32>) -> (r: bool)
    ensures
        r == cards_valid(cards@),
{
    let mut i: usize = 0;
    while i < cards.len()
        invariant
            i <= cards@.len(),
            forall|j: int| 0 <= j < i ==> #[trigger] cards@[j] <= 51,
        decreases cards@.len() - i,
    {
        if cards[i] > 51 {
            assert(cards@[i as int] > 51);
            return false;
        }
        i += 1;
    }
    true
}

/// The jackpot contract.
pub struct JackpotVerifierContract {
    admin: Option<Address>,
    config: Option<JackpotConfig>,
    vks: AssocMap<JackpotType, Vec<u8>>,
    verified: AssocMap<Bytes32, bool>,
    pool: Option<i128>,
    paused: Option<bool>,
    claims: AssocMap<ClaimKey, Address>,
}

impl View for JackpotVerifierContract {
    type V = JackpotState;

    closed spec fn view(&self) -> JackpotState {
        JackpotState {
            admin: self.admin,
            config: self.config,
            vks: self.vks@,
            verified: self.verified@,
            pool: self.pool,
            paused: self.paused,
            claims: self.claims@,
        }
    }
}

impl JackpotVerifierContract {
    /// A contract that nobody has set up yet.
    pub fn new() -> (r: Self)
        ensures
            r@ == (JackpotState {
                admin: None,
                config: None,
                vks: Map::empty(),
                verified: Map::empty(),
                pool: None,
                paused: None,
                claims: Map::empty(),
            }),
    {
        JackpotVerifierContract {
            admin: None,
            config: None,
            vks: AssocMap::new(),
            verified: AssocMap::new(),
            pool: None,
            paused: None,
            claims: AssocMap::new(),
        }
    }

    /// Sets the administrator and the configuration, once. The pool starts empty.
    pub fn initialize(&mut self, admin: Address, config: JackpotConfig) -> (r: Result<
        (),
        JackpotError,
    >)
        ensures
            old(self)@.admin is Some ==> r == Err::<(), _>(JackpotError::AlreadyInitialized)
                && final(self)@ == old(self)@,
            old(self)@.admin is None ==> r is Ok && final(self)@ == (JackpotState {
                admin: Some(admin),
                config: Some(config),
                pool: Some(0i128),
                ..old(self)@
            }),
    {
        if self.admin.is_some() {
            return Err(JackpotError::AlreadyInitialized);
        }
        self.admin = Some(admin);
        self.config = Some(config);
        self.pool = Some(0);
        Ok(())
    }

    /// Decides on a caller by the digests of the stored administrator and of the caller.
    pub fn check_admin_digests(stored: Option<Bytes32>, presented: Bytes32) -> (r: Result<
        (),
        JackpotError,
    >)
        ensures
            r == (match stored {
                None => Err::<(), _>(JackpotError::NotInitialized),
                Some(d) => if d == presented {
                    Ok(())
                } else {
                    Err(JackpotError::NotAdmin)
                },
            }),
    {
        match stored {
            None => Err(JackpotError::NotInitialized),
            Some(d) => if ct_bytes32_eq(&presented, &d) {
                Ok(())
            } else {
                Err(JackpotError::NotAdmin)
            },
        }
    }

    fn require_admin(&self, env: &Env, admin: &Address) -> (r: Result<(), JackpotError>)
        ensures
            r == self@.admin_check(*admin),
    {
        let stored = match self.admin {
            None => None,
            Some(a) => Some(digest_of_address(env, &a)),
        };
        Self::check_admin_digests(stored, digest_of_address(env, admin))
    }

    /// Replaces the configuration.
    pub fn set_config(&mut self, env: &Env, admin: Address, config: JackpotConfig) -> (r: Result<
        (),
        JackpotError,
    >)
        ensures
            old(self)@.admin_step(
                admin,
                JackpotState { config: Some(config), ..old(self)@ },
                final(self)@,
                r,
            ),
    {
        match self.require_admin(env, &admin) {
            Ok(_) => {},
            Err(e) => {
                return Err(e);
            },
        }
        self.config = Some(config);
        Ok(())
    }

    /// Stores the verification key of a jackpot.
    pub fn set_verification_key(
        &mut self,
        env: &Env,
        admin: Address,
        jackpot_type: JackpotType,
        vk_data: Vec<u8>,
    ) -> (r: Result<(), JackpotError>)
        ensures
            old(self)@.admin_step(
                admin,
                JackpotState { vks: old(self)@.vks.insert(jackpot_type, vk_data@), ..old(self)@ },
                final(self)@,
                r,
            ),
    {
        match self.require_admin(env, &admin) {
            Ok(_) => {},
            Err(e) => {
                return Err(e);
            },
        }
        self.vks.insert(jackpot_type, vk_data);
        Ok(())
    }

    /// Verifies that a finished hand qualifies for a jackpot, and marks the hand where it does.
    pub fn verify_jackpot(
        &mut self,
        env: &Env,
        hand_data: &JackpotHandData,
        proof: &Vec<u8>,
        public_inputs: &Vec<u8>,
        jackpot_type: JackpotType,
    ) -> (r: Result<VerificationResult, JackpotError>)
        ensures
            match old(self)@.judged(
                *hand_data,
                proof@.len() as int,
                public_inputs@,
                jackpot_type,
            ) {
                Err(e) => r == Err::<VerificationResult, _>(e) && final(self)@ == old(self)@,
                Ok(q) => r == Ok::<_, JackpotError>(answer_for(*hand_data, jackpot_type, q))
                    && final(self)@ == old(self)@.marked(keccak_digest(public_inputs@), q),
            },
    {
        let qualifies: bool = match self.judge_jackpot(
            hand_data,
            proof.len(),
            public_inputs,
            jackpot_type,
        ) {
            Ok(q) => q,
            Err(e) => {
                return Err(e);
            },
        };
        let hand_hash = keccak256(env, public_inputs);
        Ok(self.record_jackpot(hand_data, hand_hash, jackpot_type, qualifies))
    }

    /// Whether a finished hand qualifies for a jackpot, or why the request is refused.
    pub fn judge_jackpot(
        &self,
        hand_data: &JackpotHandData,
        proof_len: usize,
        public_inputs: &Vec<u8>,
        jackpot_type: JackpotType,
    ) -> (r: Result<bool, JackpotError>)
        ensures
            r == self@.judged(*hand_data, proof_len as int, public_inputs@, jackpot_type),
            r is Ok ==> public_inputs@.len() == PUBLIC_INPUTS_JACKPOT_BYTES,
    {
        if self.is_paused() {
            return Err(JackpotError::ContractPaused);
        }
        if hand_data.board_cards.len() != 5 {
            return Err(JackpotError::BoardIncomplete);
        }
        if hand_data.hole_cards.len() != 2 {
            return Err(JackpotError::HandDataInvalid);
        }
        if !all_cards_valid(&hand_data.board_cards) || !all_cards_valid(&hand_data.hole_cards) {
            return Err(JackpotError::HandDataInvalid);
        }
        if public_inputs.len() != PUBLIC_INPUTS_JACKPOT_BYTES {
            return Err(JackpotError::PublicInputSizeError);
        }
        if !check_bytes32_field(public_inputs, 0, &hand_data.deck_root) {
            return Err(JackpotError::CommitmentMismatch);
        }
        if !check_bytes32_field(public_inputs, 1, &hand_data.hand_commitment) {
            return Err(JackpotError::CommitmentMismatch);
        }
        if !check_u32_field(public_inputs, 2, hand_data.hand_category) {
            return Err(JackpotError::VerificationFailed);
        }
        if !check_u32_field(public_inputs, 3, hand_data.hand_rank) {
            return Err(JackpotError::VerificationFailed);
        }
        if !check_u32_field(public_inputs, 4, hand_data.hand_score) {
            return Err(JackpotError::VerificationFailed);
        }
        if !check_u32_field(public_inputs, 5, hand_data.claimant_seat) {
            return Err(JackpotError::VerificationFailed);
        }
        if !check_u32_field(public_inputs, 6, hand_data.opponent_seat) {
            return Err(JackpotError::VerificationFailed);
        }
        let losing: u32 = if hand_data.is_losing_hand {
            1
        } else {
            0
        };
        if !check_u32_field(public_inputs, 7, losing) {
            return Err(JackpotError::VerificationFailed);
        }
        // With or without a stored key, a proof is absent or has the full size.
        if proof_len != PROOF_BYTES_EXPECTED && proof_len != 0 {
            return Err(JackpotError::ProofSizeError);
        }
        match &self.config {
            None => Err(JackpotError::NotInitialized),
            Some(config) => Ok(Self::evaluate_qualification(hand_data, &jackpot_type, config)),
        }
    }

    /// Marks the hand with the digest `hand_hash` as verified where it qualifies.
    pub fn record_jackpot(
        &mut self,
        hand_data: &JackpotHandData,
        hand_hash: Bytes32,
        jackpot_type: JackpotType,
        qualifies: bool,
    ) -> (r: VerificationResult)
        ensures
            r == answer_for(*hand_data, jackpot_type, qualifies),
            final(self)@ == old(self)@.marked(hand_hash, qualifies),
    {
        if qualifies {
            self.verified.insert(hand_hash, true);
        }
        let message = if qualifies {
            JackpotMessage::Qualified
        } else {
            JackpotMessage::NotQualified
        };
        VerificationResult { qualifies, jackpot_type, hand_score: hand_data.hand_score, message }
    }

    /// Whether a hand qualifies for a jackpot.
    pub fn evaluate_qualification(
        hand_data: &JackpotHandData,
        jackpot_type: &JackpotType,
        config: &JackpotConfig,
    ) -> (r: bool)
        ensures
            r == hand_qualifies(*hand_data, *jackpot_type, *config),
    {
        let (category, rank): (u32, u32) = jackpot_type_rank_threshold(jackpot_type);
        let score: u32 = (category << 28u32) | (rank << 4u32);
        match jackpot_type {
            JackpotType::BadBeat => {
                if !hand_data.is_losing_hand {
                    return false;
                }
                let threshold: u32 = (config.min_bad_beat_category << 28u32) | (
                config.min_bad_beat_rank << 4u32);
                if hand_data.hand_score < threshold {
                    return false;
                }
                if hand_data.hand_category < config.min_bad_beat_category {
                    return false;
                }
                if hand_data.hand_category == config.min_bad_beat_category && hand_data.hand_rank
                    < config.min_bad_beat_rank {
                    return false;
                }
                true
            },
            JackpotType::RoyalFlush => {
                if !config.royal_flush_enabled {
                    return false;
                }
                hand_data.hand_category == 9 && hand_data.hand_rank == 12 && hand_data.hand_score
                    >= score
            },
            JackpotType::StraightFlush => hand_data.hand_category == 8 && hand_data.hand_category
                >= config.min_straight_flush_category && hand_data.hand_score >= score,
            JackpotType::Custom(_) => hand_data.hand_score >= config.min_hand_score
                && config.min_hand_score > 0,
            _ => hand_data.hand_category == category && hand_data.hand_score >= score,
        }
    }

    /// Claims the jackpot of a hand that qualifies, once.
    pub fn claim_jackpot(
        &mut self,
        env: &Env,
        claimant: Address,
        table_id: u32,
        hand_number: u32,
        hand_data: &JackpotHandData,
        proof: &Vec<u8>,
        public_inputs: &Vec<u8>,
        jackpot_type: JackpotType,
    ) -> (r: Result<VerificationResult, JackpotError>)
        ensures
            match old(self)@.claimable(
                ClaimKey { table_id, hand_number },
                *hand_data,
                proof@.len() as int,
                public_inputs@,
                jackpot_type,
            ) {
                Err(e) => r == Err::<VerificationResult, _>(e) && final(self)@ == old(self)@,
                Ok(_) => r == Ok::<_, JackpotError>(answer_for(*hand_data, jackpot_type, true))
                    && final(self)@ == old(self)@.claimed(
                    ClaimKey { table_id, hand_number },
                    claimant,
                    keccak_digest(public_inputs@),
                ),
            },
            r is Ok ==> {
                let key = ClaimKey { table_id, hand_number };
                &&& !old(self)@.claims.contains_key(key)
                &&& final(self)@.claims.contains_key(key) && final(self)@.claims[key] == claimant
                &&& final(self)@.pool_balance() == 0
            },
    {
        if self.is_paused() {
            return Err(JackpotError::ContractPaused);
        }
        let key = ClaimKey { table_id, hand_number };
        if self.claims.contains(&key) {
            return Err(JackpotError::AlreadyClaimed);
        }
        let result = match self.verify_jackpot(env, hand_data, proof, public_inputs, jackpot_type) {
            Ok(x) => x,
            Err(e) => {
                return Err(e);
            },
        };
        if !result.qualifies {
            return Err(JackpotError::JackpotNotQualified);
        }
        self.claims.insert(key, claimant);
        self.pool = Some(0);
        Ok(result)
    }

    /// Whether the hand with this digest has been verified.
    pub fn is_verified(&self, hand_hash: Bytes32) -> (r: bool)
        ensures
            r == (self@.verified.contains_key(hand_hash) && self@.verified[hand_hash]),
    {
        match self.verified.get(&hand_hash) {
            Some(x) => *x,
            None => false,
        }
    }

    /// Whether the jackpot of this hand has been claimed.
    pub fn is_claimed(&self, table_id: u32, hand_number: u32) -> (r: bool)
        ensures
            r == self@.claims.contains_key(ClaimKey { table_id, hand_number }),
    {
        self.claims.contains(&ClaimKey { table_id, hand_number })
    }

    /// The configuration.
    pub fn get_config(&self) -> (r: Option<JackpotConfig>)
        ensures
            r == self@.config,
    {
        self.config
    }

    /// Stops or resumes verification and claims.
    pub fn set_paused(&mut self, env: &Env, admin: Address, paused: bool) -> (r: Result<
        (),
        JackpotError,
    >)
        ensures
            old(self)@.admin_step(
                admin,
                JackpotState { paused: Some(paused), ..old(self)@ },
                final(self)@,
                r,
            ),
    {
        match self.require_admin(env, &admin) {
            Ok(_) => {},
            Err(e) => {
                return Err(e);
            },
        }
        self.paused = Some(paused);
        Ok(())
    }

    /// Adds to the pool and returns what is then in it.
    pub fn fund_pool(&mut self, amount: i128) -> (r: Result<i128, JackpotError>)
        requires
            old(self)@.pool_balance() + amount <= i128::MAX,
        ensures
            amount <= 0 ==> r == Err::<i128, _>(JackpotError::HandDataInvalid) && final(self)@
                == old(self)@,
            amount > 0 ==> r == Ok::<_, JackpotError>(
                (old(self)@.pool_balance() + amount) as i128,
            ) && final(self)@ == (JackpotState {
                pool: Some((old(self)@.pool_balance() + amount) as i128),
                ..old(self)@
            }),
            final(self)@.pool_balance() - old(self)@.pool_balance() == (if r is Ok {
                amount as int
            } else {
                0
            }),
    {
        if amount <= 0 {
            return Err(JackpotError::HandDataInvalid);
        }
        let pool: i128 = self.get_pool() + amount;
        self.pool = Some(pool);
        Ok(pool)
    }

    /// What is in the pool.
    pub fn get_pool(&self) -> (r: i128)
        ensures
            r == self@.pool_balance(),
    {
        match self.pool {
            Some(p) => p,
            None => 0,
        }
    }

    fn is_paused(&self) -> (r: bool)
        ensures
            r == (self@.paused == Some(true)),
    {
        match self.paused {
            Some(p) => p,
            None => false,
        }
    }
}

/// A jackpot is claimed at most once: after a claim no other claim to the same hand succeeds,
/// whatever it brings, and the hand stays with its claimant.
pub proof fn jackpot_claimed_once(
    st: JackpotState,
    key: ClaimKey,
    claimant: Address,
    hand_hash: Bytes32,
    hand: JackpotHandData,
    proof_len: int,
    public_inputs: Seq<u8>,
    jackpot_type: JackpotType,
)
    ensures
        st.claimed(key, claimant, hand_hash).claims[key] == claimant,
        st.claimed(key, claimant, hand_hash).claimable(
            key,
            hand,
            proof_len,
            public_inputs,
            jackpot_type,
        ) is Err,
{
}

/// A claim pays the whole pool out, and leaves the hand verified.
pub proof fn claim_empties_pool(
    st: JackpotState,
    key: ClaimKey,
    claimant: Address,
    hand_hash: Bytes32,
)
    ensures
        st.claimed(key, claimant, hand_hash).pool_balance() == 0,
        st.claimed(key, claimant, hand_hash).verified[hand_hash],
{
}

/// A winning hand is never a bad beat.
pub proof fn bad_beat_needs_a_losing_hand(hand: JackpotHandData, config: JackpotConfig)
    requires
        !hand.is_losing_hand,
    ensures
        !hand_qualifies(hand, JackpotType::BadBeat, config),
{
}

/// A hand whose score is below the threshold of the jackpot never qualifies.
pub proof fn low_scores_never_qualify(
    hand: JackpotHandData,
    jackpot_type: JackpotType,
    config: JackpotConfig,
)
    requires
        hand.hand_score < (match jackpot_type {
            JackpotType::BadBeat => bad_beat_score(config),
            JackpotType::Custom(_) => config.min_hand_score,
            _ => threshold_score(jackpot_type),
        }),
    ensures
        !hand_qualifies(hand, jackpot_type, config),
{
}

/// A claim that the public inputs do not bear out, in any of its parts, is refused.
pub proof fn public_inputs_bind_the_claim(
    hand: JackpotHandData,
    proof_len: int,
    public_inputs: Seq<u8>,
)
    requires
        malformed(hand, proof_len, public_inputs) is None,
    ensures
        bytes32_field(public_inputs, 0) == hand.deck_root,
        bytes32_field(public_inputs, 1) == hand.hand_commitment,
        u32_field(public_inputs, 2) == hand.hand_category,
        u32_field(public_inputs, 3) == hand.hand_rank,
        u32_field(public_inputs, 4) == hand.hand_score,
        u32_field(public_inputs, 5) == hand.claimant_seat,
        u32_field(public_inputs, 6) == hand.opponent_seat,
        u32_field(public_inputs, 7) == (if hand.is_losing_hand {
            1int
        } else {
            0
        }),
{
}

/// The administrator passes their own check.
pub proof fn admin_passes(st: JackpotState, admin: Address)
    requires
        st.admin == Some(admin),
    ensures
        st.admin_check(admin) is Ok,
{
}

/// A losing hand above the least category is a bad beat whatever its rank, as long as its score
/// meets the threshold; one of the least category needs the least rank as well, and one below it
/// is none.
pub proof fn bad_beat_starts_at_the_least_hand(hand: JackpotHandData, config: JackpotConfig)
    requires
        hand.is_losing_hand,
        hand.hand_score >= (config.min_bad_beat_category << 28u32) | (config.min_bad_beat_rank
            << 4u32),
    ensures
        hand.hand_category > config.min_bad_beat_category ==> hand_qualifies(
            hand,
            JackpotType::BadBeat,
            config,
        ),
        hand.hand_category == config.min_bad_beat_category ==> (hand_qualifies(
            hand,
            JackpotType::BadBeat,
            config,
        ) <==> hand.hand_rank >= config.min_bad_beat_rank),
        hand.hand_category < config.min_bad_beat_category ==> !hand_qualifies(
            hand,
            JackpotType::BadBeat,
            config,
        ),
{
}

/// A better losing hand is no worse a bad beat: where a losing hand qualifies, so does every losing
/// hand of a higher category, or of the same one with at least its rank, that has at least its
/// score.
pub proof fn better_losing_hands_qualify(
    hand: JackpotHandData,
    better: JackpotHandData,
    config: JackpotConfig,
)
    requires
        hand_qualifies(hand, JackpotType::BadBeat, config),
        better.is_losing_hand,
        better.hand_score >= hand.hand_score,
        better.hand_category > hand.hand_category || (better.hand_category == hand.hand_category
            && better.hand_rank >= hand.hand_rank),
    ensures
        hand_qualifies(better, JackpotType::BadBeat, config),
{
}

/// A hand that is a bad beat with some least rank is one without a least rank too.
pub proof fn a_least_rank_only_turns_hands_away(
    hand: JackpotHandData,
    lax: JackpotConfig,
    strict: JackpotConfig,
)
    requires
        hand_qualifies(hand, JackpotType::BadBeat, strict),
        lax.min_bad_beat_category == strict.min_bad_beat_category,
        lax.min_bad_beat_rank == 0,
    ensures
        hand_qualifies(hand, JackpotType::BadBeat, lax),
{
    let (c, r) = (strict.min_bad_beat_category, strict.min_bad_beat_rank);
    assert((c << 28u32) | (0u32 << 4u32) <= (c << 28u32) | (r << 4u32)) by (bit_vector);
}

/// Each jackpot for a kind of hand is for that kind alone, and a hand of that kind qualifies once
/// its score is at least that of the least hand of the kind, whether it won or lost. The royal
/// flush must be switched on and ace-high, and the straight flush must be within its
/// configuration.
pub proof fn each_jackpot_is_for_its_hand(hand: JackpotHandData, config: JackpotConfig)
    ensures
        hand_qualifies(hand, JackpotType::Straight, config) <==> hand.hand_category == 4
            && hand.hand_score >= 0x4000_0000,
        hand_qualifies(hand, JackpotType::Flush, config) <==> hand.hand_category == 5
            && hand.hand_score >= 0x5000_0000,
        hand_qualifies(hand, JackpotType::FullHouse, config) <==> hand.hand_category == 6
            && hand.hand_score >= 0x6000_0000,
        hand_qualifies(hand, JackpotType::FourOfAKind, config) <==> hand.hand_category == 7
            && hand.hand_score >= 0x7000_0000,
        hand_qualifies(hand, JackpotType::StraightFlush, config) <==> hand.hand_category == 8
            && hand.hand_score >= 0x8000_0000 && config.min_straight_flush_category <= 8,
        hand_qualifies(hand, JackpotType::RoyalFlush, config) <==> hand.hand_category == 9
            && hand.hand_rank == 12 && hand.hand_score >= 0x9000_00c0
            && config.royal_flush_enabled,
{
    assert((4u32 << 28u32) | (0u32 << 4u32) == 0x4000_0000u32) by (bit_vector);
    assert((5u32 << 28u32) | (0u32 << 4u32) == 0x5000_0000u32) by (bit_vector);
    assert((6u32 << 28u32) | (0u32 << 4u32) == 0x6000_0000u32) by (bit_vector);
    assert((7u32 << 28u32) | (0u32 << 4u32) == 0x7000_0000u32) by (bit_vector);
    assert((8u32 << 28u32) | (0u32 << 4u32) == 0x8000_0000u32) by (bit_vector);
    assert((9u32 << 28u32) | (12u32 << 4u32) == 0x9000_00c0u32) by (bit_vector);
}

/// A custom jackpot is open to every hand with the configured score, and to none where no score is
/// configured.
pub proof fn custom_jackpots_go_by_score(
    hand: JackpotHandData,
    name: Symbol,
    config: JackpotConfig,
)
    ensures
        hand_qualifies(hand, JackpotType::Custom(name), config) <==> 0 < config.min_hand_score
            <= hand.hand_score,
{
}

/// A hand is judged only on a full board of five cards and two hole cards, all of the deck, with
/// ten public inputs of 32 bytes and a proof that is whole or absent; and each of these is enough.
pub proof fn judged_hands_are_complete(
    hand: JackpotHandData,
    proof_len: int,
    public_inputs: Seq<u8>,
)
    ensures
        malformed(hand, proof_len, public_inputs) is None ==> {
            &&& hand.board_cards@.len() == 5
            &&& hand.hole_cards@.len() == 2
            &&& forall|i: int| 0 <= i < 5 ==> #[trigger] hand.board_cards@[i] < 52
            &&& forall|i: int| 0 <= i < 2 ==> #[trigger] hand.hole_cards@[i] < 52
            &&& public_inputs.len() == 320
            &&& proof_len == 0 || proof_len == 14_624
        },
        hand.board_cards@.len() != 5 ==> malformed(hand, proof_len, public_inputs) == Some(
            JackpotError::BoardIncomplete,
        ),
        malformed(hand, proof_len, public_inputs) == Some(JackpotError::BoardIncomplete)
            ==> hand.board_cards@.len() != 5,
        malformed(hand, proof_len, public_inputs) == Some(JackpotError::PublicInputSizeError)
            ==> public_inputs.len() != 320,
        malformed(hand, proof_len, public_inputs) == Some(JackpotError::ProofSizeError)
            ==> proof_len != 0 && proof_len != 14_624,
        malformed(hand, proof_len, public_inputs) == Some(JackpotError::CommitmentMismatch)
            ==> bytes32_at(public_inputs, 0) != hand.deck_root || bytes32_at(public_inputs, 32)
            != hand.hand_commitment,
        malformed(hand, proof_len, public_inputs) == Some(JackpotError::VerificationFailed)
            ==> be_u32(public_inputs, 92) != hand.hand_category || be_u32(public_inputs, 124)
            != hand.hand_rank || be_u32(public_inputs, 156) != hand.hand_score || be_u32(
            public_inputs,
            188,
        ) != hand.claimant_seat || be_u32(public_inputs, 220) != hand.opponent_seat || be_u32(
            public_inputs,
            252,
        ) != (if hand.is_losing_hand {
            1int
        } else {
            0
        }),
        malformed(hand, proof_len, public_inputs) is None ==> {
            &&& bytes32_at(public_inputs, 0) == hand.deck_root
            &&& bytes32_at(public_inputs, 32) == hand.hand_commitment
            &&& be_u32(public_inputs, 92) == hand.hand_category
            &&& be_u32(public_inputs, 124) == hand.hand_rank
            &&& be_u32(public_inputs, 156) == hand.hand_score
            &&& be_u32(public_inputs, 188) == hand.claimant_seat
            &&& be_u32(public_inputs, 220) == hand.opponent_seat
        },
{
}

/// While paused nothing is judged and nothing is claimed.
pub proof fn paused_verifier_answers_nothing(
    st: JackpotState,
    key: ClaimKey,
    hand: JackpotHandData,
    proof_len: int,
    public_inputs: Seq<u8>,
    jackpot_type: JackpotType,
)
    requires
        st.paused == Some(true),
    ensures
        st.judged(hand, proof_len, public_inputs, jackpot_type) is Err,
        st.claimable(key, hand, proof_len, public_inputs, jackpot_type) is Err,
{
}

/// What can be claimed is what is judged to qualify and has not been claimed, and a claim leaves
/// the claims and the verified hands of everyone else, the settings and the keys alone.
pub proof fn claims_are_for_qualifying_hands(
    st: JackpotState,
    key: ClaimKey,
    other: ClaimKey,
    claimant: Address,
    hand: JackpotHandData,
    proof_len: int,
    public_inputs: Seq<u8>,
    jackpot_type: JackpotType,
    hand_hash: Bytes32,
    another: Bytes32,
)
    requires
        other != key,
        another != hand_hash,
    ensures
        st.claimable(key, hand, proof_len, public_inputs, jackpot_type) is Ok <==> st.judged(
            hand,
            proof_len,
            public_inputs,
            jackpot_type,
        ) == Ok::<bool, JackpotError>(true) && !st.claims.contains_key(key),
        ({
            let n = st.claimed(key, claimant, hand_hash);
            &&& n.claims.contains_key(other) == st.claims.contains_key(other)
            &&& n.claims[other] == st.claims[other]
            &&& n.verified.contains_key(another) == st.verified.contains_key(another)
            &&& n.admin == st.admin && n.config == st.config && n.vks == st.vks && n.paused
                == st.paused
        }),
{
}

/// The administrator alone changes the settings, by the digest of the address; anyone else is
/// refused and changes nothing.
pub proof fn settings_are_for_the_administrator(
    st: JackpotState,
    caller: Address,
    next: JackpotState,
    after: JackpotState,
    r: Result<(), JackpotError>,
)
    requires
        st.admin_step(caller, next, after, r),
    ensures
        r is Ok <==> st.admin is Some && address_digest(caller) == address_digest(st.admin->0),
        r is Ok ==> after == next,
        r is Err ==> after == st,
{
}

/// A hand is on record as verified once it qualifies, and a hand that does not leaves everything as
/// it is. The answer carries the hand's score and says whether it qualifies.
pub proof fn only_qualifying_hands_are_marked(
    st: JackpotState,
    hand: JackpotHandData,
    jackpot_type: JackpotType,
    hand_hash: Bytes32,
    another: Bytes32,
    qualifies: bool,
)
    requires
        another != hand_hash,
    ensures
        st.marked(hand_hash, true).verified.contains_key(hand_hash),
        st.marked(hand_hash, true).verified[hand_hash],
        st.marked(hand_hash, true).verified.contains_key(another) == st.verified.contains_key(
            another,
        ),
        st.marked(hand_hash, true).pool == st.pool,
        st.marked(hand_hash, true).claims == st.claims,
        st.marked(hand_hash, false) == st,
        answer_for(hand, jackpot_type, qualifies).qualifies == qualifies,
        answer_for(hand, jackpot_type, qualifies).hand_score == hand.hand_score,
        answer_for(hand, jackpot_type, qualifies).jackpot_type == jackpot_type,
        answer_for(hand, jackpot_type, true).message is Qualified,
        answer_for(hand, jackpot_type, false).message is NotQualified,
{
}

/// The least hand of each kind: its category, and the rank that it needs.
pub proof fn kinds_have_their_least_hand(jackpot_type: JackpotType)
    ensures
        ({
            let (category, rank) = type_threshold(jackpot_type);
            &&& rank == (if jackpot_type is RoyalFlush {
                12u32
            } else {
                0
            })
            &&& jackpot_type is RoyalFlush ==> category == 9
            &&& jackpot_type is StraightFlush ==> category == 8
            &&& jackpot_type is FourOfAKind || jackpot_type is BadBeat ==> category == 7
            &&& jackpot_type is FullHouse ==> category == 6
            &&& jackpot_type is Flush ==> category == 5
            &&& jackpot_type is Straight ==> category == 4
            &&& jackpot_type is Custom ==> category == 0
        }),
{
}

} // verus!
