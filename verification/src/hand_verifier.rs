//! A register of hand ranks that players have shown to hold, at showdown or after mucking.

use crate::assoc::{AssocMap, Key};
use crate::host::{keccak256, keccak_digest, Address, Bytes32};
use crate::seqs::Dup;
use soroban_sdk::Env;
use vstd::prelude::*;

verus! {

/// The categories of poker hands, from the weakest up.
#[derive(Clone, Copy, Debug, PartialEq, Eq, PartialOrd, Ord, Structural)]
pub enum HandCategory {
    HighCard,
    OnePair,
    TwoPair,
    ThreeOfAKind,
    Straight,
    Flush,
    FullHouse,
    FourOfAKind,
    StraightFlush,
    RoyalFlush,
}

/// A player's claim to a hand rank.
#[derive(Clone, Copy, Debug, PartialEq, Eq, Structural)]
pub struct HandRankClaim {
    pub claimant: Address,
    pub table_id: u32,
    pub hand_id: u64,
    pub hand_category: u32,
    pub primary_rank: u32,
    pub kicker_rank: u32,
    pub hand_commitment: Bytes32,
    pub board_commitment: Bytes32,
    pub is_mucked: bool,
}

/// The lasting record of a verified hand rank.
#[derive(Clone, Copy, Debug, PartialEq, Eq, Structural)]
pub struct VerifiedHandRecord {
    pub claimant: Address,
    pub table_id: u32,
    pub hand_id: u64,
    pub hand_category: u32,
    pub primary_rank: u32,
    pub kicker_rank: u32,
    pub is_mucked: bool,
    pub proof_hash: Bytes32,
    pub verified_at_ledger: u32,
}

impl View for VerifiedHandRecord {
    type V = VerifiedHandRecord;

    open spec fn view(&self) -> VerifiedHandRecord {
        *self
    }
}

impl Dup for VerifiedHandRecord {
    fn dup(&self) -> (r: Self) {
        *self
    }
}

/// What is said of a claim.
#[derive(Clone, Copy, Debug, PartialEq, Eq, Structural)]
pub enum ClaimMessage {
    ProofRejected,
    VerifiedOk,
}

impl ClaimMessage {
    /// The symbol published for the message.
    pub fn name(&self) -> (r: &'static str)
        ensures
            r@ == (match *self {
                ClaimMessage::ProofRejected => "proof_rejected"@,
                ClaimMessage::VerifiedOk => "verified_ok"@,
            }),
    {
        match *self {
            ClaimMessage::ProofRejected => "proof_rejected",
            ClaimMessage::VerifiedOk => "verified_ok",
        }
    }
}

/// The answer to a claim.
#[derive(Clone, Copy, Debug, PartialEq, Eq, Structural)]
pub struct VerificationResult {
    pub valid: bool,
    pub hand_category: u32,
    pub primary_rank: u32,
    pub kicker_rank: u32,
    pub is_mucked: bool,
    pub message: ClaimMessage,
}

/// Why a request is refused.
#[derive(Clone, Copy, Debug, PartialEq, Eq, Structural)]
pub enum HandVerifierError {
    AlreadyInitialized,
    NotInitialized,
    Unauthorized,
    ContractPaused,
    InvalidProof,
    InvalidHandCategory,
    InvalidRank,
    AlreadyVerified,
    EmptyBatch,
    BatchSizeMismatch,
    InvalidCommitment,
}

/// A player's hand at a table.
#[derive(Clone, Copy, Debug, PartialEq, Eq, Structural)]
pub struct HandKey {
    pub table_id: u32,
    pub hand_id: u64,
    pub claimant: Address,
}

impl Key for HandKey {
    fn same(&self, other: &Self) -> (r: bool) {
        *self == *other
    }
}

/// The contents of the register.
#[verifier::ext_equal]
pub struct HandRegister {
    pub admin: Option<Address>,
    pub zk_verifier: Option<Address>,
    pub fee: Option<i128>,
    pub paused: Option<bool>,
    pub verified: Map<HandKey, VerifiedHandRecord>,
}

/// The hand that a claim is about.
pub open spec fn key_of(claim: HandRankClaim) -> HandKey {
    HandKey { table_id: claim.table_id, hand_id: claim.hand_id, claimant: claim.claimant }
}

/// Whether the proof of a claim is accepted: both commitments are set and the proof has at least
/// two words of 32 bytes.
pub open spec fn proof_accepted(claim: HandRankClaim, proof_len: int) -> bool {
    &&& claim.hand_commitment.words() != (0u64, 0u64, 0u64, 0u64)
    &&& claim.board_commitment.words() != (0u64, 0u64, 0u64, 0u64)
    &&& proof_len >= 64
}

/// The record that an accepted claim leaves.
pub open spec fn record_of(claim: HandRankClaim, proof_hash: Bytes32, now: u32) -> VerifiedHandRecord {
    VerifiedHandRecord {
        claimant: claim.claimant,
        table_id: claim.table_id,
        hand_id: claim.hand_id,
        hand_category: claim.hand_category,
        primary_rank: claim.primary_rank,
        kicker_rank: claim.kicker_rank,
        is_mucked: claim.is_mucked,
        proof_hash,
        verified_at_ledger: now,
    }
}

impl HandRegister {
    /// Why a claim is refused outright, if it is.
    pub open spec fn refusal(self, claim: HandRankClaim, proof_len: int) -> Option<HandVerifierError> {
        if self.paused == Some(true) {
            Some(HandVerifierError::ContractPaused)
        } else if claim.hand_category > 9 {
            Some(HandVerifierError::InvalidHandCategory)
        } else if claim.primary_rank > 12 || claim.kicker_rank > 12 {
            Some(HandVerifierError::InvalidRank)
        } else if self.verified.contains_key(key_of(claim)) {
            Some(HandVerifierError::AlreadyVerified)
        } else if proof_len < 32 {
            Some(HandVerifierError::InvalidProof)
        } else {
            None
        }
    }

    /// The register after a claim that is not refused outright, and the answer.
    pub open spec fn judged(
        self,
        claim: HandRankClaim,
        proof_len: int,
        proof_hash: Bytes32,
        now: u32,
    ) -> (HandRegister, VerificationResult) {
        if proof_accepted(claim, proof_len) {
            (
                HandRegister {
                    verified: self.verified.insert(key_of(claim), record_of(claim, proof_hash, now)),
                    ..self
                },
                VerificationResult {
                    valid: true,
                    hand_category: claim.hand_category,
                    primary_rank: claim.primary_rank,
                    kicker_rank: claim.kicker_rank,
                    is_mucked: claim.is_mucked,
                    message: ClaimMessage::VerifiedOk,
                },
            )
        } else {
            (
                self,
                VerificationResult {
                    valid: false,
                    hand_category: 0,
                    primary_rank: 0,
                    kicker_rank: 0,
                    is_mucked: false,
                    message: ClaimMessage::ProofRejected,
                },
            )
        }
    }

    /// The register after a list of claims, and the answers; or the first refusal.
    pub open spec fn judged_all(
        self,
        claims: Seq<HandRankClaim>,
        proofs: Seq<Vec<u8>>,
        now: u32,
    ) -> Result<(HandRegister, Seq<VerificationResult>), HandVerifierError>
        decreases claims.len(),
    {
        if claims.len() == 0 {
            Ok((self, Seq::empty()))
        } else {
            match self.judged_all(claims.drop_last(), proofs.drop_last(), now) {
                Err(e) => Err(e),
                Ok((reg, answers)) => {
                    let proof = proofs.last()@;
                    match reg.refusal(claims.last(), proof.len() as int) {
                        Some(e) => Err(e),
                        None => {
                            let (next, answer) = reg.judged(
                                claims.last(),
                                proof.len() as int,
                                keccak_digest(proof),
                                now,
                            );
                            Ok((next, answers.push(answer)))
                        },
                    }
                },
            }
        }
    }
}

/// The register.
pub struct HandVerifierContract {
    admin: Option<Address>,
    zk_verifier: Option<Address>,
    fee: Option<i128>,
    paused: Option<bool>,
    verified: AssocMap<HandKey, VerifiedHandRecord>,
}

impl View for HandVerifierContract {
    type V = HandRegister;

    closed spec fn view(&self) -> HandRegister {
        HandRegister {
            admin: self.admin,
            zk_verifier: self.zk_verifier,
            fee: self.fee,
            paused: self.paused,
            verified: self.verified@,
        }
    }
}

impl HandVerifierContract {
    /// A register that nobody has set up yet.
    pub fn new() -> (r: Self)
        ensures
            r@ == (HandRegister {
                admin: None,
                zk_verifier: None,
                fee: None,
                paused: None,
                verified: Map::empty(),
            }),
    {
        HandVerifierContract {
            admin: None,
            zk_verifier: None,
            fee: None,
            paused: None,
            verified: AssocMap::new(),
        }
    }

    /// Sets the administrator, the proof verifier and the fee, once.
    pub fn initialize(&mut self, admin: Address, zk_verifier: Option<Address>, fee: i128) -> (r:
        Result<(), HandVerifierError>)
        ensures
            old(self)@.admin is Some ==> r == Err::<(), _>(HandVerifierError::AlreadyInitialized)
                && final(self)@ == old(self)@,
            old(self)@.admin is None ==> r is Ok && final(self)@ == (HandRegister {
                admin: Some(admin),
                zk_verifier: if zk_verifier is Some {
                    zk_verifier
                } else {
                    old(self)@.zk_verifier
                },
                fee: Some(fee),
                paused: Some(false),
                ..old(self)@
            }),
    {
        if self.admin.is_some() {
            return Err(HandVerifierError::AlreadyInitialized);
        }
        self.admin = Some(admin);
        if let Some(v) = zk_verifier {
            self.zk_verifier = Some(v);
        }
        self.fee = Some(fee);
        self.paused = Some(false);
        Ok(())
    }

    /// Verifies a claim to a hand rank by its proof, at ledger `now`.
    pub fn verify_hand_claim(
        &mut self,
        env: &Env,
        claim: &HandRankClaim,
        zk_proof: &Vec<u8>,
        now: u32,
    ) -> (r: Result<VerificationResult, HandVerifierError>)
        requires
            zk_proof@.len() <= u32::MAX,
        ensures
            match old(self)@.refusal(*claim, zk_proof@.len() as int) {
                Some(e) => r == Err::<VerificationResult, _>(e) && final(self)@ == old(self)@,
                None => {
                    let (next, answer) = old(self)@.judged(
                        *claim,
                        zk_proof@.len() as int,
                        keccak_digest(zk_proof@),
                        now,
                    );
                    r == Ok::<_, HandVerifierError>(answer) && final(self)@ == next
                },
            },
    {
        match self.check_claim(claim, zk_proof.len()) {
            Ok(_) => {},
            Err(e) => {
                return Err(e);
            },
        }
        let proof_hash = keccak256(env, zk_proof);
        Ok(self.judge_claim(claim, zk_proof.len(), proof_hash, now))
    }

    /// Refuses a claim that is out of range, already verified or without a proof.
    pub fn check_claim(&self, claim: &HandRankClaim, proof_len: usize) -> (r: Result<
        (),
        HandVerifierError,
    >)
        ensures
            r == (match self@.refusal(*claim, proof_len as int) {
                Some(e) => Err::<(), _>(e),
                None => Ok(()),
            }),
    {
        match self.ensure_not_paused() {
            Ok(_) => {},
            Err(e) => {
                return Err(e);
            },
        }
        if claim.hand_category > 9 {
            return Err(HandVerifierError::InvalidHandCategory);
        }
        if claim.primary_rank > 12 || claim.kicker_rank > 12 {
            return Err(HandVerifierError::InvalidRank);
        }
        if self.is_hand_verified(claim.table_id, claim.hand_id, claim.claimant) {
            return Err(HandVerifierError::AlreadyVerified);
        }
        if proof_len < 32 {
            return Err(HandVerifierError::InvalidProof);
        }
        Ok(())
    }

    /// Accepts or rejects the proof of a claim with the digest `proof_hash`, and records the
    /// hand where it is accepted.
    pub fn judge_claim(
        &mut self,
        claim: &HandRankClaim,
        proof_len: usize,
        proof_hash: Bytes32,
        now: u32,
    ) -> (r: VerificationResult)
        ensures
            (final(self)@, r) == old(self)@.judged(*claim, proof_len as int, proof_hash, now),
    {
        if !Self::verify_zk_proof_internal(claim, proof_len) {
            return VerificationResult {
                valid: false,
                hand_category: 0,
                primary_rank: 0,
                kicker_rank: 0,
                is_mucked: false,
                message: ClaimMessage::ProofRejected,
            };
        }
        let record = VerifiedHandRecord {
            claimant: claim.claimant,
            table_id: claim.table_id,
            hand_id: claim.hand_id,
            hand_category: claim.hand_category,
            primary_rank: claim.primary_rank,
            kicker_rank: claim.kicker_rank,
            is_mucked: claim.is_mucked,
            proof_hash,
            verified_at_ledger: now,
        };
        let key = HandKey {
            table_id: claim.table_id,
            hand_id: claim.hand_id,
            claimant: claim.claimant,
        };
        self.verified.insert(key, record);
        VerificationResult {
            valid: true,
            hand_category: claim.hand_category,
            primary_rank: claim.primary_rank,
            kicker_rank: claim.kicker_rank,
            is_mucked: claim.is_mucked,
            message: ClaimMessage::VerifiedOk,
        }
    }

    /// Whether the player's hand is on record.
    pub fn is_hand_verified(&self, table_id: u32, hand_id: u64, claimant: Address) -> (r: bool)
        ensures
            r == self@.verified.contains_key(HandKey { table_id, hand_id, claimant }),
    {
        self.verified.contains(&HandKey { table_id, hand_id, claimant })
    }

    /// The record of the player's hand.
    pub fn get_verified_hand(&self, table_id: u32, hand_id: u64, claimant: Address) -> (r: Option<
        VerifiedHandRecord,
    >)
        ensures
            r == self@.verified.index_opt(HandKey { table_id, hand_id, claimant }),
    {
        match self.verified.get(&HandKey { table_id, hand_id, claimant }) {
            Some(x) => Some(*x),
            None => None,
        }
    }

    /// The record of the player's hand, where it was mucked.
    pub fn get_mucked_hand_verification(
        &self,
        table_id: u32,
        hand_id: u64,
        claimant: Address,
    ) -> (r: Option<VerifiedHandRecord>)
        ensures
            r == (match self@.verified.index_opt(HandKey { table_id, hand_id, claimant }) {
                Some(x) => if x.is_mucked {
                    Some(x)
                } else {
                    None
                },
                None => None,
            }),
    {
        match self.get_verified_hand(table_id, hand_id, claimant) {
            Some(x) => if x.is_mucked {
                Some(x)
            } else {
                None
            },
            None => None,
        }
    }

    /// Verifies a list of claims. One refusal refuses them all and records none.
    pub fn batch_verify_claims(
        &mut self,
        env: &Env,
        claims: &Vec<HandRankClaim>,
        proofs: &Vec<Vec<u8>>,
        now: u32,
    ) -> (r: Result<Vec<VerificationResult>, HandVerifierError>)
        requires
            forall|i: int| 0 <= i < proofs@.len() ==> (#[trigger] proofs@[i])@.len() <= u32::MAX,
        ensures
            match r {
                Ok(answers) => claims@.len() > 0 && claims@.len() == proofs@.len() && old(self)@.judged_all(claims@, proofs@, now) == Ok::<_, HandVerifierError>(
                    (final(self)@, answers@),
                ),
                Err(e) => final(self)@ == old(self)@ && if claims@.len() == 0 {
                    e == HandVerifierError::EmptyBatch
                } else if claims@.len() != proofs@.len() {
                    e == HandVerifierError::BatchSizeMismatch
                } else {
                    old(self)@.judged_all(claims@, proofs@, now) == Err::<
                        (HandRegister, Seq<VerificationResult>),
                        _,
                    >(e)
                },
            },
    {
        if claims.len() == 0 {
            return Err(HandVerifierError::EmptyBatch);
        }
        if claims.len() != proofs.len() {
            return Err(HandVerifierError::BatchSizeMismatch);
        }
        let ghost st0 = self@;
        let mut work = HandVerifierContract {
            admin: self.admin,
            zk_verifier: self.zk_verifier,
            fee: self.fee,
            paused: self.paused,
            verified: self.verified.dup(),
        };
        let mut results: Vec<VerificationResult> = Vec::new();
        let mut i: usize = 0;
        while i < claims.len()
            invariant
                i <= claims@.len(),
                claims@.len() > 0,
                claims@.len() == proofs@.len(),
                st0 == old(self)@,
                st0 == self@,
                forall|k: int| 0 <= k < proofs@.len() ==> (#[trigger] proofs@[k])@.len() <= u32::MAX,
                st0.judged_all(claims@.take(i as int), proofs@.take(i as int), now) == Ok::<
                    _,
                    HandVerifierError,
                >((work@, results@)),
            decreases claims@.len() - i,
        {
            proof {
                lemma_batch_step(st0, claims@, proofs@, now, i as int);
            }
            let claim = claims[i];
            match work.verify_hand_claim(env, &claim, &proofs[i], now) {
                Ok(x) => {
                    results.push(x);
                },
                Err(e) => {
                    return Err(e);
                },
            }
            i += 1;
        }
        assert(claims@.take(i as int) =~= claims@);
        assert(proofs@.take(i as int) =~= proofs@);
        *self = work;
        Ok(results)
    }

    /// Names the proof verifier, or none.
    pub fn set_zk_verifier(&mut self, zk_verifier: Option<Address>) -> (r: Result<
        (),
        HandVerifierError,
    >)
        ensures
            admin_step(old(self)@, final(self)@, r, HandRegister { zk_verifier, ..old(self)@ }),
    {
        match self.require_admin() {
            Ok(_) => {},
            Err(e) => {
                return Err(e);
            },
        }
        self.zk_verifier = zk_verifier;
        Ok(())
    }

    /// Sets the fee.
    pub fn set_verification_fee(&mut self, fee: i128) -> (r: Result<(), HandVerifierError>)
        ensures
            admin_step(old(self)@, final(self)@, r, HandRegister { fee: Some(fee), ..old(self)@ }),
    {
        match self.require_admin() {
            Ok(_) => {},
            Err(e) => {
                return Err(e);
            },
        }
        self.fee = Some(fee);
        Ok(())
    }

    /// Stops verification.
    pub fn pause(&mut self) -> (r: Result<(), HandVerifierError>)
        ensures
            admin_step(
                old(self)@,
                final(self)@,
                r,
                HandRegister { paused: Some(true), ..old(self)@ },
            ),
    {
        match self.require_admin() {
            Ok(_) => {},
            Err(e) => {
                return Err(e);
            },
        }
        self.paused = Some(true);
        Ok(())
    }

    /// Resumes verification.
    pub fn unpause(&mut self) -> (r: Result<(), HandVerifierError>)
        ensures
            admin_step(
                old(self)@,
                final(self)@,
                r,
                HandRegister { paused: Some(false), ..old(self)@ },
            ),
    {
        match self.require_admin() {
            Ok(_) => {},
            Err(e) => {
                return Err(e);
            },
        }
        self.paused = Some(false);
        Ok(())
    }

    /// Hands the register to a new administrator.
    pub fn transfer_admin(&mut self, new_admin: Address) -> (r: Result<(), HandVerifierError>)
        ensures
            admin_step(
                old(self)@,
                final(self)@,
                r,
                HandRegister { admin: Some(new_admin), ..old(self)@ },
            ),
    {
        match self.require_admin() {
            Ok(_) => {},
            Err(e) => {
                return Err(e);
            },
        }
        self.admin = Some(new_admin);
        Ok(())
    }

    /// Whether the proof of a claim is accepted.
    fn verify_zk_proof_internal(claim: &HandRankClaim, proof_len: usize) -> (r: bool)
        ensures
            r == proof_accepted(*claim, proof_len as int),
    {
        if claim.hand_commitment.is_zero() || claim.board_commitment.is_zero() {
            return false;
        }
        if proof_len < 64 {
            return false;
        }
        true
    }

    /// The administrator, whose authorization an administrative call needs.
    pub fn require_admin(&self) -> (r: Result<Address, HandVerifierError>)
        ensures
            r == (match self@.admin {
                Some(a) => Ok(a),
                None => Err(HandVerifierError::NotInitialized),
            }),
    {
        match self.admin {
            Some(a) => Ok(a),
            None => Err(HandVerifierError::NotInitialized),
        }
    }

    fn ensure_not_paused(&self) -> (r: Result<(), HandVerifierError>)
        ensures
            r == (if self@.paused == Some(true) {
                Err(HandVerifierError::ContractPaused)
            } else {
                Ok::<(), HandVerifierError>(())
            }),
    {
        match self.paused {
            Some(p) => if p {
                Err(HandVerifierError::ContractPaused)
            } else {
                Ok(())
            },
            None => Ok(()),
        }
    }
}

/// An administrative step: it needs an administrator, and is then `next`.
pub open spec fn admin_step(
    before: HandRegister,
    after: HandRegister,
    r: Result<(), HandVerifierError>,
    next: HandRegister,
) -> bool {
    if before.admin is Some {
        r is Ok && after == next
    } else {
        r == Err::<(), _>(HandVerifierError::NotInitialized) && after == before
    }
}

proof fn lemma_batch_step(
    st: HandRegister,
    claims: Seq<HandRankClaim>,
    proofs: Seq<Vec<u8>>,
    now: u32,
    i: int,
)
    requires
        0 <= i < claims.len(),
        claims.len() == proofs.len(),
    ensures
        claims.take(i + 1).drop_last() == claims.take(i),
        proofs.take(i + 1).drop_last() == proofs.take(i),
        claims.take(i + 1).last() == claims[i],
        proofs.take(i + 1).last() == proofs[i],
        st.judged_all(claims.take(i + 1), proofs.take(i + 1), now) matches Err(e)
            ==> st.judged_all(claims, proofs, now) == Err::<
            (HandRegister, Seq<VerificationResult>),
            _,
        >(e),
    decreases claims.len() - i,
{
    assert(claims.take(i + 1).drop_last() =~= claims.take(i));
    assert(proofs.take(i + 1).drop_last() =~= proofs.take(i));
    if i + 1 < claims.len() {
        lemma_batch_step(st, claims, proofs, now, i + 1);
    } else {
        assert(claims.take(i + 1) =~= claims);
        assert(proofs.take(i + 1) =~= proofs);
    }
}

/// A hand on record stays on record as it is, whatever claim comes next, and no claim to it is
/// ever accepted again.
pub proof fn verified_hand_is_final(
    st: HandRegister,
    claim: HandRankClaim,
    proof_len: int,
    proof_hash: Bytes32,
    now: u32,
    key: HandKey,
)
    requires
        st.verified.contains_key(key),
    ensures
        key_of(claim) == key ==> st.refusal(claim, proof_len) is Some,
        st.refusal(claim, proof_len) is None ==> {
            let next = st.judged(claim, proof_len, proof_hash, now).0;
            next.verified.contains_key(key) && next.verified[key] == st.verified[key]
        },
{
}

/// While verification is stopped every claim is refused.
pub proof fn paused_refuses_all(st: HandRegister, claim: HandRankClaim, proof_len: int)
    requires
        st.paused == Some(true),
    ensures
        st.refusal(claim, proof_len) == Some(HandVerifierError::ContractPaused),
{
}

/// A claim is judged when it names a category and ranks that there are, comes with a proof of 32
/// bytes or more, and was not verified before; and every such claim is.
pub proof fn claims_are_of_real_hands(st: HandRegister, claim: HandRankClaim, proof_len: int)
    ensures
        st.refusal(claim, proof_len) is None <==> {
            &&& st.paused != Some(true)
            &&& claim.hand_category <= 9
            &&& claim.primary_rank <= 12 && claim.kicker_rank <= 12
            &&& proof_len >= 32
            &&& !st.verified.contains_key(
                HandKey {
                    table_id: claim.table_id,
                    hand_id: claim.hand_id,
                    claimant: claim.claimant,
                },
            )
        },
{
}

/// A claim is found valid when both commitments are given and the proof has 64 bytes or more. It is
/// then on record just as it was claimed, with the digest of its proof, and the answer repeats it.
/// A claim that is not valid leaves no record, and the answer tells nothing of it.
pub proof fn valid_claims_are_recorded(
    st: HandRegister,
    claim: HandRankClaim,
    proof_len: int,
    proof_hash: Bytes32,
    now: u32,
    other: HandKey,
)
    ensures
        ({
            let (n, answer) = st.judged(claim, proof_len, proof_hash, now);
            let key = HandKey {
                table_id: claim.table_id,
                hand_id: claim.hand_id,
                claimant: claim.claimant,
            };
            let rec = n.verified[key];
            let zero = (0u64, 0u64, 0u64, 0u64);
            &&& answer.valid <==> claim.hand_commitment.words() != zero
                && claim.board_commitment.words() != zero && proof_len >= 64
            &&& answer.valid ==> {
                &&& n.verified.contains_key(key)
                &&& rec.hand_category == claim.hand_category && rec.primary_rank
                    == claim.primary_rank && rec.kicker_rank == claim.kicker_rank && rec.is_mucked
                    == claim.is_mucked && rec.claimant == claim.claimant && rec.table_id
                    == claim.table_id && rec.hand_id == claim.hand_id
                &&& rec.proof_hash == proof_hash && rec.verified_at_ledger == now
                &&& answer.hand_category == claim.hand_category && answer.primary_rank
                    == claim.primary_rank && answer.kicker_rank == claim.kicker_rank
                    && answer.is_mucked == claim.is_mucked
                &&& answer.message is VerifiedOk
            }
            &&& !answer.valid ==> n == st && answer.hand_category == 0 && answer.primary_rank == 0
                && answer.kicker_rank == 0 && !answer.is_mucked && answer.message is ProofRejected
            &&& other != key ==> n.verified.contains_key(other) == st.verified.contains_key(other)
                && n.verified[other] == st.verified[other]
            &&& n.admin == st.admin && n.fee == st.fee && n.paused == st.paused
        }),
{
}

/// A batch is answered claim by claim in its order: one answer for each, valid where the claim's own
/// commitments and proof are.
pub proof fn batches_are_answered_in_order(
    st: HandRegister,
    claims: Seq<HandRankClaim>,
    proofs: Seq<Vec<u8>>,
    now: u32,
    i: int,
)
    requires
        claims.len() == proofs.len(),
        st.judged_all(claims, proofs, now) is Ok,
        0 <= i < claims.len(),
    ensures
        ({
            let (n, answers) = st.judged_all(claims, proofs, now)->Ok_0;
            let zero = (0u64, 0u64, 0u64, 0u64);
            &&& answers.len() == claims.len()
            &&& answers[i].valid <==> claims[i].hand_commitment.words() != zero
                && claims[i].board_commitment.words() != zero && proofs[i]@.len() >= 64
        }),
    decreases claims.len(),
{
    let (c, p) = (claims.drop_last(), proofs.drop_last());
    if i < c.len() {
        assert(c[i] == claims[i] && p[i] == proofs[i]);
        batches_are_answered_in_order(st, c, p, now, i);
    } else if c.len() > 0 {
        batches_are_answered_in_order(st, c, p, now, 0);
    } else {
        assert(st.judged_all(c, p, now)->Ok_0.1.len() == 0);
    }
}

/// A claim that cannot be judged is refused for a reason.
pub proof fn claims_are_refused_for_a_reason(
    st: HandRegister,
    claim: HandRankClaim,
    proof_len: int,
)
    ensures
        ({
            let r = st.refusal(claim, proof_len);
            &&& r == Some(HandVerifierError::ContractPaused) ==> st.paused == Some(true)
            &&& r == Some(HandVerifierError::InvalidHandCategory) ==> claim.hand_category > 9
            &&& r == Some(HandVerifierError::InvalidRank)
                ==> claim.primary_rank > 12 || claim.kicker_rank > 12
            &&& r == Some(HandVerifierError::AlreadyVerified)
                ==> st.verified.contains_key(key_of(claim))
            &&& r == Some(HandVerifierError::InvalidProof) ==> proof_len < 32
        }),
{
}

} // verus!
