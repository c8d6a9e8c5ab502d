use soroban_sdk::testutils::EnvTestConfig;
use soroban_sdk::Env;
use stellar_poker::hand_verifier::{
    ClaimMessage, HandCategory, HandRankClaim, HandVerifierContract, HandVerifierError,
};
use stellar_poker::host::{Address, Bytes32};

fn env() -> Env {
    Env::new_with_config(EnvTestConfig { capture_snapshot_at_drop: false })
}

fn account(n: u64) -> Address {
    Address::Account(Bytes32 { w0: n, w1: 7, w2: 8, w3: 9 })
}

fn contract() -> HandVerifierContract {
    let mut c = HandVerifierContract::new();
    c.initialize(account(1), None, 0).unwrap();
    c
}

fn sample_claim(claimant: Address, is_mucked: bool) -> HandRankClaim {
    HandRankClaim {
        claimant,
        table_id: 10,
        hand_id: 42,
        hand_category: HandCategory::FullHouse as u32,
        primary_rank: 12,
        kicker_rank: 11,
        hand_commitment: Bytes32::splat(0x0101_0101_0101_0101),
        board_commitment: Bytes32::splat(0x0202_0202_0202_0202),
        is_mucked,
    }
}

fn valid_proof() -> Vec<u8> {
    let mut bytes = vec![0u8; 96];
    bytes[0] = 0xAA;
    bytes[31] = 0xBB;
    bytes[63] = 0xCC;
    bytes
}

#[test]
fn test_verify_showdown_and_mucked_hand() {
    let env = env();
    let mut c = contract();
    let claimant = account(5);
    let claim = sample_claim(claimant, true);

    let res = c.verify_hand_claim(&env, &claim, &valid_proof(), 3).unwrap();
    assert!(res.valid);
    assert_eq!(res.message, ClaimMessage::VerifiedOk);
    assert_eq!(res.message.name(), "verified_ok");
    assert_eq!(res.hand_category, HandCategory::FullHouse as u32);
    assert!(res.is_mucked);

    assert!(c.is_hand_verified(10, 42, claimant));

    let mucked_record = c.get_mucked_hand_verification(10, 42, claimant);
    assert!(mucked_record.is_some());
    assert_eq!(mucked_record.unwrap().hand_category, 6);
}

#[test]
fn test_prevent_duplicate_verification() {
    let env = env();
    let mut c = contract();
    let claim = sample_claim(account(5), false);
    c.verify_hand_claim(&env, &claim, &valid_proof(), 3).unwrap();
    let res2 = c.verify_hand_claim(&env, &claim, &valid_proof(), 4);
    assert!(res2.is_err());
    assert_eq!(res2, Err(HandVerifierError::AlreadyVerified));
}

#[test]
fn test_batch_verification() {
    let env = env();
    let mut c = contract();
    let mut c1 = sample_claim(account(5), false);
    c1.hand_id = 1;
    let mut c2 = sample_claim(account(6), true);
    c2.hand_id = 2;
    let results = c
        .batch_verify_claims(&env, &vec![c1, c2], &vec![valid_proof(), valid_proof()], 3)
        .unwrap();
    assert_eq!(results.len(), 2);
    assert!(results[0].valid);
    assert!(results[1].valid);
}

#[test]
fn hand_verifier_pause_and_unpause() {
    let env = env();
    let mut c = contract();
    c.pause().unwrap();
    let claim = sample_claim(account(5), false);
    let res = c.verify_hand_claim(&env, &claim, &valid_proof(), 3);
    assert!(res.is_err());
    assert_eq!(res, Err(HandVerifierError::ContractPaused));
    c.unpause().unwrap();
    let res2 = c.verify_hand_claim(&env, &claim, &valid_proof(), 3);
    assert!(res2.is_ok());
}

#[test]
fn record_keeps_the_digest_of_the_proof() {
    let env = env();
    let mut c = contract();
    let claimant = account(5);
    let claim = sample_claim(claimant, false);
    c.verify_hand_claim(&env, &claim, &valid_proof(), 3).unwrap();
    let record = c.get_verified_hand(10, 42, claimant).unwrap();
    let digest = env
        .crypto()
        .keccak256(&soroban_sdk::Bytes::from_slice(&env, &valid_proof()))
        .to_array();
    assert_eq!(record.proof_hash.w0.to_be_bytes(), digest[0..8]);
    assert_eq!(record.proof_hash.w3.to_be_bytes(), digest[24..32]);
    assert_eq!(record.verified_at_ledger, 3);
    assert!(c.get_mucked_hand_verification(10, 42, claimant).is_none());
}

#[test]
fn malformed_claims_are_refused() {
    let env = env();
    let mut c = contract();
    let mut claim = sample_claim(account(5), false);
    claim.hand_category = 10;
    assert_eq!(
        c.verify_hand_claim(&env, &claim, &valid_proof(), 3),
        Err(HandVerifierError::InvalidHandCategory)
    );
    let mut claim = sample_claim(account(5), false);
    claim.primary_rank = 13;
    assert_eq!(
        c.verify_hand_claim(&env, &claim, &valid_proof(), 3),
        Err(HandVerifierError::InvalidRank)
    );
    let mut claim = sample_claim(account(5), false);
    claim.hand_commitment = Bytes32::splat(0);
    let res = c.verify_hand_claim(&env, &claim, &valid_proof(), 3).unwrap();
    assert!(!res.valid);
    assert_eq!(res.message.name(), "proof_rejected");
    assert!(!c.is_hand_verified(10, 42, account(5)));
}

#[test]
fn batches_must_match() {
    let env = env();
    let mut c = contract();
    assert_eq!(
        c.batch_verify_claims(&env, &Vec::new(), &Vec::new(), 1),
        Err(HandVerifierError::EmptyBatch)
    );
    assert_eq!(
        c.batch_verify_claims(&env, &vec![sample_claim(account(5), false)], &Vec::new(), 1),
        Err(HandVerifierError::BatchSizeMismatch)
    );
}

#[test]
fn hand_verifier_initializes_once() {
    let mut c = HandVerifierContract::new();
    assert_eq!(c.pause(), Err(HandVerifierError::NotInitialized));
    c.initialize(account(1), None, 0).unwrap();
    assert_eq!(
        c.initialize(account(1), None, 0),
        Err(HandVerifierError::AlreadyInitialized)
    );
}
