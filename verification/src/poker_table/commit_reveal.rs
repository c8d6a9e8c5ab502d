//! Commitments to betting actions, opened later.

use crate::host::{keccak256, keccak_digest, Bytes32};
use crate::poker_table::types::Action;
use soroban_sdk::Env;
use vstd::prelude::*;

verus! {

/// The first byte of an action's encoding.
pub open spec fn tag(action: Action) -> u8 {
    match action {
        Action::Fold => 0,
        Action::Check => 1,
        Action::Call => 2,
        Action::Bet(_) => 3,
        Action::Raise(_) => 4,
        Action::AllIn => 5,
    }
}

/// Whether the encoding of an action holds an amount.
pub open spec fn has_amount(action: Action) -> bool {
    action is Bet || action is Raise
}

/// Whether `amount` is what an action bets or raises by, where it does.
pub open spec fn says_amount(action: Action, amount: i128) -> bool {
    match action {
        Action::Bet(x) => x == amount,
        Action::Raise(x) => x == amount,
        _ => true,
    }
}

/// Whether `amount` is what an action bets or raises by, where it does.
pub fn amount_matches(action: &Action, amount: i128) -> (r: bool)
    ensures
        r == says_amount(*action, amount),
{
    match action {
        Action::Bet(x) => *x == amount,
        Action::Raise(x) => *x == amount,
        _ => true,
    }
}

/// The `n` low bytes of a number, lowest first.
pub open spec fn le_bytes(u: int, n: nat) -> Seq<u8>
    decreases n,
{
    if n == 0 {
        Seq::empty()
    } else {
        seq![(u % 256) as u8] + le_bytes(u / 256, (n - 1) as nat)
    }
}

/// A signed number as the unsigned number with the same bits.
pub open spec fn bits_of(amount: i128) -> int {
    if amount >= 0 {
        amount as int
    } else {
        amount + 0x1_0000_0000_0000_0000_0000_0000_0000_0000int
    }
}

/// What is hashed for an action: its tag, the amount of a bet or raise, and the nonce.
pub open spec fn preimage(action: Action, amount: i128, nonce: Seq<u8>) -> Seq<u8> {
    seq![tag(action)] + (if has_amount(action) {
        le_bytes(bits_of(amount), 16)
    } else {
        Seq::empty()
    }) + nonce
}

/// Builds what is hashed for an action.
pub fn action_preimage(action: &Action, amount: i128, nonce: &Vec<u8>) -> (r: Vec<u8>)
    ensures
        r@ == preimage(*action, amount, nonce@),
{
    let mut out: Vec<u8> = Vec::new();
    let (t, with_amount): (u8, bool) = match action {
        Action::Fold => (0, false),
        Action::Check => (1, false),
        Action::Call => (2, false),
        Action::Bet(_) => (3, true),
        Action::Raise(_) => (4, true),
        Action::AllIn => (5, false),
    };
    out.push(t);
    let ghost head = seq![tag(*action)];
    assert(out@ =~= head);
    if with_amount {
        let bits: u128 = if amount >= 0 {
            amount as u128
        } else {
            (amount - i128::MIN) as u128 + 0x8000_0000_0000_0000_0000_0000_0000_0000u128
        };
        let mut rest: u128 = bits;
        let mut i: usize = 0;
        assert(out@ + le_bytes(rest as int, 16) =~= head + le_bytes(bits_of(amount), 16));
        while i < 16
            invariant
                i <= 16,
                out@ + le_bytes(rest as int, (16 - i) as nat) == head + le_bytes(
                    bits_of(amount),
                    16,
                ),
            decreases 16 - i,
        {
            let ghost before = out@;
            let b: u8 = (rest % 256) as u8;
            out.push(b);
            assert(before + le_bytes(rest as int, (16 - i) as nat) =~= out@ + le_bytes(
                rest as int / 256,
                (16 - i - 1) as nat,
            ));
            rest = rest / 256;
            i += 1;
        }
        assert(out@ + le_bytes(rest as int, 0) =~= out@);
    } else {
        assert(out@ =~= head + Seq::<u8>::empty());
    }
    let ghost base = out@;
    let mut j: usize = 0;
    assert(out@ =~= base + nonce@.take(0));
    while j < nonce.len()
        invariant
            j <= nonce@.len(),
            out@ == base + nonce@.take(j as int),
        decreases nonce@.len() - j,
    {
        out.push(nonce[j]);
        assert(nonce@.take(j + 1) =~= nonce@.take(j as int).push(nonce@[j as int]));
        assert(out@ =~= base + nonce@.take(j + 1));
        j += 1;
    }
    assert(nonce@.take(j as int) =~= nonce@);
    out
}

/// The commitment to an action.
pub fn compute_action_hash(env: &Env, action: &Action, amount: i128, nonce: &Vec<u8>) -> (r: Bytes32)
    requires
        nonce@.len() + 17 <= u32::MAX,
    ensures
        r == keccak_digest(preimage(*action, amount, nonce@)),
{
    let data = action_preimage(action, amount, nonce);
    proof {
        lemma_le_len(bits_of(amount), 16);
    }
    keccak256(env, &data)
}

proof fn lemma_le_len(u: int, n: nat)
    ensures
        le_bytes(u, n).len() == n,
    decreases n,
{
    if n > 0 {
        lemma_le_len(u / 256, (n - 1) as nat);
    }
}

/// Numbers that fit in `n` bytes have the same bytes only where they are the same.
proof fn lemma_le_injective(u: int, v: int, n: nat, bound: int)
    requires
        0 <= u < bound,
        0 <= v < bound,
        n == 0 ==> bound == 1,
        bound == pow256(n),
        le_bytes(u, n) == le_bytes(v, n),
    ensures
        u == v,
    decreases n,
{
    if n > 0 {
        let a = le_bytes(u, n);
        let b = le_bytes(v, n);
        let k = (n - 1) as nat;
        lemma_le_len(u / 256, k);
        lemma_le_len(v / 256, k);
        assert(a[0] == (u % 256) as u8);
        assert(b[0] == (v % 256) as u8);
        assert(a.skip(1) =~= le_bytes(u / 256, k));
        assert(b.skip(1) =~= le_bytes(v / 256, k));
        lemma_le_injective(u / 256, v / 256, k, pow256(k));
    }
}

/// The numbers that fit in `n` bytes.
pub open spec fn pow256(n: nat) -> int
    decreases n,
{
    if n == 0 {
        1
    } else {
        256 * pow256((n - 1) as nat)
    }
}

/// With one nonce, what is hashed gives the kind of action away, and the hashed amount of a bet or
/// of a raise.
pub proof fn preimage_binds_action(
    a: Action,
    x: i128,
    b: Action,
    y: i128,
    nonce: Seq<u8>,
)
    requires
        preimage(a, x, nonce) == preimage(b, y, nonce),
    ensures
        tag(a) == tag(b),
        has_amount(a) ==> x == y,
{
    let p = preimage(a, x, nonce);
    let q = preimage(b, y, nonce);
    assert(p[0] == tag(a));
    assert(q[0] == tag(b));
    if has_amount(a) {
        lemma_le_len(bits_of(x), 16);
        lemma_le_len(bits_of(y), 16);
        assert(p.subrange(1, 17) =~= le_bytes(bits_of(x), 16));
        assert(q.subrange(1, 17) =~= le_bytes(bits_of(y), 16));
        assert(pow256(16) == 0x1_0000_0000_0000_0000_0000_0000_0000_0000int) by {
            reveal_with_fuel(pow256, 17);
        }
        lemma_le_injective(bits_of(x), bits_of(y), 16, pow256(16));
    }
}

/// With one nonce, no two different actions can be opened from one commitment's bytes, where each
/// is opened with its own amount.
pub proof fn reveal_binds_action(a: Action, x: i128, b: Action, y: i128, nonce: Seq<u8>)
    requires
        says_amount(a, x),
        says_amount(b, y),
        preimage(a, x, nonce) == preimage(b, y, nonce),
    ensures
        a == b,
{
    preimage_binds_action(a, x, b, y, nonce);
}

proof fn lemma_le_byte(u: int, n: nat, i: int)
    requires
        u >= 0,
        0 <= i < n,
    ensures
        le_bytes(u, n).len() == n,
        le_bytes(u, n)[i] == (u / pow256(i as nat)) % 256,
    decreases n,
{
    lemma_le_len(u, n);
    lemma_le_len(u / 256, (n - 1) as nat);
    let rest = le_bytes(u / 256, (n - 1) as nat);
    assert(le_bytes(u, n) == seq![(u % 256) as u8] + rest);
    if i > 0 {
        lemma_le_byte(u / 256, (n - 1) as nat, i - 1);
        let p = pow256((i - 1) as nat);
        lemma_pow_positive((i - 1) as nat);
        vstd::arithmetic::div_mod::lemma_div_denominator(u, 256, p);
        assert(le_bytes(u, n)[i] == rest[i - 1]);
    } else {
        assert(pow256(0) == 1);
    }
}

proof fn lemma_pow_positive(n: nat)
    ensures
        pow256(n) > 0,
    decreases n,
{
    if n > 0 {
        lemma_pow_positive((n - 1) as nat);
    }
}

/// How an action is written out before it is hashed: a byte for the action, for a bet or a raise the
/// sixteen bytes of the amount, the lowest first, and the nonce.
pub proof fn preimages_are_laid_out(action: Action, amount: i128, nonce: Seq<u8>, i: int)
    requires
        amount >= 0,
        0 <= i < 16,
    ensures
        ({
            let p = preimage(action, amount, nonce);
            let sized = action is Bet || action is Raise;
            &&& p.len() == nonce.len() + (if sized {
                17int
            } else {
                1
            })
            &&& p[0] == (match action {
                Action::Fold => 0u8,
                Action::Check => 1u8,
                Action::Call => 2u8,
                Action::Bet(_) => 3u8,
                Action::Raise(_) => 4u8,
                Action::AllIn => 5u8,
            })
            &&& sized ==> p[1 + i] == (amount as int / pow256(i as nat)) % 256
            &&& p.skip(p.len() - nonce.len()) == nonce
        }),
{
    lemma_le_byte(amount as int, 16, i);
    let p = preimage(action, amount, nonce);
    assert(p.skip(p.len() - nonce.len()) =~= nonce);
}

} // verus!
