//! The number under which a hand is reported to the game hub.

use vstd::arithmetic::div_mod::{
    lemma_mod_multiples_vanish, lemma_mul_mod_noop_left, lemma_small_mod,
};
use vstd::prelude::*;

verus! {

/// `x` with its halves swapped.
pub open spec fn swap_halves(x: u32) -> u32 {
    (x << 16u32) | (x >> 16u32)
}

/// The low 32 bits of a product.
pub open spec fn low_product(x: u32, y: u32) -> u32 {
    ((x as int * y as int) % 0x1_0000_0000) as u32
}

/// The mixing of one number: multiply, then fold the high bits onto the low ones, twice.
pub open spec fn mixed(x: u32) -> u32 {
    let a = low_product(x, 0x9E37_79B1);
    let b = low_product(a ^ (a >> 16u32), 0x85EB_CA6B);
    b ^ (b >> 13u32)
}

/// The number of a hand of a table.
pub open spec fn session_id(table_id: u32, hand_number: u32) -> u32 {
    mixed(table_id ^ swap_halves(hand_number))
}

/// The number of a hand of a table.
pub fn derive_session_id(table_id: u32, hand_number: u32) -> (r: u32)
    ensures
        r == session_id(table_id, hand_number),
{
    let swapped: u32 = (hand_number << 16u32) | (hand_number >> 16u32);
    let mut x: u32 = table_id ^ swapped;
    x = x.wrapping_mul(0x9E37_79B1);
    x = x ^ (x >> 16u32);
    x = x.wrapping_mul(0x85EB_CA6B);
    x = x ^ (x >> 13u32);
    x
}

/// Multiplying by `c` can be undone where `c` has an inverse `d`.
proof fn lemma_product_undone(x: u32, c: u32, d: u32, k: int)
    requires
        c * d == k * 0x1_0000_0000 + 1,
    ensures
        low_product(low_product(x, c), d) == x,
{
    let m: int = 0x1_0000_0000;
    let xc: int = x * c;
    lemma_mul_mod_noop_left(xc, d as int, m);
    assert(xc * d == (x * k) * m + x) by (nonlinear_arith)
        requires
            xc == x * c,
            c * d == k * m + 1,
    ;
    lemma_mod_multiples_vanish(x * k, x as int, m);
    assert(m * (x * k) == (x * k) * m) by (nonlinear_arith);
    lemma_small_mod(x as nat, m as nat);
}

/// Different numbers are mixed to different numbers.
proof fn lemma_mixed(x: u32, y: u32)
    requires
        mixed(x) == mixed(y),
    ensures
        x == y,
{
    let (a, b) = (low_product(x, 0x9E37_79B1), low_product(y, 0x9E37_79B1));
    let (p, q) = (a ^ (a >> 16u32), b ^ (b >> 16u32));
    let (e, f) = (low_product(p, 0x85EB_CA6B), low_product(q, 0x85EB_CA6B));
    assert(e ^ (e >> 13u32) == f ^ (f >> 13u32) ==> e == f) by (bit_vector);
    lemma_product_undone(p, 0x85EB_CA6B, 0xa5cb9243, 1455126516);
    lemma_product_undone(q, 0x85EB_CA6B, 0xa5cb9243, 1455126516);
    assert(a ^ (a >> 16u32) == b ^ (b >> 16u32) ==> a == b) by (bit_vector);
    lemma_product_undone(x, 0x9E37_79B1, 0xe8b2f51, 150801925);
    lemma_product_undone(y, 0x9E37_79B1, 0xe8b2f51, 150801925);
}

/// Different hands of one table have different numbers, and so have the hands of different tables
/// that are the same in their count.
pub proof fn session_ids_differ(table_id: u32, hand_number: u32, other: u32)
    ensures
        other != hand_number ==> session_id(table_id, hand_number) != session_id(table_id, other),
        other != table_id ==> session_id(table_id, hand_number) != session_id(other, hand_number),
{
    let (x, y) = (table_id ^ swap_halves(hand_number), table_id ^ swap_halves(other));
    let z = other ^ swap_halves(hand_number);
    let (a, b) = (hand_number, other);
    assert(a != b ==> table_id ^ ((a << 16u32) | (a >> 16u32)) != table_id ^ ((b << 16u32) | (b
        >> 16u32))) by (bit_vector);
    assert(table_id != b ==> table_id ^ ((a << 16u32) | (a >> 16u32)) != b ^ ((a << 16u32) | (a
        >> 16u32))) by (bit_vector);
    if session_id(table_id, hand_number) == session_id(table_id, other) {
        lemma_mixed(x, y);
    }
    if session_id(table_id, hand_number) == session_id(other, hand_number) {
        lemma_mixed(x, z);
    }
}

/// The number of a hand leads back to the hand: undoing the folds and multiplying by the inverses of
/// the two factors gives the table and the count of the hand with its halves swapped, mixed bit by
/// bit; so with the table it gives the count.
pub proof fn session_ids_lead_back(table_id: u32, hand_number: u32)
    ensures
        ({
            let s = session_id(table_id, hand_number);
            let b = s ^ (s >> 13u32) ^ (s >> 26u32);
            let p = ((b as int * 0xa5cb_9243) % 0x1_0000_0000) as u32;
            let a = p ^ (p >> 16u32);
            let x = ((a as int * 0x0e8b_2f51) % 0x1_0000_0000) as u32;
            let y = x ^ table_id;
            (y << 16u32) | (y >> 16u32) == hand_number
        }),
{
    let x = table_id ^ swap_halves(hand_number);
    let a = low_product(x, 0x9E37_79B1);
    let p = a ^ (a >> 16u32);
    let b = low_product(p, 0x85EB_CA6B);
    let s = b ^ (b >> 13u32);
    assert(s ^ (s >> 13u32) ^ (s >> 26u32) == b) by (bit_vector)
        requires
            s == b ^ (b >> 13u32),
    ;
    lemma_product_undone(p, 0x85EB_CA6B, 0xa5cb9243, 1455126516);
    assert(p ^ (p >> 16u32) == a) by (bit_vector)
        requires
            p == a ^ (a >> 16u32),
    ;
    lemma_product_undone(x, 0x9E37_79B1, 0xe8b2f51, 150801925);
    let y = x ^ table_id;
    assert((y << 16u32) | (y >> 16u32) == hand_number) by (bit_vector)
        requires
            y == (table_id ^ ((hand_number << 16u32) | (hand_number >> 16u32))) ^ table_id,
    ;
}

} // verus!
