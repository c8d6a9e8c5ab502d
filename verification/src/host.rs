//! Addresses, 32-byte values and what the ledger host computes on them.

use crate::assoc::Key;
use soroban_sdk::{Bytes, Env};
use vstd::prelude::*;

verus! {

/// The host environment that a contract call runs in.
#[verifier::external_type_specification]
#[verifier::external_body]
pub struct ExEnv(soroban_sdk::Env);

/// A 32-byte value, as four big-endian words: a digest, a commitment or a public key.
#[derive(Clone, Copy, Debug, PartialEq, Eq, Structural)]
pub struct Bytes32 {
    pub w0: u64,
    pub w1: u64,
    pub w2: u64,
    pub w3: u64,
}

/// The byte of `s` at `i`, and zero past its end.
pub open spec fn byte_at(s: Seq<u8>, i: int) -> int {
    if 0 <= i < s.len() {
        s[i] as int
    } else {
        0
    }
}

/// The big-endian number in the four bytes of `s` at `at`.
pub open spec fn be_u32(s: Seq<u8>, at: int) -> int {
    byte_at(s, at) * 0x100_0000 + byte_at(s, at + 1) * 0x1_0000 + byte_at(s, at + 2) * 0x100
        + byte_at(s, at + 3)
}

/// The big-endian number in the eight bytes of `s` at `at`.
pub open spec fn be_u64(s: Seq<u8>, at: int) -> int {
    be_u32(s, at) * 0x1_0000_0000 + be_u32(s, at + 4)
}

/// The 32 bytes of `s` at `at`.
pub open spec fn bytes32_at(s: Seq<u8>, at: int) -> Bytes32 {
    Bytes32 {
        w0: be_u64(s, at) as u64,
        w1: be_u64(s, at + 8) as u64,
        w2: be_u64(s, at + 16) as u64,
        w3: be_u64(s, at + 24) as u64,
    }
}

/// Reads the byte at `i`, or zero past the end.
pub fn read_byte(s: &Vec<u8>, i: usize) -> (r: u8)
    ensures
        r == byte_at(s@, i as int),
{
    if i < s.len() {
        s[i]
    } else {
        0
    }
}

/// Reads the big-endian number in the four bytes at `at`.
pub fn read_u32_be(s: &Vec<u8>, at: usize) -> (r: u32)
    requires
        at + 3 <= usize::MAX,
    ensures
        r == be_u32(s@, at as int),
{
    read_byte(s, at) as u32 * 0x100_0000 + read_byte(s, at + 1) as u32 * 0x1_0000 + read_byte(
        s,
        at + 2,
    ) as u32 * 0x100 + read_byte(s, at + 3) as u32
}

/// Reads the big-endian number in the eight bytes at `at`.
pub fn read_u64_be(s: &Vec<u8>, at: usize) -> (r: u64)
    requires
        at + 7 <= usize::MAX,
    ensures
        r == be_u64(s@, at as int),
{
    read_u32_be(s, at) as u64 * 0x1_0000_0000 + read_u32_be(s, at + 4) as u64
}

/// Reads the 32 bytes at `at`.
pub fn read_bytes32(s: &Vec<u8>, at: usize) -> (r: Bytes32)
    requires
        at + 31 <= usize::MAX,
    ensures
        r == bytes32_at(s@, at as int),
{
    Bytes32 {
        w0: read_u64_be(s, at),
        w1: read_u64_be(s, at + 8),
        w2: read_u64_be(s, at + 16),
        w3: read_u64_be(s, at + 24),
    }
}

impl Bytes32 {
    /// The four words, most significant first.
    pub open spec fn words(self) -> (u64, u64, u64, u64) {
        (self.w0, self.w1, self.w2, self.w3)
    }

    /// The value with all four words equal to `w`.
    pub fn splat(w: u64) -> (r: Bytes32)
        ensures
            r == (Bytes32 { w0: w, w1: w, w2: w, w3: w }),
    {
        Bytes32 { w0: w, w1: w, w2: w, w3: w }
    }

    /// Whether all 32 bytes are zero.
    pub fn is_zero(&self) -> (r: bool)
        ensures
            r == (self.words() == (0u64, 0u64, 0u64, 0u64)),
    {
        self.w0 == 0 && self.w1 == 0 && self.w2 == 0 && self.w3 == 0
    }
}

impl View for Bytes32 {
    type V = Bytes32;

    open spec fn view(&self) -> Bytes32 {
        *self
    }
}

impl Key for Bytes32 {
    fn same(&self, other: &Self) -> (r: bool) {
        *self == *other
    }
}

/// A short name, as its characters padded with zeros to 32 bytes.
#[derive(Clone, Copy, Debug, PartialEq, Eq, Structural)]
pub struct Symbol {
    pub text: Bytes32,
}

impl Key for Symbol {
    fn same(&self, other: &Self) -> (r: bool) {
        *self == *other
    }
}

impl Symbol {
    /// The symbol with the given characters.
    pub fn from_bytes(text: &Vec<u8>) -> (r: Symbol)
        requires
            text@.len() <= 32,
        ensures
            r.text == bytes32_at(text@, 0),
    {
        Symbol { text: read_bytes32(text, 0) }
    }
}

/// The address of an account or of a contract.
#[derive(Clone, Copy, Debug, PartialEq, Eq, Structural)]
pub enum Address {
    Account(Bytes32),
    Contract(Bytes32),
}

impl View for Address {
    type V = Address;

    open spec fn view(&self) -> Address {
        *self
    }
}

impl Key for Address {
    fn same(&self, other: &Self) -> (r: bool) {
        *self == *other
    }
}

impl Address {
    /// The 32 bytes that identify the account or contract.
    pub open spec fn id(self) -> Bytes32 {
        match self {
            Address::Account(b) => b,
            Address::Contract(b) => b,
        }
    }
}

/// One side of a token transfer.
#[derive(Clone, Copy, Debug, PartialEq, Eq, Structural)]
pub enum Party {
    /// The contract that runs the call.
    This,
    /// An account or another contract.
    Wallet(Address),
}

/// A token movement that a call owes once its state change stands.
#[derive(Clone, Copy, Debug, PartialEq, Eq, Structural)]
pub struct Transfer {
    pub token: Address,
    pub from: Party,
    pub to: Party,
    pub amount: i128,
}

/// The Keccak-256 digest of `data`, as four big-endian words.
pub uninterp spec fn keccak256_words(data: Seq<u8>) -> (u64, u64, u64, u64);

/// The eight bytes of a word, most significant first.
pub open spec fn word_bytes(w: u64) -> Seq<u8> {
    seq![
        (w / 0x100_0000_0000_0000) as u8,
        (w / 0x1_0000_0000_0000 % 0x100) as u8,
        (w / 0x100_0000_0000 % 0x100) as u8,
        (w / 0x1_0000_0000 % 0x100) as u8,
        (w / 0x100_0000 % 0x100) as u8,
        (w / 0x1_0000 % 0x100) as u8,
        (w / 0x100 % 0x100) as u8,
        (w % 0x100) as u8,
    ]
}

/// The XDR form of the address of an account or contract with the identifying words `id`: the tag
/// of an address value, the kind of address, for an account the kind of its key, and the 32 bytes.
pub open spec fn address_xdr_bytes(contract: bool, id: (u64, u64, u64, u64)) -> Seq<u8> {
    let bytes = word_bytes(id.0) + word_bytes(id.1) + word_bytes(id.2) + word_bytes(id.3);
    if contract {
        seq![0u8, 0u8, 0u8, 18u8, 0u8, 0u8, 0u8, 1u8] + bytes
    } else {
        seq![0u8, 0u8, 0u8, 18u8, 0u8, 0u8, 0u8, 0u8, 0u8, 0u8, 0u8, 0u8] + bytes
    }
}

/// `soroban_sdk::crypto::Crypto::keccak256` on the bytes of `data`. The digest is a function of
/// the bytes alone. The host meters the call: where the budget of the transaction is spent, it
/// aborts the transaction and no digest is returned.
#[verifier::external_body]
pub(crate) fn keccak256(env: &Env, data: &Vec<u8>) -> (r: Bytes32)
    requires
        data@.len() <= u32::MAX,
    ensures
        r.words() == keccak256_words(data@),
{
    let h = env.crypto().keccak256(&Bytes::from_slice(env, data)).to_array();
    Bytes32 {
        w0: u64::from_be_bytes(h[0..8].try_into().unwrap()),
        w1: u64::from_be_bytes(h[8..16].try_into().unwrap()),
        w2: u64::from_be_bytes(h[16..24].try_into().unwrap()),
        w3: u64::from_be_bytes(h[24..32].try_into().unwrap()),
    }
}

/// Appends the eight bytes of a word.
fn push_word(out: &mut Vec<u8>, w: u64)
    ensures
        final(out)@ == old(out)@ + word_bytes(w),
{
    out.push((w / 0x100_0000_0000_0000) as u8);
    out.push((w / 0x1_0000_0000_0000 % 0x100) as u8);
    out.push((w / 0x100_0000_0000 % 0x100) as u8);
    out.push((w / 0x1_0000_0000 % 0x100) as u8);
    out.push((w / 0x100_0000 % 0x100) as u8);
    out.push((w / 0x1_0000 % 0x100) as u8);
    out.push((w / 0x100 % 0x100) as u8);
    out.push((w % 0x100) as u8);
    assert(out@ =~= old(out)@ + word_bytes(w));
}

/// The XDR form of an address.
pub fn address_xdr(a: &Address) -> (r: Vec<u8>)
    ensures
        r@ == address_xdr_bytes(*a is Contract, a.id().words()),
{
    let mut out: Vec<u8> = Vec::new();
    out.push(0);
    out.push(0);
    out.push(0);
    out.push(18);
    out.push(0);
    out.push(0);
    out.push(0);
    let id: Bytes32 = match a {
        Address::Account(b) => {
            out.push(0);
            out.push(0);
            out.push(0);
            out.push(0);
            out.push(0);
            *b
        },
        Address::Contract(b) => {
            out.push(1);
            *b
        },
    };
    let ghost head = out@;
    push_word(&mut out, id.w0);
    push_word(&mut out, id.w1);
    push_word(&mut out, id.w2);
    push_word(&mut out, id.w3);
    proof {
        let tail = word_bytes(id.w0) + word_bytes(id.w1) + word_bytes(id.w2) + word_bytes(id.w3);
        assert(out@ =~= head + tail);
        if *a is Contract {
            assert(head =~= seq![0u8, 0u8, 0u8, 18u8, 0u8, 0u8, 0u8, 1u8]);
        } else {
            assert(head =~= seq![
                0u8,
                0u8,
                0u8,
                18u8,
                0u8,
                0u8,
                0u8,
                0u8,
                0u8,
                0u8,
                0u8,
                0u8,
            ]);
        }
    }
    out
}

/// The Keccak-256 digest of `data`.
pub open spec fn keccak_digest(data: Seq<u8>) -> Bytes32 {
    let w = keccak256_words(data);
    Bytes32 { w0: w.0, w1: w.1, w2: w.2, w3: w.3 }
}

/// The digest by which addresses are compared.
pub open spec fn address_digest(a: Address) -> (u64, u64, u64, u64) {
    keccak256_words(address_xdr_bytes(a is Contract, a.id().words()))
}

/// The digest of the address `a`.
pub fn digest_of_address(env: &Env, a: &Address) -> (r: Bytes32)
    ensures
        r.words() == address_digest(*a),
{
    let xdr = address_xdr(a);
    keccak256(env, &xdr)
}

/// Compares two 32-byte values in full, without stopping at the first difference.
pub fn ct_bytes32_eq(a: &Bytes32, b: &Bytes32) -> (r: bool)
    ensures
        r == (*a == *b),
{
    let (a0, a1, a2, a3): (u64, u64, u64, u64) = (a.w0, a.w1, a.w2, a.w3);
    let (b0, b1, b2, b3): (u64, u64, u64, u64) = (b.w0, b.w1, b.w2, b.w3);
    let diff: u64 = (a0 ^ b0) | (a1 ^ b1) | (a2 ^ b2) | (a3 ^ b3);
    assert((a0 ^ b0) | (a1 ^ b1) | (a2 ^ b2) | (a3 ^ b3) == 0 <==> a0 == b0 && a1 == b1 && a2 == b2
        && a3 == b3) by (bit_vector);
    diff == 0
}

/// Whether the digest of `a` is among those of `list`.
pub open spec fn digest_listed(a: Address, list: Seq<Address>) -> bool {
    exists|i: int| 0 <= i < list.len() && address_digest(#[trigger] list[i]) == address_digest(a)
}

/// The digests of a list of addresses.
pub fn digests_of(env: &Env, list: &Vec<Address>) -> (r: Vec<Bytes32>)
    ensures
        r@.len() == list@.len(),
        forall|i: int|
            0 <= i < list@.len() ==> (#[trigger] r@[i]).words() == address_digest(list@[i]),
{
    let mut out: Vec<Bytes32> = Vec::new();
    let mut i: usize = 0;
    while i < list.len()
        invariant
            i <= list@.len(),
            out@.len() == i,
            forall|j: int|
                0 <= j < i ==> (#[trigger] out@[j]).words() == address_digest(list@[j]),
        decreases list@.len() - i,
    {
        let d = digest_of_address(env, &list[i]);
        out.push(d);
        i += 1;
    }
    out
}

/// Whether a digest is in a list, each one compared in full.
pub fn digest_among(d: &Bytes32, list: &Vec<Bytes32>) -> (r: bool)
    ensures
        r == list@.contains(*d),
{
    let mut i: usize = 0;
    while i < list.len()
        invariant
            i <= list@.len(),
            forall|j: int| 0 <= j < i ==> list@[j] != *d,
        decreases list@.len() - i,
    {
        if ct_bytes32_eq(d, &list[i]) {
            return true;
        }
        i += 1;
    }
    false
}

/// Whether the digest of an address is among those of a list.
pub fn address_listed(env: &Env, a: &Address, list: &Vec<Address>) -> (r: bool)
    ensures
        r == digest_listed(*a, list@),
{
    let d = digest_of_address(env, a);
    let ds = digests_of(env, list);
    let r = digest_among(&d, &ds);
    proof {
        if r {
            let i = choose|i: int| 0 <= i < ds@.len() && ds@[i] == d;
            assert(address_digest(list@[i]) == address_digest(*a));
        }
        if digest_listed(*a, list@) {
            let i = choose|i: int|
                0 <= i < list@.len() && address_digest(#[trigger] list@[i]) == address_digest(*a);
            assert(ds@[i] == d);
        }
    }
    r
}

/// Whether two addresses have the same digest.
pub fn address_eq(env: &Env, a: &Address, b: &Address) -> (r: bool)
    ensures
        r == (address_digest(*a) == address_digest(*b)),
        *a == *b ==> r,
{
    let h1 = digest_of_address(env, a);
    let h2 = digest_of_address(env, b);
    ct_bytes32_eq(&h1, &h2)
}

/// A word is written with its most significant byte first: reading it back gives the word.
#[verifier::rlimit(30)]
pub proof fn words_read_back(w: u64)
    ensures
        word_bytes(w).len() == 8,
        be_u64(word_bytes(w), 0) == w,
        word_bytes(w)[7] == w % 0x100,
        word_bytes(w)[0] == w / 0x100_0000_0000_0000,
{
    let x = w as int;
    let (a, b, c) = (x / 0x100, x / 0x1_0000, x / 0x100_0000);
    let (d, e, f) = (x / 0x1_0000_0000, x / 0x100_0000_0000, x / 0x1_0000_0000_0000);
    let g = x / 0x100_0000_0000_0000;
    assert(b == a / 0x100);
    assert(c == b / 0x100);
    assert(d == c / 0x100);
    assert(e == d / 0x100);
    assert(f == e / 0x100);
    assert(g == f / 0x100);
    assert(0 <= g < 0x100);
    let s = word_bytes(w);
    assert(s[7] == x % 0x100 && s[6] == a % 0x100 && s[5] == b % 0x100 && s[4] == c % 0x100);
    assert(s[3] == d % 0x100 && s[2] == e % 0x100 && s[1] == f % 0x100 && s[0] == g);
    assert(be_u32(s, 4) == s[4] * 0x100_0000 + s[5] * 0x1_0000 + s[6] * 0x100 + s[7]);
    assert(be_u32(s, 0) == s[0] * 0x100_0000 + s[1] * 0x1_0000 + s[2] * 0x100 + s[3]);
    assert(x == d * 0x1_0000_0000 + be_u32(s, 4));
    assert(d == be_u32(s, 0));
}

/// The last of the four bytes counts for itself and each one before it 256 times as much as the next;
/// bytes past the end count for nothing.
pub proof fn numbers_are_big_endian(s: Seq<u8>, at: int)
    requires
        0 <= at,
        at + 4 <= s.len(),
    ensures
        be_u32(s, at) == ((s[at] * 256 + s[at + 1]) * 256 + s[at + 2]) * 256 + s[at + 3],
        be_u32(s, s.len() as int) == 0,
{
}

/// Thirty-two bytes are four words, the most significant first: the bytes of four words, read at their
/// place behind any others, give the four words back.
#[verifier::rlimit(30)]
pub proof fn bytes_read_back(before: Seq<u8>, id: (u64, u64, u64, u64))
    ensures
        bytes32_at(
            before + word_bytes(id.0) + word_bytes(id.1) + word_bytes(id.2) + word_bytes(id.3),
            before.len() as int,
        ).words() == id,
{
    let (a, b, c, d) = (
        word_bytes(id.0),
        word_bytes(id.1),
        word_bytes(id.2),
        word_bytes(id.3),
    );
    let s = before + a + b + c + d;
    let n = before.len() as int;
    lemma_regrouped(before, a, b, c, d);
    lemma_word_len(id.0);
    lemma_word_len(id.1);
    lemma_word_len(id.2);
    lemma_word_in(before, id.0, b + c + d);
    lemma_word_in(before + a, id.1, c + d);
    lemma_word_in(before + a + b, id.2, d);
    lemma_word_in(before + a + b + c, id.3, Seq::empty());
    lemma_four_words(s, n, id);
}

proof fn lemma_regrouped(before: Seq<u8>, a: Seq<u8>, b: Seq<u8>, c: Seq<u8>, d: Seq<u8>)
    ensures
        before + a + b + c + d == before + a + (b + c + d),
        before + a + b + c + d == (before + a) + b + (c + d),
        before + a + b + c + d == before + a + b + c + d + Seq::empty(),
        (before + a).len() == before.len() + a.len(),
        (before + a + b).len() == before.len() + a.len() + b.len(),
        (before + a + b + c).len() == before.len() + a.len() + b.len() + c.len(),
{
    let s = before + a + b + c + d;
    assert(s =~= before + a + (b + c + d));
    assert(s =~= (before + a) + b + (c + d));
    assert(s =~= s + Seq::empty());
}

proof fn lemma_four_words(s: Seq<u8>, at: int, id: (u64, u64, u64, u64))
    requires
        be_u64(s, at) == id.0,
        be_u64(s, at + 8) == id.1,
        be_u64(s, at + 16) == id.2,
        be_u64(s, at + 24) == id.3,
    ensures
        bytes32_at(s, at).words() == id,
{
}

proof fn lemma_word_in(before: Seq<u8>, w: u64, after: Seq<u8>)
    ensures
        be_u64(before + word_bytes(w) + after, before.len() as int) == w,
{
    lemma_word_len(w);
    lemma_part_at(before, word_bytes(w), after);
    lemma_word_at(before + word_bytes(w) + after, before.len() as int, w);
}

proof fn lemma_word_len(w: u64)
    ensures
        word_bytes(w).len() == 8,
{
}

proof fn lemma_part_at(before: Seq<u8>, part: Seq<u8>, after: Seq<u8>)
    requires
        part.len() == 8,
    ensures
        forall|i: int|
            0 <= i < 8 ==> #[trigger] (before + part + after)[before.len() + i] == part[i],
{
}

proof fn lemma_word_at(s: Seq<u8>, at: int, w: u64)
    requires
        0 <= at,
        at + 8 <= s.len(),
        forall|i: int| 0 <= i < 8 ==> #[trigger] s[at + i] == word_bytes(w)[i],
    ensures
        be_u64(s, at) == w,
{
    words_read_back(w);
    let b = word_bytes(w);
    assert(s[at + 0] == b[0] && s[at + 1] == b[1] && s[at + 2] == b[2] && s[at + 3] == b[3]);
    assert(s[at + 4] == b[4] && s[at + 5] == b[5] && s[at + 6] == b[6] && s[at + 7] == b[7]);
    assert(be_u32(s, at) == be_u32(b, 0));
    assert(be_u32(s, at + 4) == be_u32(b, 4));
}

/// Two addresses that are written alike are the same address: the form of an address tells an account
/// from a contract, and holds all 32 bytes.
#[verifier::rlimit(30)]
pub proof fn addresses_are_written_apart(a: Address, b: Address)
    requires
        address_xdr_bytes(a is Contract, a.id().words()) == address_xdr_bytes(
            b is Contract,
            b.id().words(),
        ),
    ensures
        a == b,
{
    let (x, y) = (a.id().words(), b.id().words());
    let (p, q) = (
        seq![0u8, 0u8, 0u8, 18u8, 0u8, 0u8, 0u8, 1u8],
        seq![0u8, 0u8, 0u8, 18u8, 0u8, 0u8, 0u8, 0u8, 0u8, 0u8, 0u8, 0u8],
    );
    let (s, t) = (
        address_xdr_bytes(a is Contract, x),
        address_xdr_bytes(b is Contract, y),
    );
    words_read_back(x.0);
    words_read_back(y.0);
    assert(a is Contract ==> s.len() == 40 && p.len() == 8);
    assert(a is Account ==> s.len() == 44 && q.len() == 12);
    assert(b is Contract ==> t.len() == 40);
    assert(b is Account ==> t.len() == 44);
    let before = if a is Contract {
        p
    } else {
        q
    };
    assert(s =~= before + word_bytes(x.0) + word_bytes(x.1) + word_bytes(x.2) + word_bytes(x.3));
    assert(t =~= before + word_bytes(y.0) + word_bytes(y.1) + word_bytes(y.2) + word_bytes(y.3));
    bytes_read_back(before, x);
    bytes_read_back(before, y);
}

} // verus!
