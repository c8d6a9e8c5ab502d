//! Currencies other than the table's own in which a player can buy in.

use crate::assoc::{AssocMap, Key};
use crate::host::Address;
use crate::poker_table::types::PokerTableError;
use vstd::prelude::*;

verus! {

/// A currency that a table accepts.
#[derive(Clone, Copy, Debug, PartialEq, Eq, Structural)]
pub struct CurrencyInfo {
    pub token_address: Address,
    pub enabled: bool,
    pub oracle_address: Address,
}

impl View for CurrencyInfo {
    type V = CurrencyInfo;

    open spec fn view(&self) -> CurrencyInfo {
        *self
    }
}

/// A currency at a table.
#[derive(Clone, Copy, Debug, PartialEq, Eq, Structural)]
pub struct CurrencyKey {
    pub table_id: u32,
    pub token: Address,
}

impl Key for CurrencyKey {
    fn same(&self, other: &Self) -> (r: bool) {
        *self == *other
    }
}

/// Whether a currency is accepted at a table.
pub open spec fn accepted(book: Map<CurrencyKey, CurrencyInfo>, table_id: u32, token: Address) -> bool {
    let k = CurrencyKey { table_id, token };
    book.contains_key(k) && book[k].enabled
}

/// The currencies of all tables.
pub struct CurrencyBook {
    currencies: AssocMap<CurrencyKey, CurrencyInfo>,
}

impl View for CurrencyBook {
    type V = Map<CurrencyKey, CurrencyInfo>;

    closed spec fn view(&self) -> Map<CurrencyKey, CurrencyInfo> {
        self.currencies@
    }
}

/// What an oracle says of a currency: `per` units of it are worth `base` units of the table's own.
#[derive(Clone, Copy, Debug, PartialEq, Eq, Structural)]
pub struct Rate {
    pub base: i128,
    pub per: i128,
}

/// Whether an amount can be converted at a rate.
pub open spec fn converts(amount: i128, rate: Rate) -> bool {
    &&& amount >= 0
    &&& rate.base >= 0
    &&& rate.per > 0
    &&& amount * rate.base <= i128::MAX
}

/// What an amount is worth at a rate, rounded down.
pub open spec fn worth(amount: i128, rate: Rate) -> int {
    amount * rate.base / rate.per as int
}

impl CurrencyBook {
    /// No other currencies.
    pub fn new() -> (r: Self)
        ensures
            r@ == Map::<CurrencyKey, CurrencyInfo>::empty(),
    {
        CurrencyBook { currencies: AssocMap::new() }
    }

    /// Accepts a currency at a table.
    pub fn whitelist_currency(&mut self, table_id: u32, token: Address, oracle: Address)
        ensures
            final(self)@ == old(self)@.insert(
                CurrencyKey { table_id, token },
                CurrencyInfo { token_address: token, enabled: true, oracle_address: oracle },
            ),
    {
        self.currencies.insert(
            CurrencyKey { table_id, token },
            CurrencyInfo { token_address: token, enabled: true, oracle_address: oracle },
        );
    }

    /// Accepts a currency at the first table.
    pub fn whitelist_currency_legacy(&mut self, token: Address, oracle: Address)
        ensures
            final(self)@ == old(self)@.insert(
                CurrencyKey { table_id: 0, token },
                CurrencyInfo { token_address: token, enabled: true, oracle_address: oracle },
            ),
    {
        self.whitelist_currency(0, token, oracle)
    }

    /// No longer accepts a currency at a table.
    pub fn remove_currency(&mut self, table_id: u32, token: &Address)
        ensures
            final(self)@ == old(self)@.remove(CurrencyKey { table_id, token: *token }),
    {
        let _ = self.currencies.remove(&CurrencyKey { table_id, token: *token });
    }

    /// Whether a currency is accepted at a table.
    pub fn is_whitelisted(&self, table_id: u32, token: &Address) -> (r: bool)
        ensures
            r == accepted(self@, table_id, *token),
    {
        match self.currencies.get(&CurrencyKey { table_id, token: *token }) {
            Some(info) => info.enabled,
            None => false,
        }
    }

    /// Whether a currency is accepted at the first table.
    pub fn is_currency_whitelisted(&self, token: &Address) -> (r: bool)
        ensures
            r == accepted(self@, 0, *token),
    {
        self.is_whitelisted(0, token)
    }

    /// The price oracle of a currency at a table.
    pub fn get_currency_oracle(&self, table_id: u32, token: &Address) -> (r: Option<Address>)
        ensures
            r == (match self@.index_opt(CurrencyKey { table_id, token: *token }) {
                Some(info) => Some(info.oracle_address),
                None => None,
            }),
    {
        match self.currencies.get(&CurrencyKey { table_id, token: *token }) {
            Some(info) => Some(info.oracle_address),
            None => None,
        }
    }

    /// What an amount of an accepted currency is worth in the table's own at the rate of the
    /// currency's oracle.
    pub fn convert_to_base_token(&self, table_id: u32, token: &Address, amount: i128, rate: &Rate) -> (r:
        Result<i128, PokerTableError>)
        ensures
            r == (if accepted(self@, table_id, *token) && converts(amount, *rate) {
                Ok(worth(amount, *rate) as i128)
            } else {
                Err(PokerTableError::InvalidBuyIn)
            }),
    {
        if !self.is_whitelisted(table_id, token) {
            return Err(PokerTableError::InvalidBuyIn);
        }
        if amount < 0 || rate.base < 0 || rate.per <= 0 {
            return Err(PokerTableError::InvalidBuyIn);
        }
        match amount.checked_mul(rate.base) {
            Some(x) => {
                assert(0 <= x) by (nonlinear_arith)
                    requires
                        x == amount * rate.base,
                        amount >= 0,
                        rate.base >= 0,
                ;
                Ok(x / rate.per)
            },
            None => Err(PokerTableError::InvalidBuyIn),
        }
    }

    /// What an amount of a currency is worth at the first table; an amount that cannot be
    /// converted stands for itself.
    pub fn convert_to_xlm(&self, token: &Address, amount: i128, rate: &Rate) -> (r: i128)
        ensures
            r == (if accepted(self@, 0, *token) && converts(amount, *rate) {
                worth(amount, *rate) as i128
            } else {
                amount
            }),
    {
        match self.convert_to_base_token(0, token, amount, rate) {
            Ok(x) => x,
            Err(_) => amount,
        }
    }
}

/// What an amount is worth at a rate, with fractions dropped; more is never worth less, and nothing
/// is worth nothing.
pub proof fn amounts_convert_at_the_rate(amount: i128, more: i128, rate: Rate)
    requires
        converts(amount, rate),
        converts(more, rate),
        amount <= more,
    ensures
        rate.per * worth(amount, rate) <= amount * rate.base < rate.per * (worth(amount, rate) + 1),
        0 <= worth(amount, rate) <= worth(more, rate),
        amount == 0 ==> worth(amount, rate) == 0,
{
    let (x, y, per) = (amount * rate.base, more * rate.base, rate.per as int);
    assert(0 <= x <= y) by (nonlinear_arith)
        requires
            0 <= amount <= more,
            rate.base >= 0,
            x == amount * rate.base,
            y == more * rate.base,
    ;
    let (p, q) = (x / per, y / per);
    assert(per * p <= x < per * (p + 1) && 0 <= p <= q) by (nonlinear_arith)
        requires
            0 <= x <= y,
            per > 0,
            p == x / per,
            q == y / per,
    ;
    assert(amount == 0 ==> p == 0) by (nonlinear_arith)
        requires
            x == amount * rate.base,
            per > 0,
            p == x / per,
    ;
}

/// A currency counts at a table where it is listed for that table and not switched off; an amount
/// converts where it is not negative, the rate is a rate, and the product is a number.
pub proof fn listed_currencies_are_accepted(
    book: Map<CurrencyKey, CurrencyInfo>,
    table_id: u32,
    token: Address,
    amount: i128,
    rate: Rate,
)
    ensures
        accepted(book, table_id, token) <==> book.contains_key(CurrencyKey { table_id, token })
            && book[CurrencyKey { table_id, token }].enabled,
        converts(amount, rate) <==> amount >= 0 && rate.base >= 0 && rate.per >= 1 && amount
            * rate.base <= i128::MAX,
{
}

} // verus!
