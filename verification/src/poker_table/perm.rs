//! The names of the permissions that a table asks for.

use crate::host::{Bytes32, Symbol};
use vstd::prelude::*;

verus! {

/// "CreateTable"
pub open spec fn create_table_name() -> Symbol {
    Symbol { text: Bytes32 { w0: 0x4372_6561_7465_5461, w1: 0x626c_6500_0000_0000, w2: 0, w3: 0 } }
}

/// "PauseTable"
pub open spec fn pause_table_name() -> Symbol {
    Symbol { text: Bytes32 { w0: 0x5061_7573_6554_6162, w1: 0x6c65_0000_0000_0000, w2: 0, w3: 0 } }
}

/// "ConfigureTable"
pub open spec fn configure_table_name() -> Symbol {
    Symbol { text: Bytes32 { w0: 0x436f_6e66_6967_7572, w1: 0x6554_6162_6c65_0000, w2: 0, w3: 0 } }
}

/// "WithdrawRake"
pub open spec fn withdraw_rake_name() -> Symbol {
    Symbol { text: Bytes32 { w0: 0x5769_7468_6472_6177, w1: 0x5261_6b65_0000_0000, w2: 0, w3: 0 } }
}

/// "ManageTimeBank"
pub open spec fn manage_time_bank_name() -> Symbol {
    Symbol { text: Bytes32 { w0: 0x4d61_6e61_6765_5469, w1: 0x6d65_4261_6e6b_0000, w2: 0, w3: 0 } }
}

/// "BanPlayer"
pub open spec fn ban_player_name() -> Symbol {
    Symbol { text: Bytes32 { w0: 0x4261_6e50_6c61_7965, w1: 0x7200_0000_0000_0000, w2: 0, w3: 0 } }
}

/// "UpgradeContract"
pub open spec fn upgrade_contract_name() -> Symbol {
    Symbol { text: Bytes32 { w0: 0x5570_6772_6164_6543, w1: 0x6f6e_7472_6163_7400, w2: 0, w3: 0 } }
}

/// The name of the permission `CreateTable`.
pub fn create_table() -> (r: Symbol)
    ensures
        r == create_table_name(),
{
    Symbol { text: Bytes32 { w0: 0x4372_6561_7465_5461, w1: 0x626c_6500_0000_0000, w2: 0, w3: 0 } }
}

/// The name of the permission `PauseTable`.
pub fn pause_table() -> (r: Symbol)
    ensures
        r == pause_table_name(),
{
    Symbol { text: Bytes32 { w0: 0x5061_7573_6554_6162, w1: 0x6c65_0000_0000_0000, w2: 0, w3: 0 } }
}

/// The name of the permission `ConfigureTable`.
pub fn configure_table() -> (r: Symbol)
    ensures
        r == configure_table_name(),
{
    Symbol { text: Bytes32 { w0: 0x436f_6e66_6967_7572, w1: 0x6554_6162_6c65_0000, w2: 0, w3: 0 } }
}

/// The name of the permission `WithdrawRake`.
pub fn withdraw_rake() -> (r: Symbol)
    ensures
        r == withdraw_rake_name(),
{
    Symbol { text: Bytes32 { w0: 0x5769_7468_6472_6177, w1: 0x5261_6b65_0000_0000, w2: 0, w3: 0 } }
}

/// The name of the permission `ManageTimeBank`.
pub fn manage_time_bank() -> (r: Symbol)
    ensures
        r == manage_time_bank_name(),
{
    Symbol { text: Bytes32 { w0: 0x4d61_6e61_6765_5469, w1: 0x6d65_4261_6e6b_0000, w2: 0, w3: 0 } }
}

/// The name of the permission `BanPlayer`.
pub fn ban_player() -> (r: Symbol)
    ensures
        r == ban_player_name(),
{
    Symbol { text: Bytes32 { w0: 0x4261_6e50_6c61_7965, w1: 0x7200_0000_0000_0000, w2: 0, w3: 0 } }
}

/// The name of the permission `UpgradeContract`.
pub fn upgrade_contract() -> (r: Symbol)
    ensures
        r == upgrade_contract_name(),
{
    Symbol { text: Bytes32 { w0: 0x5570_6772_6164_6543, w1: 0x6f6e_7472_6163_7400, w2: 0, w3: 0 } }
}

} // verus!
