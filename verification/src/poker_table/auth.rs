//! Who may run the privileged operations of a table.

use crate::host::{Address, Symbol};
use crate::poker_table::perm;
use crate::poker_table::types::{PokerTableError, TableState};
use vstd::prelude::*;

verus! {

/// Whether a permission is kept to the administrator where no authorization manager is set.
pub open spec fn admin_only(permission: Symbol) -> bool {
    ||| permission == perm::pause_table_name()
    ||| permission == perm::configure_table_name()
    ||| permission == perm::withdraw_rake_name()
    ||| permission == perm::upgrade_contract_name()
    ||| permission == perm::ban_player_name()
    ||| permission == perm::manage_time_bank_name()
}

/// Whether a user has a permission at a table. `manager_says` is the answer of the table's
/// authorization manager, where it has one. Without one, the permissions of the administrator are
/// kept to the administrator and the game hub, and anyone has the others.
pub open spec fn permitted(
    table: TableState,
    user: Address,
    permission: Symbol,
    manager_says: Option<bool>,
) -> bool {
    match manager_says {
        Some(has) => has,
        None => !admin_only(permission) || user == table.admin || user == table.config.game_hub,
    }
}

/// Refuses a user without the permission.
pub fn require_permission(
    table: &TableState,
    user: &Address,
    permission: Symbol,
    manager_says: Option<bool>,
) -> (r: Result<(), PokerTableError>)
    ensures
        r == (if permitted(*table, *user, permission, manager_says) {
            Ok(())
        } else {
            Err(PokerTableError::InsufficientPermission)
        }),
{
    match manager_says {
        Some(has) => if has {
            Ok(())
        } else {
            Err(PokerTableError::InsufficientPermission)
        },
        None => {
            let kept: bool = permission == perm::pause_table() || permission
                == perm::configure_table() || permission == perm::withdraw_rake() || permission
                == perm::upgrade_contract() || permission == perm::ban_player() || permission
                == perm::manage_time_bank();
            if kept && *user != table.admin && *user != table.config.game_hub {
                return Err(PokerTableError::InsufficientPermission);
            }
            Ok(())
        },
    }
}

/// Lets the administrator or the game hub bring an operation before the authorization manager.
/// No number is given out for it here.
pub fn propose_admin_operation(table: &TableState, caller: &Address) -> (r: Result<
    Option<u32>,
    PokerTableError,
>)
    ensures
        r == (if *caller == table.admin || *caller == table.config.game_hub {
            Ok::<Option<u32>, PokerTableError>(None)
        } else {
            Err(PokerTableError::InsufficientPermission)
        }),
{
    if table.admin != *caller && table.config.game_hub != *caller {
        return Err(PokerTableError::InsufficientPermission);
    }
    Ok(None)
}

/// Without a manager, the administrator has every permission.
pub proof fn admin_has_every_permission(table: TableState, permission: Symbol)
    ensures
        permitted(table, table.admin, permission, None),
{
}

/// Where a manager is asked, its answer counts. Without one, a stranger may not pause, configure,
/// upgrade, ban, withdraw the rake or manage time banks, and may do anything else.
pub proof fn strangers_are_kept_out(
    table: TableState,
    user: Address,
    permission: Symbol,
    answer: bool,
)
    ensures
        permitted(table, user, permission, Some(answer)) == answer,
        user != table.admin && user != table.config.game_hub ==> (permitted(
            table,
            user,
            permission,
            None,
        ) <==> permission != perm::pause_table_name() && permission != perm::configure_table_name()
            && permission != perm::withdraw_rake_name() && permission
            != perm::upgrade_contract_name() && permission != perm::ban_player_name() && permission
            != perm::manage_time_bank_name()),
        permitted(table, table.config.game_hub, permission, None),
{
}

} // verus!
