# stellar_poker

The rules of a set of on-chain poker contracts, as a verified library.

- `src/poker_table/` holds the poker tables: seats and the waiting list (`seating`), hands and
  blinds (`game`), betting, timeouts, the showdown's proof, side pots and their winners
  (`settlement`), two runs of a board, straddles, time reserves, bans, currencies, history and
  upgrades. `src/poker_table/contract/` puts them together
  in one state, `PokerTableContract`, with its invariants and laws.
- `src/liquidity_pool.rs`, `src/committee_registry.rs`, `src/protocol_governance.rs`,
  `src/player_rating.rs`, `src/hand_verifier.rs`, `src/jackpot_verifier.rs` and
  `src/auth_manager.rs` are the contracts around the tables.
- `src/host.rs` holds addresses and their XDR form, digests and token transfers, and the only call
  into the ledger's SDK that the library makes: the Keccak-256 digest.

A call that would move tokens returns the transfers that it owes. A call that depends on the
ledger takes the ledger's sequence number or time as an argument. A refused call leaves the state
as it was, except that a proposal which is queued after it lost its vote is marked as defeated.

`app/` runs the contracts on a ledger: it asks for authorization, reads the clock, asks the proof
verifier and pays the transfers.
