# swap_wallet

A wallet for a sidechain whose coins can be swapped against a parent chain, verified with
Verus.

- `src/` is the library. `types`, `amount`, `bytes` and `table` hold the values; `encoding`
  and `hashing` say what bytes a transaction is and how it is hashed; `keys` and
  `authorization` make and verify signatures; `accumulator` is the set of unspent outputs;
  `derivation` says where the wallet's keys stand; `wallet` keeps addresses and coins, and
  makes and signs transactions. `wallet/laws.rs` states what holds of the wallet as a whole,
  and `wallet/calls.rs` what holds however it is used.
- What comes from other crates stands behind small functions whose names begin with `call_`
  or `borsh_`. Their contracts are believed, not proved, and say what is claimed of the call.
- `app/` is the wallet on disk: storage, key derivation, and the formats that other programs
  read.
- `tests/` runs the library.
