# thunder_wallet

The wallet of a sidechain node and the rules by which the node keeps its peers,
as a library verified with Verus, and the program parts around it.

- `src/wallet.rs`: the seed, the addresses derived from it, the outputs that pay
  them; `src/transaction.rs`: transfers, withdrawals and their authorization;
  `src/coins.rs`: the search for coins and the balance; `src/dests.rs`: the
  destinations of a transfer.
- `src/keys.rs`, `src/index.rs`: keys, signatures and addresses, and the calls
  into the crates that compute them.
- `src/laws.rs`: what holds of a wallet across its operations.
- `src/net/`: addresses of peers, seeds, dialing, redialing, incoming
  connections.
- `src/table.rs`, `src/bytes.rs`, `src/types.rs`: what the others are built of.
- `app/`: databases, name lookup, QUIC endpoints and tasks.
- `tests/`: the library on concrete values.

A value of the library holds what a store holds. The program loads the rows,
calls the library, and stores the rows that changed in the same transaction.
Where a function needs something that only the program can do (to hash an
output, to prove it unspent, to ask an endpoint for a connection), it takes a
function for it, and its contract says which answers lead to which result.
