# soroban_contracts

Three Soroban smart contracts whose rules are written in Verus and proved
against their contracts:

- `tictactoe`: a two-player game. `start` opens a game, `play` places a
  mark, `winner` reports the winner. The game's instance storage is modelled
  by `Contract`, whose view `GameView` the contracts speak of; proof
  functions show that every state reached by any calls is consistent
  (turns alternate, the winner is a participant whose mark fills a line),
  that the winner is the mover of the last winning move since the last
  start, and that a win ends the game.
- `ttt_bot`: a bot that plays the game by picking a random empty square,
  gathering the free squares in a host vector (`soroban_sdk::Vec`, behind
  trusted wrappers).
- `escrow`: time-locked token deposits. `EscrowContract` models the instance
  storage as the entries written to it; `deposit` and `withdraw` are proved
  to store, return and remove receipts as the contract states, and proof
  functions show, over any sequence of calls, that a withdrawal gives back
  what was deposited, that each receipt is paid out at most once, and that
  the admin is the last one set.

`src/` is the verified library. `app/` holds the Soroban entry points
(`#[contract]`, `#[contractimpl]`): they read the storage entries a call
needs from the host, run the library, and write the result back; auth,
ledger time and sequence, randomness, token transfers and calls to other
contracts happen there. `tests/` exercises the library.
