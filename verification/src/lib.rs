//! Verified game and escrow logic of three Soroban contracts: a two-player
//! tic-tac-toe game, a bot that plays it, and a time-locked token escrow.
//! Each contract's rules are state transitions over a plain-value model of
//! the contract's instance storage.

pub mod tictactoe;
pub mod ttt_bot;
pub mod escrow;
