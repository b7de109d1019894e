//! A chess engine's rules, proved: position model, evaluation, exchange evaluation,
//! transposition table, time management, network inference, search, opening book, training
//! records and the engine side of the UCI protocol.
use vstd::prelude::*;

pub mod account;
pub mod attacks;
pub mod board;
pub mod book;
pub mod bytes;
pub mod datagen;
pub mod dataset;
pub mod driver;
pub mod eval;
pub mod fen;
pub mod gates;
pub mod history;
pub mod instrument;
pub mod interior;
pub mod nnue;
pub mod notation;
pub mod pesto;
pub mod policy;
pub mod quiesce;
pub mod records;
pub mod reductions;
pub mod rules;
pub mod search;
pub mod see;
pub mod selfplay;
pub mod shared;
pub mod tag;
pub mod text;
pub mod time;
pub mod tt;
pub mod tune;
pub mod uci;
pub mod walk;

verus! {

} // verus!
