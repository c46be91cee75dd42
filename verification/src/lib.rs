//! Deckbound — the cooperative card-combat game's rules core.
//!
//! Combat has one damage channel: untyped **Might** accumulates into a per-phase **pile**, and each
//! time the pile clears the target's **Toughness** one Health card flips face down (`stats`). Stats are
//! read off the **Form** deck (`form`, `decktree`); cards and their effects are data (`cards`); the
//! round resolves on a fixed engagement schedule over one per-round **Tempo** budget (`combat`,
//! `policy`); and the optional four-card **Clash** settles a same-range trade (`duel`).

pub mod stats;
pub mod text;
pub mod duel;
pub mod read;
pub mod actors;
pub mod groups;
pub mod form;
pub mod decktree;
pub mod combinatorics;
pub mod currency;
pub mod cards;
pub mod actor;
pub mod combat;
pub mod effects;
pub mod state;
pub mod policy;
pub mod rules;
pub mod ruleset;
pub mod encounter;
pub mod layout;
pub mod catalog;
pub mod game;
pub mod engagement;
pub mod balance;
