//! Go on an arbitrary graph.
//!
//! A [`engine::Board`] is an undirected graph of points. A
//! [`engine::Position`] colors its points and keeps them parted into groups:
//! chains of stones and bubbles of empty points. Playing a stone joins and
//! splits groups and takes chains without liberties off the board. A
//! [`gametree::GameTree`] is a game with branching paths, which refuses a
//! position that its line of play has seen, and [`solve::solve`] searches
//! the turns from a node of it.
//!
//! The contracts are stated over same-colored connectivity, which the
//! module [`region`] defines together with the rules of capture and of
//! life. The modules [`boards`], [`shape`], [`compact`] and [`json`] make
//! boards and read and write games.

pub mod engine;
pub mod region;
pub mod gametree;
pub mod solve;
pub mod compact;
pub mod boards;
pub mod json;
pub mod shape;
