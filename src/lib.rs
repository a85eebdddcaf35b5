//! Simulation core of a multiplayer space server: the orbital hierarchy that
//! a galaxy tick follows, the decisions of a player's per-tick session, lag
//! estimation, the batching of environment updates, and the player id that a
//! client reads on login.
pub mod auth;
pub mod batch;
pub mod lag;
pub mod orbit;
pub mod session;
