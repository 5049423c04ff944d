//! A 5v5 matchmaking engine: a pool of waiting players ordered by rating,
//! time-based widening of each player's rating window, and team balancing.

pub mod balance;
pub mod clock;
pub mod ids;
pub mod metrics;
pub mod models;
pub mod pool;
pub mod queue;
pub mod worker;
