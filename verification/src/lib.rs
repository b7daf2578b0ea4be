//! Interactive cryptography exercises: a number-theory engine, challenge
//! generators and verifiers for several classic protocols, a challenge
//! lifecycle manager over a two-tier store, a leaderboard aggregator and a
//! fixed-window rate limiter.

pub mod caesar;
pub mod challenge;
pub mod dh;
pub mod dss;
pub mod fermat;
pub mod leaderboard;
pub mod lifecycle;
pub mod math;
pub mod primes;
pub mod rate;
mod rng;
pub mod rsa;
