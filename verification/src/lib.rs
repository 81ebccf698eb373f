//! A multicast DNS reflector: the policy, protocol and bookkeeping logic,
//! with its behaviour stated in contracts.

pub mod text;
pub mod config;
pub mod dns;
pub mod mdns;
pub mod clock;
pub mod rate;
pub mod cache;
pub mod policy;
pub mod reflector;
pub mod network;
pub mod cli;


pub use reflector::Reflector;
