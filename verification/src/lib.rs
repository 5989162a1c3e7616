pub mod coins;
pub mod config;
pub mod contract;
pub mod denoms;
pub mod errors;
pub mod fees;
pub mod fold;
pub mod incentive;
pub mod index;
pub mod inflation;
pub mod laws;
pub mod payment;
pub mod query;
pub mod rates;
pub mod state;
pub mod state_machine;
