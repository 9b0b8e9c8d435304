pub mod contract;
pub mod models;
