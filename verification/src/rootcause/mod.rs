pub mod analysis;
pub mod network;
pub mod types;
pub mod replay;
pub mod comparison;
