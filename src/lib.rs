//! Core of a client-server state replication runtime for fixed-step simulations.
pub mod ack;
pub mod client;
pub mod codec;
pub mod demands;
pub mod error;
pub mod input;
pub mod interest;
pub mod message_sample;
pub mod ordered_map;
pub mod protocol;
pub mod replicate;
pub mod resim;
pub mod session;
pub mod stage;
pub mod tick;
pub mod update;
