//! Planning and submission helpers for sealing hashes with a Cryptowerk-style
//! bulk registration service.
pub mod batcher;
pub mod candidates;
pub mod config;
pub mod cryptowerk_client;
pub mod db;
pub mod sorting;
pub mod text;
