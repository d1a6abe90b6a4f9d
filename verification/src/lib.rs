//! Verified core of a BonDriver plugin that receives broadcast streams
//! from a Mirakurun server.
pub mod channels;
pub mod config;
pub mod http;
pub mod json;
pub mod rtti;
pub mod text;
pub mod tuner;
pub mod util;
