//! A caching stub resolver: the DNS wire codec, the local wire, the resolving
//! engine and its cache.

pub mod octets;
pub mod text;
pub mod msgpack;
pub mod msgpack_laws;
pub mod addr;
pub mod protocol;
pub mod protocol_laws;
pub mod native_layout;
pub mod dns;
pub mod time;
pub mod table;
pub mod cache;
pub mod engine;
pub mod stream;
pub mod stub;
pub mod stub_laws;
pub mod control;
pub mod config;
pub mod rejects;
pub mod upstream;
pub mod snapshot;
pub mod config_laws;
pub mod render;
pub mod service;
pub mod door_laws;
pub mod nss;
pub mod cli;
pub mod probe;
pub mod report_laws;
pub mod model_laws;
