//! Per-process network traffic accounting and bandwidth governance.
//!
//! The library holds the verified core: the IP header parser, the
//! process/port directory, the traffic ledger, the token-bucket rate
//! governor and the firewall-pipe reconciler's rule and pipe bookkeeping.
//! Everything that touches the operating system lives in the application
//! around it and hands plain values in and out.

pub mod capture;
pub mod clock;
pub mod config;
pub mod error;
pub mod icon;
pub mod logic;
pub mod net_table;
pub mod pf_backend;
pub mod process_mapper;
pub mod rate_limiter;
pub mod shared_map;
pub mod text;
pub mod traffic;
