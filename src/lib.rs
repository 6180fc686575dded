//! In-memory replica of decentralised-exchange pool state: exact 64.64 fixed-point pricing,
//! constant-product swap simulation, factory discovery, pool filtering and block-ordered
//! application of pool events.

pub mod u256;
pub mod error;
pub mod fixed_point;
pub mod primitives;
pub mod uniswap_v2;
pub mod discovery;
pub mod amm;
pub mod filters;
pub mod state_space;
pub mod backfill;
