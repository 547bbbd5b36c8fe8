//! Price-fetch and offchain-callback pallets, modelled as verified state
//! machines: the on-chain storage, the dispatchable calls, the unsigned
//! transaction validation and the decisions of the offchain workers.

pub mod encode;
pub mod linked_map;
pub mod dispatch;
pub mod json;
pub mod price_fetch;
pub mod offchain_cb;
