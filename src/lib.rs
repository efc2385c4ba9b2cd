pub mod block;
pub mod stream;
pub mod adapter;
pub mod store;
pub mod json;
pub mod hash;
pub mod range;
pub mod repair;
