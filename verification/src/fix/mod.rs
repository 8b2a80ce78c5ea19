pub mod codec;
pub mod timestamp;
pub mod session;
pub mod persist;
pub mod ring;
pub mod header;
pub mod transport;
pub mod store;
pub mod dict;
