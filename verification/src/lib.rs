pub mod buf;
pub mod fix;
pub mod journal;
pub mod median;
pub mod platform;
pub mod seglog;
pub mod slot;
pub mod smoothing;
