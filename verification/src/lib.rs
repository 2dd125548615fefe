pub mod msgs;
pub mod slots;
pub mod random;
pub mod generator;
pub mod limits;
pub mod ids;
pub mod data;
pub mod server;
pub mod view;
pub mod client;
pub mod text;
pub mod order;
pub mod store;
pub mod sheets;
pub mod booking;

pub use msgs::{UpMsg, DownMsg};
