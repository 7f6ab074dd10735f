//! The radio devices that the panel knows.
pub mod device;
pub mod persistence;
pub mod store;

pub use device::{DeviceType, RfDevice};
pub use store::DeviceStore;
