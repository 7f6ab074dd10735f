//! Control logic of a home security panel.
pub mod control;
pub mod gsm;
pub mod logger;
pub mod mqtt;
pub mod number;
pub mod nvs;
pub mod rc_devices;
pub mod rf_receiver;
pub mod screens;
pub mod text;
pub mod touch;
pub mod wifi;
