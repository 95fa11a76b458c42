//! Firmware boot-variable core: the binary codec for persisted load options
//! and the boot order, the boot manager that indexes them, and the
//! device-identity matcher that rebuilds a loadable device path after a
//! storage driver has been brought up late.

pub mod boot_manager;
pub mod boot_order;
pub mod bytes;
pub mod device_path;
pub mod errors;
pub mod load_option;
pub mod matcher;
