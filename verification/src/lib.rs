//! Verified core of a multi-protocol flash/EEPROM programmer.
pub mod nor_ops;
pub mod sfdp;
pub mod spi_bus;
pub mod text;
pub mod ch34x;
pub mod firmware;
pub mod frame;
pub mod ch34x_sidecar;
pub mod chipdb;
pub mod progress;
pub mod protocols;
pub mod wire_laws;
pub mod devcore;
pub mod hal_router;
pub mod sidecar_nor;
pub mod operations;
pub mod order;
pub mod unicode;
pub mod imsprog_dat;
pub mod chip_xml;
pub mod plugin;
pub mod toml_model;
pub mod ui;
pub mod upt_log;
pub mod pkg_path;
pub mod unipkg;
pub mod settings;
pub mod autodetect;
pub mod script;
pub mod host;
pub mod json;
pub mod sidecar;
pub mod boot;
pub mod serprog;
pub mod rpc_server;
pub mod ch34x_server;
