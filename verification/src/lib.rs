pub mod adb;
pub mod devices;
pub mod error;
pub mod files;
pub mod inodes;
pub mod local;
pub mod mtp;
pub mod sort;
pub mod text;
pub mod transfer;
pub mod wifi;
