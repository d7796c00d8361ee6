//! A native plugin host: metadata descriptors, the capability contract that
//! every plugin implements, and a registry that maps plugin names to live
//! instances while owning the module handles they were manufactured from.

pub mod plugin;
pub mod registry;
pub mod scan;
