//! Build-system logic of the Ardos image packer: which packages to build
//! and rebuild, the bookkeeping of the commands it runs, what it reads out
//! of `readelf`, and the report on a sysroot's missing shared libraries.

pub mod assemble;
pub mod fs_utils;
pub mod packages;
pub mod prefix_commands;
pub mod readelf;
pub mod sorting;
pub mod sysroot;
pub mod text;
