//! The logic of an initramfs in two parts.
//!
//! The builder packs a kernel's modules and the programs of the boot agent into a cpio
//! image: `newc` writes the archive, `initramfs` keeps its entries, `initramfs_modules`
//! chooses the kernel modules and `depend` finds the shared libraries that a program
//! asks for.
//!
//! The boot agent runs from that image as the first process: `modules` and
//! `module_loader` index the kernel's modules and decide what to insert in which order,
//! `uevent_listener` reads the kernel's messages about devices, `device_handler` decides
//! what to do about each block device, and `boot` hands the machine over to the system
//! on the root device.
//!
//! Nothing here reads a file or makes a system call: where a decision needs something of
//! the machine, the caller brings it, as lines, bytes or probed tags.

pub mod boot;
pub mod config;
pub mod depend;
pub mod device_handler;
pub mod encrypted_device;
pub mod encryption_type;
pub mod error;
pub mod filesystem;
pub mod identifier;
pub mod initramfs;
pub mod initramfs_modules;
pub mod initramfs_type;
pub mod module;
pub mod module_loader;
pub mod modules;
pub mod newc;
pub mod newc_reader;
pub mod path;
pub mod root_device;
pub mod text;
pub mod uevent_listener;
pub mod unlock_type;
