//! Mounts the files of modules over the partitions of a device.
//!
//! A module is a directory with files that are to appear on the device, in place of the device's
//! own or besides them. They are mounted in one of two ways. With bind mounts, each file is bound
//! over the device's file of the same name, and directories that have to change are built anew on
//! a memory file system. With overlays, the directories of all modules are stacked over those of
//! the device by the kernel.
//!
//! The library decides and the host acts. Every public operation returns a [`protocol::Turn`]:
//! either a request for the host to carry out, with the machine that goes on with the reply, or
//! the end. What an operation asks for, and what it returns, is stated as a function of the
//! host's replies.
//!
//! - [`session`] holds the operations from beginning to end.
//! - [`rules`], [`collect`] and [`scan`] find the files of the modules and make a tree of
//!   [`node`]s of them.
//! - [`mount`] says how such a tree is mounted, and [`mounting`] does it.
//! - [`overlay`] says how overlays are mounted and taken back, and [`overlaying`] does it.
//! - [`script`] performs sequences of calls that stop at the first failure.
//! - [`laws`] states what holds of all this as a whole.

pub mod bytes;
pub mod collect;
pub mod laws;
pub mod mount;
pub mod mounting;
pub mod node;
pub mod overlay;
pub mod overlaying;
pub mod protocol;
pub mod rules;
pub mod scan;
pub mod script;
pub mod session;
