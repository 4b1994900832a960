//! Inventory of block storage devices: records of disks and their
//! partitions, sizes, flags and mount points, and the table that shows them.
//!
//! The library computes on plain values. Its caller reads the device
//! registry and the mount table, hands over what it has read, and prints the
//! rows that come back.
//!
//! - `registry`: what an attribute reads as, which entries of a device are
//!   its partitions, which device type an event listing names;
//! - `mounts`: the mount points that the mount table records for a device;
//! - `device`: the records and how they are assembled;
//! - `size`: sector counts, byte counts and their human-readable form;
//! - `order`: the order of the rows, by device identifier as text;
//! - `report`: the rows of the table;
//! - `text`: whitespace, lines, fields and prefixes.
//!
//! Every function states what it returns over sequences of characters, the
//! model of the strings it takes, and is proved to return just that.

pub mod device;
pub mod mounts;
pub mod order;
pub mod registry;
pub mod report;
pub mod size;
pub mod text;
