//! Device-priority logic of a client for an audio server's device-manager
//! extension: which devices are listed, in what order, how a selection is
//! checked, how pending requests are driven to completion, and how the
//! device table is printed.

pub mod device;
pub mod order;
pub mod driver;
pub mod select;
pub mod table;
