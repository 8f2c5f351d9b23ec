//! What each operation promises, said of the fields of a node and the slots of its log.
//!
//! The laws here speak of what goes in and what comes out, not of the steps by which the
//! model gets there.

pub mod applying;
pub mod calls;
pub mod clients;
pub mod elections;
pub mod followers;
pub mod leaders;
pub mod logs;
pub mod sessions;
pub mod starting;
