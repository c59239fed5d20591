//! The decision logic of a concurrent TCP port scanner: how a command line
//! is understood, how the port space is divided among workers, what each
//! worker does next, and what a scan as a whole reports.
//!
//! Nothing here opens a socket or starts a thread. A caller performs the
//! actions that the workers ask for and hands the outcomes back.

pub mod address;
pub mod arguments;
pub mod decimal;
pub mod output;
pub mod scan;
pub mod stride;
pub mod worker;
