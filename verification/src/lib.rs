//! Safe local naming of downloaded objects, transfer bookkeeping and
//! connection-profile / secret-store decisions.

pub mod text;
pub mod sanitize;
pub mod naming;
pub mod paths;
pub mod transfer;
pub mod profile;
