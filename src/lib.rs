//! Recovers the user name that an SSH certificate asserts, from the
//! authentication record that an SSH server writes for a session.

pub mod keys;
pub mod lookup;
pub mod ssh_auth;
pub mod wire;
