//! Architecture detection: which model the files hold, and the names it is served under.
pub mod laws;
pub mod detect;
pub mod speech;
