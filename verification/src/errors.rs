//! Error types handed to the library's users.
pub mod external;
