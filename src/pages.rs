//! The pages of the front-end: their state and how their own messages
//! change it.
pub mod home;
pub mod results;
pub mod settings;
