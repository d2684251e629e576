//! Verified core of an SSH/terminal front page for a personal website: the
//! data model of the site content, the rate-limited refresh state of the data
//! store, and the logic of the home screen (quote navigation, word wrapping,
//! progress bar layout).

pub mod model;
pub mod wrap;
pub mod store;
pub mod home;
pub mod layout;
