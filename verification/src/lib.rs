//! Decisions behind the notifications about contract events: which events a channel
//! delivers, when it may deliver them, and what its e-mails say.
//!
//! [`content_filter`] decides by the data of an event, which [`path`] selects from
//! [`json`] and compares as [`double`] or as [`text`].
//! [`notification_rate_limit`] decides by the number of notifications in a minute
//! and in an hour. [`notifier`] collects the events of an e-mail channel,
//! [`digest`] sums them up, [`email`] attaches the full list, which [`csv`] shows to
//! read back, and [`message`] puts the e-mail together.

pub mod content_filter;
pub mod csv;
pub mod digest;
pub mod double;
pub mod email;
pub mod event;
pub mod json;
pub mod message;
pub mod notification_rate_limit;
pub mod notifier;
pub mod path;
pub mod text;
