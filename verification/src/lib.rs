//! Capturing and reading `WordPress` REST API v2 resources.

pub mod archive;
pub mod bytes;
pub mod clock;
pub mod combine;
pub mod comments;
pub mod complete;
pub mod endpoint;
pub mod evidence;
pub mod json;
pub mod lint;
pub mod model;
pub mod notice;
pub mod options;
pub mod query;
pub mod read;
pub mod report;
pub mod resume;
pub mod run;
pub mod segment;
pub mod session;
pub mod text;
pub mod update;
pub mod web;
