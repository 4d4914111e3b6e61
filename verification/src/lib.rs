//! Tracks the reasoning events of agent session logs and picks the freshest
//! one for a status bar: text rendering, tail reading, session discovery and
//! freshness arbitration, each stated over mathematical models and proved.

pub mod arbitration;
pub mod chars;
pub mod coordinator;
pub mod discovery;
pub mod event;
pub mod json;
pub mod locator;
pub mod paths;
pub mod session;
pub mod tail;
pub mod text;
