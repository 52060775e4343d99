//! Follow-up tracking for questions tagged `#fu` on X/Twitter: tag parsing,
//! date arithmetic, a JSON codec for tracked tweets, and the service logic.
pub mod text;
pub mod date;
pub mod parser;
pub mod model;
pub mod json;
pub mod store;
pub mod service;
pub mod http;
pub mod cli;
pub mod velo_layout;
