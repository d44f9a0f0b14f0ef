pub mod engine;
pub mod text;
pub mod http;
pub mod request;
pub mod stats;
pub mod base64;
pub mod sweep;
pub mod cli;
pub mod report;
pub mod server;
pub mod refcurve;
