//! The web framework: configuration, routing and request helpers.
pub mod config;
pub mod route;
pub mod routing;
pub mod request;
pub mod middleware;
pub mod route_table;
pub mod params;
pub mod response;
pub mod server;
pub mod engine;
