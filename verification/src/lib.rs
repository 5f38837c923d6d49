//! Verified core of a small web framework and its API code generator.
pub mod json;
pub mod jwt;
pub mod render;
pub mod rest;
pub mod rsctl;
pub mod strmap;
pub mod text;
pub mod utils;
