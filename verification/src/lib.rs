//! A verified core for a local wiki file server: path arithmetic, request
//! validation, directory listings, project layout and web clipping.

pub mod text;
pub mod path;
pub mod config;
pub mod tree;
pub mod files;
pub mod upload;
pub mod clock;
pub mod clip;
pub mod project;
pub mod templates;
pub mod web;
