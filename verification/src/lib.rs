//! Request-matching and route-resolution core for an HTTP/WebSocket mock
//! server: URL-template matching with path-parameter extraction, structural
//! "subset" matching for headers, query and payload data, collection
//! resolution with inheritance and cycle detection, and a controller that
//! caches the active routes and matches incoming requests against them.

#![verifier::loop_isolation(false)]

pub mod config;
pub mod controller;
pub mod expression;
pub mod headers;
pub mod intersect;
pub mod json;
pub mod manager;
pub mod jsontext;
pub mod payload;
pub mod query;
pub mod strmap;
pub mod text;
pub mod types;
pub mod urlmatch;
