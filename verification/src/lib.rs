//! Request-routing decision engine for a pool of inference endpoints.
//!
//! The engine keeps a registry of endpoints with their health and load
//! signals, picks one endpoint for each request with a pure strategy
//! function, and folds response outcomes back into the signals.

pub mod text;

pub mod config;

pub mod endpoint;

pub mod strategy;

pub mod registry;

pub mod signals;

pub mod router;

pub mod lifecycle;

pub mod balancer;
