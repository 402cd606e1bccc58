//! Bulk DNS resolution: the line filter, the outcome classifier and the
//! bounded, order-aware dispatcher of a resolver pipeline.
pub mod text;
pub mod classify;
pub mod resolve_error;
pub mod line_source;
pub mod dispatch;
