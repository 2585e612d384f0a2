//! Replaying and recording robot message streams.

pub mod cdr;
pub mod lockstep;
pub mod order;
pub mod outside;
pub mod pattern;
pub mod record;
pub mod replay;
pub mod schema;
pub mod sink;
pub mod source;
pub mod stamp;
pub mod text;
