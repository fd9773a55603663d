//! A config-driven API gateway: routing, admission policies, target selection,
//! failure handling and message transforms, all verified.

use vstd::prelude::*;

pub mod cli;
pub mod clock;
pub mod config;
pub mod error;
pub mod headers;
pub mod health;
pub mod json;
pub mod pipeline;
pub mod rate_limit;
pub mod router;
pub mod state;
pub mod text;
pub mod upstream;
pub mod uri;
pub mod wide;
pub mod yaml;

verus! {

} // verus!
