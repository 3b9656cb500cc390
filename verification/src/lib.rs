//! A verified request router.
//!
//! A [`Router`] holds resources, scopes and mounted handlers, each with a
//! pattern of paths. [`Router::recognize`] finds the first whose pattern
//! matches a request, and what its parameters stand for.
//! [`ResourceInfo::url_for`] goes the other way, from the name of a resource to
//! a URL. The laws that tie these together are in [`laws`].

pub mod def;
pub mod dispatch;
pub mod error;
pub mod info;
pub mod laws;
pub mod params;
pub mod pattern;
pub mod plain;
pub mod regexes;
pub mod resource;
pub mod router;
pub mod text;
pub mod urls;

pub use crate::def::{ResourceDef, ResourceType};
pub use crate::dispatch::{Action, Known};
pub use crate::error::{PatternError, UrlGenerationError};
pub use crate::info::{ResourceId, ResourceInfo};
pub use crate::params::{ParamItem, Params, Request};
pub use crate::pattern::PatternElement;
pub use crate::resource::{Mount, Predicate, Resource, Route, Scope};
pub use crate::router::Router;
pub use crate::urls::UrlError;
