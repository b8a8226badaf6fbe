//! Dynamic configuration values, resolved in two phases.
//!
//! 1. At startup, `${env.NAME}` references are replaced by environment
//!    variables: [`resolve_env_in_string`].
//! 2. Per request, the other `${...}` markers are evaluated as CEL against
//!    the variables of the request: [`DynamicValue`] and [`ExprContext`].
//!
//! Text without a `${` marker passes through as it is. Variables are written
//! bare inside the markers (`${arguments.x}`, not `${$arguments.x}`).
//!
//! | Variable | Type | Contents |
//! |---|---|---|
//! | `arguments`, `args` | map | tool call arguments |
//! | `tool_name` | string | the tool being called |
//! | `context` | map | the fields of [`ExprRequestContext`] |
//! | `trust_level`, `principal_id`, `auth_provider` | string | the fields of `context` of that name |
//! | `identity_kind` | string | `context.transport` |
//! | `steps` | map | results of earlier steps, while a pipeline runs |
//! | `env` | map | environment variables taken at startup |
//!
//! Credentials are no variables. A template refers to one by
//! `${cred://issuer/target}`; the caller supplies its value through the
//! callback of [`DynamicValue::resolve_with_credentials`].
pub mod context;
pub mod convert;
pub mod double;
pub mod dynamic;
pub mod dynamic_laws;
pub mod engine;
pub mod entries;
pub mod env;
pub mod env_laws;
pub mod error;
pub mod header;
pub mod json;
pub mod template;
pub mod template_laws;
pub mod text;
pub mod value;

pub use crate::context::{ExprContext, ExprRequestContext};
pub use crate::convert::{cel_value_to_json, cel_value_to_string, json_to_cel};
pub use crate::dynamic::{CompositeSegment, DynamicValue};
pub use crate::env::{env_references, resolve_env_in_string};
pub use crate::error::ExprError;
pub use crate::header::{validate_header_name, validate_header_value};
pub use crate::template::interpolation_to_cel;
pub use crate::value::{CelKey, CelValue, JsonNumber, JsonValue};
