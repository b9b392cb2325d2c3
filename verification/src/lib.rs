//! Generic permission primitives: permission-name patterns, scoped grant
//! evaluation, the permission registry's listing, the outcomes of combined
//! checks, and the decisions behind the permission derive and the guard
//! attribute.
//!
//! Authentication, tenancy, storage, request context and HTTP errors stay with
//! the application.

mod text;

pub use inventory;
pub use serde;
pub use utoipa;

pub mod check;
pub mod derive_plan;
pub mod grants;
pub mod guard_plan;
pub mod pattern;
pub mod registry;

pub use check::{And, Or, PermissionCheckError, PermissionDenied};
pub use grants::{EffectivePermissions, PermissionEffect, PermissionGrant};
pub use pattern::permission_pattern_matches;
pub use registry::{all_permission_names, all_permissions, PermissionEntry, PermissionName};
