# permkit

Permission primitives with verified contracts.

- `src/pattern.rs` — matching of permission patterns (`*`, `Domain.*`, `*.Action`,
  `Domain.Action`) against permission keys.
- `src/grants.rs` — scoped allow/deny grants (`EffectivePermissions`); deny wins
  over allow within a scope, and any scope may allow.
- `src/registry.rs` — the listing of registered permission entries with one
  synthetic wildcard entry per domain, and the sorted list of their names.
- `src/check.rs` — the default denial error and the decisions of `and` / `or`
  over two checks.
- `src/derive_plan.rs`, `src/guard_plan.rs` — the decisions behind the
  permission-enum derive and the `permissions` guard attribute, on plain values.
- `app/` — the link-time registry (`inventory`), the OpenAPI schema marker
  (`utoipa`), the asynchronous `HasPermission` trait, and the `syn`/`quote` token
  plumbing around the two plans.
