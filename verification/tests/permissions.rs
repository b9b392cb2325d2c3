use std::borrow::Cow;

use permkit::check::CombinedStep;
use permkit::derive_plan::{
    plan_permission_enum, variant_name, AttrProblem, DeriveError, EnumInput, MetaItem, MetaValue,
    VariantInfo, VariantInput,
};
use permkit::guard_plan::{
    ensure_typed_arg, guard_step, parse_args, plan_guard, ContextParam, ContextSource, DeniedError,
    FnParam, GuardArg, GuardArgsError, GuardStep, DEFAULT_CONTEXT_NAME, DEFAULT_CONTEXT_TYPE,
    DEFAULT_CONTEXT_TYPE_LAST,
};
use permkit::{
    all_permission_names, all_permissions, permission_pattern_matches, And,
    EffectivePermissions, Or, PermissionCheckError, PermissionDenied, PermissionEffect,
    PermissionEntry, PermissionGrant,
};

fn grant(scope: &str, pattern: &str, effect: PermissionEffect) -> PermissionGrant {
    PermissionGrant {
        scope: scope.to_owned(),
        pattern: pattern.to_owned(),
        effect,
    }
}

fn entry(name: &'static str, enum_name: &'static str, roles: &'static [&'static str]) -> PermissionEntry {
    PermissionEntry {
        name: Cow::Borrowed(name),
        enum_name,
        roles,
    }
}

fn item(key: &str, value: MetaValue) -> MetaItem {
    MetaItem::Entry {
        key: key.to_owned(),
        value,
    }
}

fn string_array(values: &[&str]) -> MetaValue {
    MetaValue::Array(values.iter().map(|v| Some(v.to_string())).collect())
}

fn unit_variant(ident: &str, items: Vec<MetaItem>) -> VariantInput {
    VariantInput {
        ident: ident.to_owned(),
        is_unit: true,
        has_permission_attr: !items.is_empty(),
        items,
    }
}

fn plan_of(info: &VariantInfo) -> (&str, &str, Vec<&str>) {
    (
        info.ident.as_str(),
        info.name.as_str(),
        info.roles.iter().map(|r| r.as_str()).collect(),
    )
}

// The permissions the guarded request handler checks: `CompanyPermission::List`
// against the context's effective permissions.
fn guarded(context: &EffectivePermissions) -> Result<(), PermissionCheckError> {
    let answer: Result<bool, PermissionCheckError> = Ok(context.allows("Companies.List"));
    match guard_step(answer) {
        GuardStep::Proceed => Ok(()),
        GuardStep::Refuse => Err(PermissionCheckError::permission_denied()),
        GuardStep::Fail(e) => Err(e),
    }
}

#[test]
fn matches_wildcard_patterns() {
    assert!(permission_pattern_matches("*", "Companies.List"));
    assert!(permission_pattern_matches("Companies.*", "Companies.List"));
    assert!(permission_pattern_matches("*.List", "Companies.List"));
    assert!(permission_pattern_matches(
        "Companies.List",
        "Companies.List"
    ));
    assert!(!permission_pattern_matches("Products.*", "Companies.List"));
}

#[test]
fn deny_wins_inside_scope() {
    let permissions = EffectivePermissions::from_grants(vec![
        PermissionGrant {
            scope: "role".to_owned(),
            pattern: "Companies.*".to_owned(),
            effect: PermissionEffect::Allow,
        },
        PermissionGrant {
            scope: "role".to_owned(),
            pattern: "Companies.Delete".to_owned(),
            effect: PermissionEffect::Deny,
        },
    ]);

    assert!(permissions.allows("Companies.List"));
    assert!(!permissions.allows("Companies.Delete"));
}

#[test]
fn inventory_collects_derived_permissions() {
    let registered = vec![
        entry("Companies.List", "CompanyPermission", &["owner", "operator"]),
        entry("Companies.Delete", "CompanyPermission", &["owner"]),
        entry("update:companies", "CompanyActionPermission", &[]),
    ];

    let entries = all_permissions(registered);
    let mut company_permissions: Vec<_> = entries
        .iter()
        .filter(|entry| entry.enum_name == "CompanyPermission")
        .map(|entry| (entry.name.as_ref(), entry.roles))
        .collect();
    company_permissions.sort_unstable_by(|left, right| left.0.cmp(right.0));

    assert_eq!(
        company_permissions,
        vec![
            ("Companies.*", &[][..]),
            ("Companies.Delete", &["owner"][..]),
            ("Companies.List", &["owner", "operator"][..]),
        ]
    );

    let mut action_permissions: Vec<_> = entries
        .iter()
        .filter(|entry| entry.enum_name == "CompanyActionPermission")
        .map(|entry| entry.name.as_ref())
        .collect();
    action_permissions.sort();

    assert_eq!(action_permissions, vec!["update:*", "update:companies"]);
}

#[test]
fn auth_macro_allows_request_when_permission_passes() {
    let context = EffectivePermissions::from_grants(vec![PermissionGrant {
        scope: "role".to_owned(),
        pattern: "Companies.List".to_owned(),
        effect: PermissionEffect::Allow,
    }]);

    assert_eq!(guarded(&context), Ok(()));
}

#[test]
fn auth_macro_denies_request_when_permission_fails() {
    let context = EffectivePermissions::empty();

    assert_eq!(guarded(&context), Err(PermissionCheckError::Forbidden));
}

#[test]
fn inserts_permission_checks_before_handler_body() {
    let args = vec![
        GuardArg::Check("Permission::Read"),
        GuardArg::Assign {
            target: Some("context".to_owned()),
            value: "context",
        },
        GuardArg::Assign {
            target: Some("error".to_owned()),
            value: "Error::Forbidden",
        },
    ];
    let params = vec![FnParam {
        ident: Some("context".to_owned()),
        type_last: Some("Context".to_owned()),
    }];

    let plan = plan_guard(args, &params).expect("failed to expand");

    assert!(matches!(plan.context, ContextSource::Given("context")));
    assert!(matches!(plan.denied, DeniedError::Into("Error::Forbidden")));
    assert_eq!(plan.checks, vec!["Permission::Read"]);
}

#[test]
fn infers_database_context_and_backend_error() {
    let plan = plan_guard(vec![GuardArg::Check("Permission::Read")], &Vec::new())
        .expect("failed to expand");

    assert!(matches!(plan.context, ContextSource::Inserted));
    assert_eq!(DEFAULT_CONTEXT_NAME, "db");
    assert_eq!(DEFAULT_CONTEXT_TYPE, "crate::database::Database");
    assert_eq!(plan.checks, vec!["Permission::Read"]);
    assert!(matches!(plan.denied, DeniedError::PermissionDenied));
}

#[test]
fn expands_basic_enum_with_default_roles() {
    let input = EnumInput {
        is_enum: true,
        items: vec![item("roles", string_array(&["owner", "operator"]))],
        variants: vec![
            unit_variant("List", vec![item("name", MetaValue::Str("Companies.List".to_owned()))]),
            unit_variant(
                "Create",
                vec![
                    item("name", MetaValue::Str("Companies.Create".to_owned())),
                    item("roles", string_array(&["owner"])),
                ],
            ),
        ],
    };

    let plans = plan_permission_enum(&input).expect("should expand");
    let plans: Vec<_> = plans.iter().map(plan_of).collect();

    assert_eq!(
        plans,
        vec![
            ("List", "Companies.List", vec!["owner", "operator"]),
            ("Create", "Companies.Create", vec!["owner"]),
        ]
    );
}

#[test]
fn variant_without_roles_inherits_default() {
    let input = EnumInput {
        is_enum: true,
        items: vec![item("roles", string_array(&["owner"]))],
        variants: vec![unit_variant(
            "Variant",
            vec![item("name", MetaValue::Str("A.B".to_owned()))],
        )],
    };

    let plans = plan_permission_enum(&input).expect("should expand");
    assert_eq!(plans[0].roles, vec!["owner".to_owned()]);
}

#[test]
fn no_default_roles_means_empty_slice() {
    let input = EnumInput {
        is_enum: true,
        items: vec![],
        variants: vec![unit_variant(
            "Variant",
            vec![item("name", MetaValue::Str("A.B".to_owned()))],
        )],
    };

    let plans = plan_permission_enum(&input).expect("should expand");
    assert!(plans[0].roles.is_empty());
}

#[test]
fn rejects_non_enums() {
    let input = EnumInput {
        is_enum: false,
        items: vec![],
        variants: vec![],
    };
    let err = plan_permission_enum(&input).expect_err("should fail");
    assert_eq!(err, DeriveError::NotAnEnum);
    assert!(err.message().contains("can only be derived for enums"));
}

#[test]
fn rejects_non_unit_variants() {
    let input = EnumInput {
        is_enum: true,
        items: vec![],
        variants: vec![VariantInput {
            ident: "Variant".to_owned(),
            is_unit: false,
            has_permission_attr: true,
            items: vec![item("name", MetaValue::Str("A.B".to_owned()))],
        }],
    };
    let err = plan_permission_enum(&input).expect_err("should fail");
    assert_eq!(err, DeriveError::NotUnit { variant: 0 });
    assert!(err.message().contains("unit variants"));
}

#[test]
fn fields_are_checked_before_the_attributes_of_each_variant() {
    // the first variant is fine; the second has fields and a bad key: the
    // fields are reported
    let input = EnumInput {
        is_enum: true,
        items: vec![],
        variants: vec![
            unit_variant("A", vec![item("name", MetaValue::Str("A.a".to_owned()))]),
            VariantInput {
                ident: "B".to_owned(),
                is_unit: false,
                has_permission_attr: true,
                items: vec![item("description", MetaValue::Str("x".to_owned()))],
            },
        ],
    };
    let err = plan_permission_enum(&input).expect_err("should fail");
    assert_eq!(err, DeriveError::NotUnit { variant: 1 });
}

#[test]
fn rejects_missing_name() {
    let input = EnumInput {
        is_enum: true,
        items: vec![],
        variants: vec![unit_variant("Variant", vec![])],
    };
    let err = plan_permission_enum(&input).expect_err("should fail");
    assert!(err.message().contains("permission(name"));
}

#[test]
fn rejects_duplicate_names() {
    let input = EnumInput {
        is_enum: true,
        items: vec![],
        variants: vec![
            unit_variant("X", vec![item("name", MetaValue::Str("A.B".to_owned()))]),
            unit_variant("Y", vec![item("name", MetaValue::Str("A.B".to_owned()))]),
        ],
    };
    let err = plan_permission_enum(&input).expect_err("should fail");
    assert_eq!(err, DeriveError::DuplicateName { variant: 1, previous: 0 });
    assert!(err.message().contains("duplicate permission name"));
    assert_eq!(variant_name(&input.variants[1]), Some("A.B".to_owned()));
}

#[test]
fn rejects_unknown_keys_on_variant() {
    let input = EnumInput {
        is_enum: true,
        items: vec![],
        variants: vec![unit_variant(
            "X",
            vec![
                item("name", MetaValue::Str("A.B".to_owned())),
                item("description", MetaValue::Str("nope".to_owned())),
            ],
        )],
    };
    let err = plan_permission_enum(&input).expect_err("should fail");
    assert_eq!(
        err,
        DeriveError::VariantAttribute {
            variant: 0,
            item: 1,
            problem: AttrProblem::UnsupportedKey,
        }
    );
    assert!(err.message().contains("unsupported"));
}

// Pattern matching.

#[test]
fn pattern_edge_cases() {
    // `*.*` is read as "any domain, action `*`".
    assert!(permission_pattern_matches("*.*", "Companies.*"));
    assert!(!permission_pattern_matches("*.*", "Companies.List"));
    // keys without a dot are covered by `*` alone
    assert!(permission_pattern_matches("*", "update"));
    assert!(!permission_pattern_matches("update", "update"));
    assert!(!permission_pattern_matches("update.*", "update"));
    // patterns without a dot cover nothing else
    assert!(!permission_pattern_matches("Companies", "Companies.List"));
    // the first dot splits
    assert!(permission_pattern_matches("a.*", "a.b.c"));
    assert!(permission_pattern_matches("*.b.c", "a.b.c"));
    assert!(!permission_pattern_matches("*.c", "a.b.c"));
    assert!(permission_pattern_matches("a.b.c", "a.b.c"));
    // empty texts
    assert!(!permission_pattern_matches("", "a.b"));
    assert!(permission_pattern_matches(".", "."));
    assert!(permission_pattern_matches("*", ""));
    // non-ASCII text is compared by characters
    assert!(permission_pattern_matches("Société.*", "Société.Liste"));
    assert!(!permission_pattern_matches("Societe.*", "Société.Liste"));
}

#[test]
fn domain_wildcard_covers_exactly_its_domain() {
    for key in ["Companies.List", "Companies.Delete", "Companies.a.b", "Companies."] {
        assert!(permission_pattern_matches("Companies.*", key));
    }
    for key in ["Products.List", "CompaniesList", "Companie.List", "companies.List"] {
        assert!(!permission_pattern_matches("Companies.*", key));
    }
}

#[test]
fn dotted_key_covers_itself() {
    for key in ["Companies.List", "a.b", ".x", "x.", "a.b.c"] {
        assert!(permission_pattern_matches(key, key));
    }
}

// Grant evaluation.

#[test]
fn empty_permissions_allow_nothing() {
    let permissions = EffectivePermissions::empty();
    assert!(!permissions.allows("Companies.List"));
    assert!(!permissions.allows("*"));
    let default_permissions: EffectivePermissions = Default::default();
    assert!(!default_permissions.allows("Companies.List"));
    assert!(!EffectivePermissions::from_grants(vec![]).allows("Companies.List"));
}

#[test]
fn deny_in_one_scope_does_not_block_another_scope() {
    let permissions = EffectivePermissions::from_grants(vec![
        grant("role:operator", "Companies.*", PermissionEffect::Allow),
        grant("role:operator", "Companies.Delete", PermissionEffect::Deny),
        grant("role:owner", "Companies.Delete", PermissionEffect::Allow),
    ]);
    assert!(permissions.allows("Companies.Delete"));
    assert!(permissions.allows("Companies.List"));
    assert!(!permissions.allows("Products.List"));
}

#[test]
fn deny_wins_whatever_the_order() {
    let permissions = EffectivePermissions::from_grants(vec![
        grant("role", "Companies.Delete", PermissionEffect::Deny),
        grant("a", "Other.Thing", PermissionEffect::Allow),
        grant("role", "*", PermissionEffect::Allow),
    ]);
    assert!(!permissions.allows("Companies.Delete"));
    assert!(permissions.allows("Companies.List"));
    assert!(permissions.allows("Other.Thing"));
    assert!(permissions.allows("anything"));
}

#[test]
fn deny_alone_allows_nothing() {
    let permissions = EffectivePermissions::from_grants(vec![grant(
        "role",
        "*",
        PermissionEffect::Deny,
    )]);
    assert!(!permissions.allows("Companies.List"));
}

#[test]
fn grants_group_by_scope_across_many_scopes() {
    let mut grants = Vec::new();
    for i in 0..20 {
        let scope = format!("scope{}", i % 5);
        let effect = if i % 7 == 0 {
            PermissionEffect::Deny
        } else {
            PermissionEffect::Allow
        };
        grants.push(PermissionGrant {
            scope,
            pattern: format!("Domain{}.Action", i),
            effect,
        });
    }
    let permissions = EffectivePermissions::from_grants(grants);
    for i in 0..20 {
        let key = format!("Domain{}.Action", i);
        assert_eq!(permissions.allows(&key), i % 7 != 0, "{}", key);
    }
    let cloned = permissions.clone();
    for i in 0..20 {
        let key = format!("Domain{}.Action", i);
        assert_eq!(cloned.allows(&key), permissions.allows(&key));
    }
}

// The registry.

#[test]
fn wildcards_follow_the_registered_entries() {
    let registered = vec![
        entry("B.x", "E1", &["r"]),
        entry("A.y", "E1", &[]),
        entry("B.z", "E2", &["q"]),
        entry("plain", "E2", &["q"]),
        entry("k:v", "E3", &[]),
        entry("a:b.c", "E4", &[]),
        entry("a:d", "E4", &[]),
    ];
    let all = all_permissions(registered);
    let listed: Vec<_> = all
        .iter()
        .map(|e| (e.name.as_ref(), e.enum_name, e.roles.len()))
        .collect();
    assert_eq!(
        listed,
        vec![
            ("B.x", "E1", 1),
            ("A.y", "E1", 0),
            ("B.z", "E2", 1),
            ("plain", "E2", 1),
            ("k:v", "E3", 0),
            ("a:b.c", "E4", 0),
            ("a:d", "E4", 0),
            ("B.*", "E1", 0),
            ("A.*", "E1", 0),
            ("k:*", "E3", 0),
            ("a:b.*", "E4", 0),
            ("a:*", "E4", 0),
        ]
    );
    let entry_clone = all[0].clone();
    assert_eq!(entry_clone.name.as_ref(), "B.x");
    assert_eq!(entry_clone.roles, &["r"][..]);
}

#[test]
fn no_entries_no_wildcards() {
    assert!(all_permissions(Vec::new()).is_empty());
    assert!(all_permission_names(Vec::new()).is_empty());
}

#[test]
fn permission_names_are_sorted_and_unique() {
    let registered = vec![
        entry("Zeta.b", "E", &[]),
        entry("Alpha.b", "E", &[]),
        entry("Zeta.a", "E", &[]),
        entry("Alpha.b", "F", &[]),
        entry("alpha.c", "E", &[]),
        entry("Émile.x", "E", &[]),
    ];
    let names = all_permission_names(registered);
    let names: Vec<&str> = names.iter().map(|n| n.as_ref()).collect();
    assert_eq!(
        names,
        vec![
            "Alpha.*", "Alpha.b", "Zeta.*", "Zeta.a", "Zeta.b", "alpha.*", "alpha.c", "Émile.*",
            "Émile.x"
        ]
    );
    let owned = all_permission_names(vec![PermissionEntry {
        name: Cow::Owned("Owned.Name".to_owned()),
        enum_name: "E",
        roles: &[],
    }]);
    assert_eq!(owned, vec![Cow::Borrowed("Owned.*"), Cow::Borrowed("Owned.Name")]);
}

// Combined checks and the guard.

#[test]
fn and_or_decide_after_the_left_check() {
    let _and = And::new("left", "right");
    assert_eq!(*_and.left(), "left");
    assert_eq!(*_and.right(), "right");
    let or = Or::new(1, 2);
    assert_eq!((*or.left(), *or.right()), (1, 2));

    assert!(matches!(
        And::<(), ()>::after_left::<PermissionCheckError>(Ok(true)),
        CombinedStep::AskRight
    ));
    assert!(matches!(
        And::<(), ()>::after_left::<PermissionCheckError>(Ok(false)),
        CombinedStep::Decided(Ok(false))
    ));
    assert!(matches!(
        And::<(), ()>::after_left(Err(PermissionCheckError::Forbidden)),
        CombinedStep::Decided(Err(PermissionCheckError::Forbidden))
    ));
    assert!(matches!(
        Or::<(), ()>::after_left::<PermissionCheckError>(Ok(true)),
        CombinedStep::Decided(Ok(true))
    ));
    assert!(matches!(
        Or::<(), ()>::after_left::<PermissionCheckError>(Ok(false)),
        CombinedStep::AskRight
    ));
    assert!(matches!(
        Or::<(), ()>::after_left(Err(PermissionCheckError::Forbidden)),
        CombinedStep::Decided(Err(PermissionCheckError::Forbidden))
    ));
}

#[test]
fn guard_steps() {
    assert!(matches!(guard_step::<u8>(Ok(true)), GuardStep::Proceed));
    assert!(matches!(guard_step::<u8>(Ok(false)), GuardStep::Refuse));
    assert!(matches!(guard_step::<u8>(Err(7)), GuardStep::Fail(7)));
}

#[test]
fn guard_args_errors() {
    let duplicate_context = vec![
        GuardArg::Assign {
            target: Some("context".to_owned()),
            value: 1,
        },
        GuardArg::Check(2),
        GuardArg::Assign {
            target: Some("context".to_owned()),
            value: 3,
        },
    ];
    let err = parse_args(duplicate_context).expect_err("should fail");
    assert_eq!(err, GuardArgsError::DuplicateContext { index: 2 });
    assert_eq!(err.message(), "duplicate `context = ...`");

    let duplicate_error = vec![
        GuardArg::Assign {
            target: Some("error".to_owned()),
            value: 1,
        },
        GuardArg::Assign {
            target: Some("error".to_owned()),
            value: 2,
        },
    ];
    let err = parse_args(duplicate_error).expect_err("should fail");
    assert_eq!(err, GuardArgsError::DuplicateError { index: 1 });
    assert_eq!(err.message(), "duplicate `error = ...`");

    let unsupported = vec![
        GuardArg::Check(1),
        GuardArg::Assign {
            target: Some("ctx".to_owned()),
            value: 2,
        },
    ];
    let err = parse_args(unsupported).expect_err("should fail");
    assert_eq!(err, GuardArgsError::UnsupportedAssignment { index: 1 });
    assert!(err.message().contains("unsupported assignment"));

    let path_target = vec![GuardArg::Assign {
        target: None,
        value: 2,
    }];
    assert_eq!(
        parse_args(path_target).expect_err("should fail"),
        GuardArgsError::UnsupportedAssignment { index: 0 }
    );
}

#[test]
fn guard_args_keep_checks_in_order() {
    let args = vec![
        GuardArg::Check(1),
        GuardArg::Assign {
            target: Some("error".to_owned()),
            value: 10,
        },
        GuardArg::Check(2),
        GuardArg::Check(3),
    ];
    let sorted = parse_args(args).expect("should parse");
    assert_eq!(sorted.permissions, vec![1, 2, 3]);
    assert_eq!(sorted.error, Some(10));
    assert_eq!(sorted.context, None);
}

#[test]
fn context_parameter_is_found_by_type() {
    let params = vec![
        FnParam {
            ident: None,
            type_last: Some("Database".to_owned()),
        },
        FnParam {
            ident: Some("state".to_owned()),
            type_last: Some("State".to_owned()),
        },
        FnParam {
            ident: Some("pool".to_owned()),
            type_last: Some("Database".to_owned()),
        },
        FnParam {
            ident: Some("other".to_owned()),
            type_last: Some("Database".to_owned()),
        },
    ];
    assert_eq!(
        ensure_typed_arg(&params, DEFAULT_CONTEXT_TYPE_LAST),
        ContextParam::Existing { index: 2 }
    );
    assert_eq!(
        ensure_typed_arg(&params, "Missing"),
        ContextParam::Inserted
    );
    let plan = plan_guard(vec![GuardArg::Check(())], &params).expect("should plan");
    assert!(matches!(plan.context, ContextSource::Param { index: 2 }));
}

// Derive errors.

#[test]
fn derive_enum_attribute_errors() {
    let with_items = |items: Vec<MetaItem>| EnumInput {
        is_enum: true,
        items,
        variants: vec![unit_variant("V", vec![item("name", MetaValue::Str("A.B".to_owned()))])],
    };

    let err = plan_permission_enum(&with_items(vec![item("name", MetaValue::Str("x".to_owned()))]))
        .expect_err("should fail");
    assert_eq!(
        err,
        DeriveError::EnumAttribute {
            item: 0,
            problem: AttrProblem::UnsupportedKey,
        }
    );
    assert!(err.message().contains("key on enum"));

    let err = plan_permission_enum(&with_items(vec![item("roles", MetaValue::Str("owner".to_owned()))]))
        .expect_err("should fail");
    assert_eq!(
        err,
        DeriveError::EnumAttribute {
            item: 0,
            problem: AttrProblem::ExpectedStringArray,
        }
    );
    assert!(err.message().contains("expected a string array"));

    let err = plan_permission_enum(&with_items(vec![
        item("roles", string_array(&["a"])),
        item(
            "roles",
            MetaValue::Array(vec![Some("a".to_owned()), None, None]),
        ),
    ]))
    .expect_err("should fail");
    assert_eq!(
        err,
        DeriveError::EnumAttribute {
            item: 1,
            problem: AttrProblem::ExpectedStringInArray { element: 1 },
        }
    );
    assert!(err.message().contains("inside the role array"));

    let err = plan_permission_enum(&with_items(vec![MetaItem::Malformed])).expect_err("should fail");
    assert_eq!(
        err,
        DeriveError::EnumAttribute {
            item: 0,
            problem: AttrProblem::Malformed,
        }
    );

    let err = plan_permission_enum(&with_items(vec![item("roles", MetaValue::Missing)]))
        .expect_err("should fail");
    assert_eq!(
        err,
        DeriveError::EnumAttribute {
            item: 0,
            problem: AttrProblem::MissingValue,
        }
    );
    assert_eq!(err.message(), "expected `=`");
}

#[test]
fn derive_variant_errors_and_overrides() {
    let enum_with = |variants: Vec<VariantInput>| EnumInput {
        is_enum: true,
        items: vec![item("roles", string_array(&["d"]))],
        variants,
    };

    // the last `name` and the last `roles` win
    let plans = plan_permission_enum(&enum_with(vec![unit_variant(
        "V",
        vec![
            item("name", MetaValue::Str("first".to_owned())),
            item("roles", string_array(&["x"])),
            item("name", MetaValue::Str("second".to_owned())),
            item("roles", string_array(&[])),
        ],
    )]))
    .expect("should plan");
    assert_eq!(plan_of(&plans[0]), ("V", "second", vec![]));

    let err = plan_permission_enum(&enum_with(vec![unit_variant(
        "V",
        vec![item("name", MetaValue::Other)],
    )]))
    .expect_err("should fail");
    assert_eq!(
        err,
        DeriveError::VariantAttribute {
            variant: 0,
            item: 0,
            problem: AttrProblem::ExpectedStringLiteral,
        }
    );

    let err = plan_permission_enum(&enum_with(vec![VariantInput {
        ident: "V".to_owned(),
        is_unit: true,
        has_permission_attr: true,
        items: vec![item("roles", string_array(&["x"]))],
    }]))
    .expect_err("should fail");
    assert_eq!(
        err,
        DeriveError::MissingName {
            variant: 0,
            saw_permission_attr: true,
        }
    );
    assert!(err.message().contains("missing `name"));

    // the first failing variant decides, in order
    let err = plan_permission_enum(&enum_with(vec![
        unit_variant("A", vec![item("name", MetaValue::Str("a".to_owned()))]),
        unit_variant("B", vec![]),
        VariantInput {
            ident: "C".to_owned(),
            is_unit: false,
            has_permission_attr: false,
            items: vec![],
        },
    ]))
    .expect_err("should fail");
    assert_eq!(
        err,
        DeriveError::MissingName {
            variant: 1,
            saw_permission_attr: false,
        }
    );
    assert!(err.message().contains("on variant"));
}

#[test]
fn permission_denied_is_forbidden() {
    assert_eq!(
        PermissionCheckError::permission_denied(),
        PermissionCheckError::Forbidden
    );
}

// Runs a guarded handler as the guard plans it: every planned check in order,
// each answered by the context's permissions, until one does not pass.
fn run_guarded(
    args: Vec<GuardArg<&'static str>>,
    params: &Vec<FnParam>,
    context: &EffectivePermissions,
) -> Result<(), PermissionCheckError> {
    let plan = plan_guard(args, params).expect("the guard accepts its arguments");
    assert!(matches!(plan.context, ContextSource::Given("context")));
    for permission in plan.checks {
        let answer: Result<bool, PermissionCheckError> = Ok(context.allows(permission));
        match guard_step(answer) {
            GuardStep::Proceed => {}
            GuardStep::Refuse => {
                return Err(match plan.denied {
                    DeniedError::PermissionDenied => PermissionCheckError::permission_denied(),
                    DeniedError::Into(_) => PermissionCheckError::Forbidden,
                })
            }
            GuardStep::Fail(error) => return Err(error),
        }
    }
    Ok(())
}

#[test]
fn guard_plan_runs_each_check_before_the_body() {
    let args = || {
        vec![
            GuardArg::Check("Companies.List"),
            GuardArg::Check("Companies.Delete"),
            GuardArg::Assign {
                target: Some("context".to_owned()),
                value: "context",
            },
        ]
    };
    let params = vec![FnParam {
        ident: Some("context".to_owned()),
        type_last: Some("Context".to_owned()),
    }];

    let both = EffectivePermissions::from_grants(vec![grant(
        "role",
        "Companies.*",
        PermissionEffect::Allow,
    )]);
    assert_eq!(run_guarded(args(), &params, &both), Ok(()));

    let list_only = EffectivePermissions::from_grants(vec![
        grant("role", "Companies.*", PermissionEffect::Allow),
        grant("role", "Companies.Delete", PermissionEffect::Deny),
    ]);
    assert_eq!(
        run_guarded(args(), &params, &list_only),
        Err(PermissionCheckError::Forbidden)
    );

    assert_eq!(
        run_guarded(args(), &params, &EffectivePermissions::empty()),
        Err(PermissionCheckError::Forbidden)
    );
}
