//! The decisions of the permission-enum derive: which variants it accepts, the
//! name and roles of each, and the first error it reports.
//!
//! The input is the enum as plain values: whether the item is an enum, the
//! items of its `#[permission(...)]` attributes, and for each variant its
//! identifier, whether it has fields, and the items of its own
//! `#[permission(...)]` attributes. Each list of items is the items of all such
//! attributes, in order.

use vstd::prelude::*;

use crate::text::same_text;

verus! {

/// The value of an attribute item `key = value`.
#[derive(Debug, Clone)]
pub enum MetaValue {
    /// No `= value` follows the key.
    Missing,
    /// A string literal.
    Str(String),
    /// An array expression; each element a string literal (`Some`) or
    /// something else (`None`).
    Array(Vec<Option<String>>),
    /// Any other expression.
    Other,
}

/// One item inside `#[permission(...)]`.
#[derive(Debug, Clone)]
pub enum MetaItem {
    Entry { key: String, value: MetaValue },
    /// Tokens that do not form an item.
    Malformed,
}

/// A variant of the enum.
#[derive(Debug, Clone)]
pub struct VariantInput {
    pub ident: String,
    /// The variant has no fields.
    pub is_unit: bool,
    /// The variant carries at least one `#[permission(...)]` attribute.
    pub has_permission_attr: bool,
    pub items: Vec<MetaItem>,
}

/// The item that the derive is applied to.
#[derive(Debug, Clone)]
pub struct EnumInput {
    pub is_enum: bool,
    pub items: Vec<MetaItem>,
    pub variants: Vec<VariantInput>,
}

/// What the derive emits for one variant: its permission name and roles.
#[derive(Debug, Clone)]
pub struct VariantInfo {
    pub ident: String,
    pub name: String,
    pub roles: Vec<String>,
}

/// A variant's plan as plain text: identifier, name, roles.
pub type VariantView = (Seq<char>, Seq<char>, Seq<Seq<char>>);

impl View for VariantInfo {
    type V = VariantView;

    open spec fn view(&self) -> VariantView {
        (self.ident@, self.name@, self.roles@.map_values(|r: String| r@))
    }
}

/// What is wrong with an attribute item.
#[derive(Debug, Clone, Copy, PartialEq, Eq, Structural)]
pub enum AttrProblem {
    /// A key the attribute does not know.
    UnsupportedKey,
    /// `name` or `roles` without `= value`.
    MissingValue,
    /// `name` whose value is not a string literal.
    ExpectedStringLiteral,
    /// `roles` whose value is not an array.
    ExpectedStringArray,
    /// `roles` whose array holds something other than a string literal, at this
    /// position.
    ExpectedStringInArray { element: usize },
    /// Tokens that do not form an item.
    Malformed,
}

/// The first error of the derive.
#[derive(Debug, Clone, Copy, PartialEq, Eq, Structural)]
pub enum DeriveError {
    NotAnEnum,
    EnumAttribute { item: usize, problem: AttrProblem },
    NotUnit { variant: usize },
    VariantAttribute { variant: usize, item: usize, problem: AttrProblem },
    MissingName { variant: usize, saw_permission_attr: bool },
    /// The variant's name was already taken by the variant `previous`.
    DuplicateName { variant: usize, previous: usize },
}

/// The message that reports a problem with an item of the enum's attributes
/// (`on_variant` false) or of a variant's.
pub open spec fn attr_problem_message(p: AttrProblem, on_variant: bool) -> Seq<char> {
    match p {
        AttrProblem::UnsupportedKey => if on_variant {
            "unsupported `#[permission(...)]` key on variant (expected `name = \"..\"` or `roles = [..]`)"@
        } else {
            "unsupported `#[permission(...)]` key on enum (expected `roles = [..]`)"@
        },
        AttrProblem::MissingValue => "expected `=`"@,
        AttrProblem::ExpectedStringLiteral => "expected string literal"@,
        AttrProblem::ExpectedStringArray => "expected a string array like `[\"owner\", \"operator\"]`"@,
        AttrProblem::ExpectedStringInArray { .. } => "expected a string literal inside the role array"@,
        AttrProblem::Malformed => "malformed `#[permission(...)]` attribute"@,
    }
}

/// The message that reports a derive error. For a duplicate name this is the
/// fixed part; the name itself ([`variant_name`]) is left to the caller to add.
pub open spec fn derive_error_message(e: DeriveError) -> Seq<char> {
    match e {
        DeriveError::NotAnEnum => "Permission can only be derived for enums"@,
        DeriveError::EnumAttribute { problem, .. } => attr_problem_message(problem, false),
        DeriveError::NotUnit { .. } => "Permission only supports unit variants (no fields)"@,
        DeriveError::VariantAttribute { problem, .. } => attr_problem_message(problem, true),
        DeriveError::MissingName { saw_permission_attr, .. } => if saw_permission_attr {
            "missing `name = \"..\"` in `#[permission(...)]`"@
        } else {
            "expected `#[permission(name = \"..\")]` on variant"@
        },
        DeriveError::DuplicateName { .. } => "duplicate permission name"@,
    }
}

impl AttrProblem {
    /// The message that reports this problem, on a variant's item or the enum's.
    pub fn message(&self, on_variant: bool) -> (r: &'static str)
        ensures
            r@ == attr_problem_message(*self, on_variant),
    {
        match self {
            AttrProblem::UnsupportedKey => if on_variant {
                "unsupported `#[permission(...)]` key on variant (expected `name = \"..\"` or `roles = [..]`)"
            } else {
                "unsupported `#[permission(...)]` key on enum (expected `roles = [..]`)"
            },
            AttrProblem::MissingValue => "expected `=`",
            AttrProblem::ExpectedStringLiteral => "expected string literal",
            AttrProblem::ExpectedStringArray => "expected a string array like `[\"owner\", \"operator\"]`",
            AttrProblem::ExpectedStringInArray { .. } => "expected a string literal inside the role array",
            AttrProblem::Malformed => "malformed `#[permission(...)]` attribute",
        }
    }
}

impl DeriveError {
    /// The message that reports this error.
    pub fn message(&self) -> (r: &'static str)
        ensures
            r@ == derive_error_message(*self),
    {
        match self {
            DeriveError::NotAnEnum => "Permission can only be derived for enums",
            DeriveError::EnumAttribute { problem, .. } => problem.message(false),
            DeriveError::NotUnit { .. } => "Permission only supports unit variants (no fields)",
            DeriveError::VariantAttribute { problem, .. } => problem.message(true),
            DeriveError::MissingName { saw_permission_attr, .. } => if *saw_permission_attr {
                "missing `name = \"..\"` in `#[permission(...)]`"
            } else {
                "expected `#[permission(name = \"..\")]` on variant"
            },
            DeriveError::DuplicateName { .. } => "duplicate permission name",
        }
    }
}

/// The position of the first array element that is not a string literal.
pub open spec fn first_non_string(elems: Seq<Option<String>>) -> Option<int>
    decreases elems.len(),
{
    if elems.len() == 0 {
        None
    } else {
        match first_non_string(elems.drop_last()) {
            Some(i) => Some(i),
            None => if elems.last() is None {
                Some(elems.len() - 1)
            } else {
                None
            },
        }
    }
}

/// The texts of an array of string literals.
pub open spec fn role_texts(elems: Seq<Option<String>>) -> Seq<Seq<char>> {
    elems.map_values(
        |e: Option<String>|
            match e {
                Some(s) => s@,
                None => Seq::empty(),
            },
    )
}

/// What is wrong with a `roles` value, if anything: it must be an array of
/// string literals.
pub open spec fn roles_problem(value: MetaValue) -> Option<AttrProblem> {
    match value {
        MetaValue::Missing => Some(AttrProblem::MissingValue),
        MetaValue::Array(elems) => match first_non_string(elems@) {
            Some(i) => Some(AttrProblem::ExpectedStringInArray { element: i as usize }),
            None => None,
        },
        _ => Some(AttrProblem::ExpectedStringArray),
    }
}

/// What is wrong with an item of the enum's attributes: only `roles = [..]` is
/// accepted there.
pub open spec fn enum_item_problem(item: MetaItem) -> Option<AttrProblem> {
    match item {
        MetaItem::Malformed => Some(AttrProblem::Malformed),
        MetaItem::Entry { key, value } => if key@ == "roles"@ {
            roles_problem(value)
        } else {
            Some(AttrProblem::UnsupportedKey)
        },
    }
}

/// What is wrong with an item of a variant's attributes: `name = ".."` and
/// `roles = [..]` are accepted there.
pub open spec fn variant_item_problem(item: MetaItem) -> Option<AttrProblem> {
    match item {
        MetaItem::Malformed => Some(AttrProblem::Malformed),
        MetaItem::Entry { key, value } => if key@ == "name"@ {
            match value {
                MetaValue::Str(_) => None,
                MetaValue::Missing => Some(AttrProblem::MissingValue),
                _ => Some(AttrProblem::ExpectedStringLiteral),
            }
        } else if key@ == "roles"@ {
            roles_problem(value)
        } else {
            Some(AttrProblem::UnsupportedKey)
        },
    }
}

/// The check of the enum's items.
pub open spec fn enum_check() -> spec_fn(MetaItem) -> Option<AttrProblem> {
    |i: MetaItem| enum_item_problem(i)
}

/// The check of a variant's items.
pub open spec fn variant_check() -> spec_fn(MetaItem) -> Option<AttrProblem> {
    |i: MetaItem| variant_item_problem(i)
}

/// The position and problem of the first item that `check` finds wrong.
pub open spec fn first_problem(
    items: Seq<MetaItem>,
    check: spec_fn(MetaItem) -> Option<AttrProblem>,
) -> Option<(int, AttrProblem)>
    decreases items.len(),
{
    if items.len() == 0 {
        None
    } else {
        match first_problem(items.drop_last(), check) {
            Some(found) => Some(found),
            None => match check(items.last()) {
                Some(p) => Some((items.len() - 1, p)),
                None => None,
            },
        }
    }
}

/// The roles of the last `roles = [..]` item, if any.
pub open spec fn last_roles(items: Seq<MetaItem>) -> Option<Seq<Seq<char>>>
    decreases items.len(),
{
    if items.len() == 0 {
        None
    } else {
        match items.last() {
            MetaItem::Entry { key, value: MetaValue::Array(elems) } if key@ == "roles"@ => Some(
                role_texts(elems@),
            ),
            _ => last_roles(items.drop_last()),
        }
    }
}

/// The name of the last `name = ".."` item, if any.
pub open spec fn last_name(items: Seq<MetaItem>) -> Option<Seq<char>>
    decreases items.len(),
{
    if items.len() == 0 {
        None
    } else {
        match items.last() {
            MetaItem::Entry { key, value: MetaValue::Str(s) } if key@ == "name"@ => Some(s@),
            _ => last_name(items.drop_last()),
        }
    }
}

/// The roles that variants hold unless they name their own: those of the enum's
/// last `roles` item, or none.
pub open spec fn default_roles(items: Seq<MetaItem>) -> Seq<Seq<char>> {
    match last_roles(items) {
        Some(r) => r,
        None => Seq::empty(),
    }
}

/// The plan for the variant at position `index`, or its error: its items must be
/// accepted, and it must have a name; its roles are its own last `roles` item,
/// or `defaults`. Whether it has fields plays no part here.
pub open spec fn variant_outcome(v: VariantInput, index: int, defaults: Seq<Seq<char>>) -> Result<
    VariantView,
    DeriveError,
> {
    match first_problem(v.items@, variant_check()) {
        Some((k, p)) => Err(
            DeriveError::VariantAttribute { variant: index as usize, item: k as usize, problem: p },
        ),
        None => match last_name(v.items@) {
            None => Err(
                DeriveError::MissingName {
                    variant: index as usize,
                    saw_permission_attr: v.has_permission_attr,
                },
            ),
            Some(name) => Ok(
                (
                    v.ident@,
                    name,
                    match last_roles(v.items@) {
                        Some(r) => r,
                        None => defaults,
                    },
                ),
            ),
        },
    }
}

/// The plans of `variants` in order, or the first error: a variant with fields,
/// a variant's own error, or a name that an earlier variant already has.
pub open spec fn variants_outcome(variants: Seq<VariantInput>, defaults: Seq<Seq<char>>) -> Result<
    Seq<VariantView>,
    DeriveError,
>
    decreases variants.len(),
{
    if variants.len() == 0 {
        Ok(Seq::empty())
    } else {
        let index = variants.len() - 1;
        match variants_outcome(variants.drop_last(), defaults) {
            Err(e) => Err(e),
            Ok(done) => if !variants.last().is_unit {
                Err(DeriveError::NotUnit { variant: index as usize })
            } else {
                match variant_outcome(variants.last(), index, defaults) {
                    Err(e) => Err(e),
                    Ok(info) => if exists|j: int|
                        0 <= j < done.len() && (#[trigger] done[j]).1 == info.1 {
                        let j = choose|j: int|
                            0 <= j < done.len() && (#[trigger] done[j]).1 == info.1;
                        Err(DeriveError::DuplicateName { variant: index as usize, previous: j as usize })
                    } else {
                        Ok(done.push(info))
                    },
                }
            },
        }
    }
}

/// What the derive decides for `input`: it must be an enum, the enum's items
/// must be accepted, and then every variant must be.
pub open spec fn derive_outcome(input: EnumInput) -> Result<Seq<VariantView>, DeriveError> {
    if !input.is_enum {
        Err(DeriveError::NotAnEnum)
    } else {
        match first_problem(input.items@, enum_check()) {
            Some((k, p)) => Err(DeriveError::EnumAttribute { item: k as usize, problem: p }),
            None => variants_outcome(input.variants@, default_roles(input.items@)),
        }
    }
}

/// The texts of a list of strings.
pub open spec fn texts(v: Seq<String>) -> Seq<Seq<char>> {
    v.map_values(|s: String| s@)
}

/// Whether `key` is the given key word.
fn key_is(key: &String, word: &str) -> (r: bool)
    ensures
        r == (key@ == word@),
{
    same_text(key.as_str(), word)
}

/// The roles of a `roles` value, or what is wrong with it.
fn parse_string_array(value: &MetaValue) -> (r: Result<Vec<String>, AttrProblem>)
    ensures
        match r {
            Ok(roles) => roles_problem(*value) is None && (value matches MetaValue::Array(elems)
                && texts(roles@) == role_texts(elems@)),
            Err(p) => roles_problem(*value) == Some(p),
        },
{
    match value {
        MetaValue::Array(elems) => {
            let mut roles: Vec<String> = Vec::new();
            let n = elems.len();
            for i in 0..n
                invariant
                    n == elems@.len(),
                    *value == MetaValue::Array(*elems),
                    first_non_string(elems@.take(i as int)) is None,
                    texts(roles@) == role_texts(elems@.take(i as int)),
            {
                assert(elems@.take(i + 1).drop_last() =~= elems@.take(i as int));
                assert(elems@.take(i + 1) =~= elems@.take(i as int).push(elems@[i as int]));
                let ghost before = roles@;
                match &elems[i] {
                    Some(role) => {
                        roles.push(role.clone());
                        assert(texts(roles@) =~= texts(before).push(role@));
                        assert(texts(roles@) =~= role_texts(elems@.take(i + 1)));
                    },
                    None => {
                        proof {
                            assert(first_non_string(elems@.take(i + 1)) == Some(i as int));
                            lemma_first_non_string_prefix(elems@, i as int + 1);
                        }
                        return Err(AttrProblem::ExpectedStringInArray { element: i });
                    },
                }
            }
            assert(elems@.take(n as int) =~= elems@);
            Ok(roles)
        },
        MetaValue::Missing => Err(AttrProblem::MissingValue),
        _ => Err(AttrProblem::ExpectedStringArray),
    }
}

/// A problem found in a prefix stays the first problem of the whole list.
proof fn lemma_first_non_string_prefix(elems: Seq<Option<String>>, k: int)
    requires
        0 <= k <= elems.len(),
        first_non_string(elems.take(k)) is Some,
    ensures
        first_non_string(elems) == first_non_string(elems.take(k)),
    decreases elems.len() - k,
{
    if k < elems.len() {
        assert(elems.take(k + 1).drop_last() =~= elems.take(k));
        lemma_first_non_string_prefix(elems, k + 1);
    } else {
        assert(elems.take(k) =~= elems);
    }
}

/// A problem found in a prefix stays the first problem of the whole list.
proof fn lemma_first_problem_prefix(
    items: Seq<MetaItem>,
    check: spec_fn(MetaItem) -> Option<AttrProblem>,
    k: int,
)
    requires
        0 <= k <= items.len(),
        first_problem(items.take(k), check) is Some,
    ensures
        first_problem(items, check) == first_problem(items.take(k), check),
    decreases items.len() - k,
{
    if k < items.len() {
        assert(items.take(k + 1).drop_last() =~= items.take(k));
        lemma_first_problem_prefix(items, check, k + 1);
    } else {
        assert(items.take(k) =~= items);
    }
}

/// The roles that the enum's items give its variants by default, or the first
/// problem among them.
fn parse_enum_attrs(items: &Vec<MetaItem>) -> (r: Result<Vec<String>, DeriveError>)
    ensures
        match r {
            Ok(roles) => first_problem(items@, enum_check()) is None && texts(roles@) == default_roles(
                items@,
            ),
            Err(e) => match first_problem(items@, enum_check()) {
                Some((k, p)) => e == DeriveError::EnumAttribute { item: k as usize, problem: p },
                None => false,
            },
        },
{
    let mut defaults: Vec<String> = Vec::new();
    let n = items.len();
    for i in 0..n
        invariant
            n == items@.len(),
            first_problem(items@.take(i as int), enum_check()) is None,
            texts(defaults@) == default_roles(items@.take(i as int)),
    {
        let ghost prefix = items@.take(i + 1);
        assert(prefix.drop_last() =~= items@.take(i as int));
        assert(prefix.last() == items@[i as int]);
        let problem = match &items[i] {
            MetaItem::Malformed => Some(AttrProblem::Malformed),
            MetaItem::Entry { key, value } => {
                if key_is(key, "roles") {
                    match parse_string_array(value) {
                        Ok(roles) => {
                            defaults = roles;
                            None
                        },
                        Err(p) => Some(p),
                    }
                } else {
                    Some(AttrProblem::UnsupportedKey)
                }
            },
        };
        match problem {
            Some(p) => {
                proof {
                    assert(first_problem(prefix, enum_check()) == Some((i as int, p)));
                    lemma_first_problem_prefix(items@, enum_check(), i + 1);
                }
                return Err(DeriveError::EnumAttribute { item: i, problem: p });
            },
            None => {},
        }
    }
    assert(items@.take(n as int) =~= items@);
    Ok(defaults)
}

/// The plan for the variant at position `index`, or its error.
fn parse_variant_info(v: &VariantInput, index: usize, defaults: &Vec<String>) -> (r: Result<
    VariantInfo,
    DeriveError,
>)
    ensures
        match r {
            Ok(info) => variant_outcome(*v, index as int, texts(defaults@)) == Ok::<
                VariantView,
                DeriveError,
            >(info@),
            Err(e) => variant_outcome(*v, index as int, texts(defaults@)) == Err::<
                VariantView,
                DeriveError,
            >(e),
        },
{
    let items = &v.items;
    let mut name: Option<String> = None;
    let mut roles: Option<Vec<String>> = None;
    let n = items.len();
    for i in 0..n
        invariant
            n == items@.len(),
            *items == v.items,
            first_problem(items@.take(i as int), variant_check()) is None,
            match name {
                Some(s) => last_name(items@.take(i as int)) == Some(s@),
                None => last_name(items@.take(i as int)) is None,
            },
            match roles {
                Some(rs) => last_roles(items@.take(i as int)) == Some(texts(rs@)),
                None => last_roles(items@.take(i as int)) is None,
            },
    {
        let ghost prefix = items@.take(i + 1);
        assert(prefix.drop_last() =~= items@.take(i as int));
        assert(prefix.last() == items@[i as int]);
        let problem = match &items[i] {
            MetaItem::Malformed => Some(AttrProblem::Malformed),
            MetaItem::Entry { key, value } => {
                if key_is(key, "name") {
                    match value {
                        MetaValue::Str(s) => {
                            name = Some(s.clone());
                            None
                        },
                        MetaValue::Missing => Some(AttrProblem::MissingValue),
                        _ => Some(AttrProblem::ExpectedStringLiteral),
                    }
                } else if key_is(key, "roles") {
                    match parse_string_array(value) {
                        Ok(rs) => {
                            roles = Some(rs);
                            None
                        },
                        Err(p) => Some(p),
                    }
                } else {
                    Some(AttrProblem::UnsupportedKey)
                }
            },
        };
        match problem {
            Some(p) => {
                proof {
                    assert(first_problem(prefix, variant_check()) == Some((i as int, p)));
                    lemma_first_problem_prefix(items@, variant_check(), i + 1);
                }
                return Err(DeriveError::VariantAttribute { variant: index, item: i, problem: p });
            },
            None => {},
        }
    }
    assert(items@.take(n as int) =~= items@);
    match name {
        None => Err(
            DeriveError::MissingName { variant: index, saw_permission_attr: v.has_permission_attr },
        ),
        Some(name) => {
            let roles = match roles {
                Some(rs) => rs,
                None => defaults.clone(),
            };
            let info = VariantInfo { ident: v.ident.clone(), name, roles };
            Ok(info)
        },
    }
}

/// The views of a list of plans.
pub open spec fn plan_views(infos: Seq<VariantInfo>) -> Seq<VariantView> {
    infos.map_values(|i: VariantInfo| i@)
}

/// The position of the plan among `infos` that is named `name`, if any.
fn find_name(infos: &Vec<VariantInfo>, name: &String) -> (r: Option<usize>)
    ensures
        match r {
            Some(j) => j < infos@.len() && infos@[j as int].name@ == name@,
            None => forall|j: int| 0 <= j < infos@.len() ==> (#[trigger] infos@[j]).name@ != name@,
        },
{
    let n = infos.len();
    for j in 0..n
        invariant
            n == infos@.len(),
            forall|k: int| 0 <= k < j ==> (#[trigger] infos@[k]).name@ != name@,
    {
        if same_text(infos[j].name.as_str(), name.as_str()) {
            return Some(j);
        }
    }
    None
}

/// What the permission derive decides for `input`: the name and roles of every
/// variant, in order, or the first error. A variant's own `roles` override the
/// enum's; without either, a variant has no roles.
pub fn plan_permission_enum(input: &EnumInput) -> (r: Result<Vec<VariantInfo>, DeriveError>)
    ensures
        match r {
            Ok(infos) => derive_outcome(*input) == Ok::<Seq<VariantView>, DeriveError>(
                plan_views(infos@),
            ),
            Err(e) => derive_outcome(*input) == Err::<Seq<VariantView>, DeriveError>(e),
        },
{
    if !input.is_enum {
        return Err(DeriveError::NotAnEnum);
    }
    let defaults = parse_enum_attrs(&input.items)?;
    let ghost dv = texts(defaults@);
    let variants = &input.variants;
    let mut infos: Vec<VariantInfo> = Vec::new();
    let n = variants.len();
    assert(variants@.take(0) =~= Seq::<VariantInput>::empty());
    assert(plan_views(infos@) =~= Seq::<VariantView>::empty());
    for i in 0..n
        invariant
            n == variants@.len(),
            *variants == input.variants,
            dv == texts(defaults@),
            dv == default_roles(input.items@),
            input.is_enum,
            first_problem(input.items@, enum_check()) is None,
            variants_outcome(variants@.take(i as int), dv) == Ok::<Seq<VariantView>, DeriveError>(
                plan_views(infos@),
            ),
            forall|a: int, b: int|
                0 <= a < b < infos@.len() ==> (#[trigger] infos@[a]).name@ != (#[trigger] infos@[b]).name@,
    {
        let ghost prefix = variants@.take(i + 1);
        assert(prefix.drop_last() =~= variants@.take(i as int));
        assert(prefix.last() == variants@[i as int]);
        assert(prefix.len() - 1 == i);
        if !variants[i].is_unit {
            proof {
                lemma_variants_outcome_prefix(variants@, dv, i + 1);
                assert(variants@.take(n as int) =~= variants@);
            }
            return Err(DeriveError::NotUnit { variant: i });
        }
        let info = match parse_variant_info(&variants[i], i, &defaults) {
            Ok(info) => info,
            Err(e) => {
                proof {
                    lemma_variants_outcome_prefix(variants@, dv, i + 1);
                    assert(variants@.take(n as int) =~= variants@);
                }
                return Err(e);
            },
        };
        let ghost done = plan_views(infos@);
        match find_name(&infos, &info.name) {
            Some(j) => {
                proof {
                    assert(done[j as int].1 == info@.1);
                    let k = choose|k: int| 0 <= k < done.len() && (#[trigger] done[k]).1 == info@.1;
                    if k != j {
                        if k < j {
                            assert(infos@[k].name@ != infos@[j as int].name@);
                        } else {
                            assert(infos@[j as int].name@ != infos@[k].name@);
                        }
                    }
                    lemma_variants_outcome_prefix(variants@, dv, i + 1);
                    assert(variants@.take(n as int) =~= variants@);
                }
                return Err(DeriveError::DuplicateName { variant: i, previous: j });
            },
            None => {
                proof {
                    assert forall|j: int| 0 <= j < done.len() implies (#[trigger] done[j]).1 != info@.1 by {
                        assert(infos@[j].name@ != info.name@);
                    }
                }
                infos.push(info);
                assert(plan_views(infos@) =~= done.push(info@));
            },
        }
    }
    assert(variants@.take(n as int) =~= variants@);
    Ok(infos)
}

/// The roles a variant ends up with: its own last `roles` item, or the
/// defaults.
pub open spec fn resolved_roles(v: VariantInput, defaults: Seq<Seq<char>>) -> Seq<Seq<char>> {
    match last_roles(v.items@) {
        Some(r) => r,
        None => defaults,
    }
}

/// Enum-level roles are defaults and variant-level roles override them: when
/// the derive accepts `variants`, it plans one entry per variant, in order, named
/// by the variant's `name` and holding the variant's own roles or else the
/// defaults, and no two entries share a name.
pub proof fn lemma_accepted_plans(variants: Seq<VariantInput>, defaults: Seq<Seq<char>>)
    ensures
        variants_outcome(variants, defaults) is Ok ==> {
            let plans = variants_outcome(variants, defaults)->Ok_0;
            &&& plans.len() == variants.len()
            &&& forall|k: int|
                0 <= k < variants.len() ==> (#[trigger] plans[k]) == (
                    variants[k].ident@,
                    last_name(variants[k].items@)->Some_0,
                    resolved_roles(variants[k], defaults),
                ) && variants[k].is_unit
            &&& forall|a: int, b: int|
                0 <= a < b < plans.len() ==> (#[trigger] plans[a]).1 != (#[trigger] plans[b]).1
        },
    decreases variants.len(),
{
    if variants.len() > 0 {
        let v0 = variants.drop_last();
        lemma_accepted_plans(v0, defaults);
        if variants_outcome(variants, defaults) is Ok {
            let plans = variants_outcome(variants, defaults)->Ok_0;
            let done = variants_outcome(v0, defaults)->Ok_0;
            assert forall|k: int| 0 <= k < variants.len() implies (#[trigger] plans[k]) == (
                variants[k].ident@,
                last_name(variants[k].items@)->Some_0,
                resolved_roles(variants[k], defaults),
            ) && variants[k].is_unit by {
                if k < v0.len() {
                    assert(plans[k] == done[k]);
                    assert(variants[k] == v0[k]);
                }
            }
            assert forall|a: int, b: int| 0 <= a < b < plans.len() implies (#[trigger] plans[a]).1
                != (#[trigger] plans[b]).1 by {
                if b < done.len() {
                    assert(plans[a] == done[a] && plans[b] == done[b]);
                } else {
                    assert(plans[a] == done[a]);
                }
            }
        }
    }
}

/// A list of items with nothing wrong in any of them has no first problem.
proof fn lemma_no_problem(items: Seq<MetaItem>, check: spec_fn(MetaItem) -> Option<AttrProblem>)
    requires
        forall|i: int| 0 <= i < items.len() ==> check(#[trigger] items[i]) is None,
    ensures
        first_problem(items, check) is None,
    decreases items.len(),
{
    if items.len() > 0 {
        let i0 = items.drop_last();
        assert forall|i: int| 0 <= i < i0.len() implies check(#[trigger] i0[i]) is None by {
            assert(i0[i] == items[i]);
        }
        lemma_no_problem(i0, check);
        assert(check(items[items.len() - 1]) is None);
    }
}

/// A duplicate reported among `variants` names two variants, the earlier one
/// first, whose names are equal.
proof fn lemma_duplicate_names_equal(variants: Seq<VariantInput>, defaults: Seq<Seq<char>>)
    requires
        variants.len() <= usize::MAX,
    ensures
        variants_outcome(variants, defaults) matches Err(DeriveError::DuplicateName { variant, previous })
            ==> previous < variant < variants.len() && last_name(variants[variant as int].items@) is Some
            && last_name(variants[variant as int].items@) == last_name(
            variants[previous as int].items@,
        ),
    decreases variants.len(),
{
    if variants.len() > 0 {
        let v0 = variants.drop_last();
        lemma_duplicate_names_equal(v0, defaults);
        lemma_accepted_plans(v0, defaults);
        let index = variants.len() - 1;
        assert(variants.last() == variants[index]);
        assert forall|k: int| 0 <= k < v0.len() implies #[trigger] v0[k] == variants[k] by {}
        match variants_outcome(v0, defaults) {
            Err(e) => {},
            Ok(done) => {
                if variants.last().is_unit {
                    match variant_outcome(variants.last(), index, defaults) {
                        Err(e) => {
                            assert(!(e is DuplicateName)) by {
                                let items = variants.last().items@;
                                match first_problem(items, variant_check()) {
                                    Some(_) => {},
                                    None => {},
                                }
                            }
                        },
                        Ok(info) => {
                            if exists|j: int| 0 <= j < done.len() && (#[trigger] done[j]).1 == info.1 {
                                let j = choose|j: int| 0 <= j < done.len() && (#[trigger] done[j]).1 == info.1;
                                assert(done[j].1 == last_name(v0[j].items@)->Some_0);
                                assert(last_name(variants.last().items@) == Some(info.1));
                                assert(last_name(v0[j].items@) is Some) by {
                                    assert(variants_outcome(v0, defaults) is Ok);
                                    lemma_accepted_names(v0, defaults, j);
                                }
                            }
                        },
                    }
                }
            },
        }
    }
}

/// Every variant that the derive accepts has a name of its own.
proof fn lemma_accepted_names(variants: Seq<VariantInput>, defaults: Seq<Seq<char>>, k: int)
    requires
        variants_outcome(variants, defaults) is Ok,
        0 <= k < variants.len(),
    ensures
        last_name(variants[k].items@) is Some,
    decreases variants.len(),
{
    let v0 = variants.drop_last();
    if k < v0.len() {
        assert(v0[k] == variants[k]);
        lemma_accepted_names(v0, defaults, k);
    } else {
        assert(variants.last() == variants[k]);
    }
}

/// Variants that are all unit variants, with nothing wrong in their items, each
/// with a name, no two names equal, are all accepted.
proof fn lemma_distinct_variants_accepted(variants: Seq<VariantInput>, defaults: Seq<Seq<char>>)
    requires
        forall|k: int|
            0 <= k < variants.len() ==> (#[trigger] variants[k]).is_unit && last_name(
                variants[k].items@,
            ) is Some && forall|i: int|
                0 <= i < variants[k].items@.len() ==> variant_item_problem(
                    #[trigger] variants[k].items@[i],
                ) is None,
        forall|a: int, b: int|
            0 <= a < b < variants.len() ==> last_name((#[trigger] variants[a]).items@) != last_name(
                (#[trigger] variants[b]).items@,
            ),
    ensures
        variants_outcome(variants, defaults) is Ok,
    decreases variants.len(),
{
    if variants.len() > 0 {
        let v0 = variants.drop_last();
        let index = variants.len() - 1;
        let last = variants.last();
        assert(last == variants[index]);
        assert forall|k: int| 0 <= k < v0.len() implies #[trigger] v0[k] == variants[k] by {}
        lemma_distinct_variants_accepted(v0, defaults);
        lemma_accepted_plans(v0, defaults);
        let done = variants_outcome(v0, defaults)->Ok_0;
        assert forall|i: int| 0 <= i < last.items@.len() implies variant_check()(
            #[trigger] last.items@[i],
        ) is None by {
            assert(variant_item_problem(variants[index].items@[i]) is None);
        }
        lemma_no_problem(last.items@, variant_check());
        let info = variant_outcome(last, index, defaults)->Ok_0;
        assert(info.1 == last_name(last.items@)->Some_0);
        assert forall|j: int| 0 <= j < done.len() implies (#[trigger] done[j]).1 != info.1 by {
            assert(done[j].1 == last_name(v0[j].items@)->Some_0);
            assert(last_name(variants[j].items@) != last_name(variants[index].items@));
        }
    }
}

/// The derive reports a duplicate name only for two variants, the earlier one
/// first, that carry equal names: names that differ, however they begin, are
/// never taken for duplicates.
pub proof fn lemma_duplicate_name_means_equal_names(input: EnumInput)
    ensures
        derive_outcome(input) matches Err(DeriveError::DuplicateName { variant, previous })
            ==> previous < variant < input.variants@.len() && last_name(
            input.variants@[variant as int].items@,
        ) is Some && last_name(input.variants@[variant as int].items@) == last_name(
            input.variants@[previous as int].items@,
        ),
{
    vstd::std_specs::vec::axiom_spec_len(&input.variants);
    lemma_duplicate_names_equal(input.variants@, default_roles(input.items@));
}

/// An enum whose own items are all accepted and whose variants are all unit
/// variants, with accepted items and a name each, no two names equal, is
/// accepted by the derive.
pub proof fn lemma_distinct_names_accepted(input: EnumInput)
    requires
        input.is_enum,
        forall|i: int| 0 <= i < input.items@.len() ==> enum_item_problem(#[trigger] input.items@[i]) is None,
        forall|k: int|
            0 <= k < input.variants@.len() ==> (#[trigger] input.variants@[k]).is_unit && last_name(
                input.variants@[k].items@,
            ) is Some && forall|i: int|
                0 <= i < input.variants@[k].items@.len() ==> variant_item_problem(
                    #[trigger] input.variants@[k].items@[i],
                ) is None,
        forall|a: int, b: int|
            0 <= a < b < input.variants@.len() ==> last_name((#[trigger] input.variants@[a]).items@)
                != last_name((#[trigger] input.variants@[b]).items@),
    ensures
        derive_outcome(input) is Ok,
{
    assert forall|i: int| 0 <= i < input.items@.len() implies enum_check()(#[trigger] input.items@[i]) is None by {}
    lemma_no_problem(input.items@, enum_check());
    lemma_distinct_variants_accepted(input.variants@, default_roles(input.items@));
}

/// The problem reported for a list of items is that of its first wrong item,
/// and none is reported when no item is wrong.
pub proof fn lemma_first_problem_is_first(
    items: Seq<MetaItem>,
    check: spec_fn(MetaItem) -> Option<AttrProblem>,
)
    ensures
        match first_problem(items, check) {
            Some((k, p)) => 0 <= k < items.len() && check(items[k]) == Some(p) && forall|j: int|
                0 <= j < k ==> check(#[trigger] items[j]) is None,
            None => forall|j: int| 0 <= j < items.len() ==> check(#[trigger] items[j]) is None,
        },
    decreases items.len(),
{
    if items.len() > 0 {
        let i0 = items.drop_last();
        let last = items.len() - 1;
        lemma_first_problem_is_first(i0, check);
        assert(items.last() == items[last]);
        match first_problem(i0, check) {
            Some((k, p)) => {
                assert(items[k] == i0[k]);
                assert forall|j: int| 0 <= j < k implies check(#[trigger] items[j]) is None by {
                    assert(items[j] == i0[j]);
                    assert(check(i0[j]) is None);
                }
            },
            None => {
                assert forall|j: int| 0 <= j < last implies check(#[trigger] items[j]) is None by {
                    assert(items[j] == i0[j]);
                    assert(check(i0[j]) is None);
                }
            },
        }
    }
}

/// The element reported as not a string literal is the first such element,
/// and none is reported when every element is a string literal.
pub proof fn lemma_first_non_string_is_first(elems: Seq<Option<String>>)
    ensures
        match first_non_string(elems) {
            Some(k) => 0 <= k < elems.len() && elems[k] is None && forall|j: int|
                0 <= j < k ==> (#[trigger] elems[j]) is Some,
            None => forall|j: int| 0 <= j < elems.len() ==> (#[trigger] elems[j]) is Some,
        },
    decreases elems.len(),
{
    if elems.len() > 0 {
        let e0 = elems.drop_last();
        let last = elems.len() - 1;
        lemma_first_non_string_is_first(e0);
        assert(elems.last() == elems[last]);
        match first_non_string(e0) {
            Some(k) => {
                assert(elems[k] == e0[k]);
                assert forall|j: int| 0 <= j < k implies (#[trigger] elems[j]) is Some by {
                    assert(elems[j] == e0[j]);
                    assert(e0[j] is Some);
                }
            },
            None => {
                assert forall|j: int| 0 <= j < last implies (#[trigger] elems[j]) is Some by {
                    assert(elems[j] == e0[j]);
                    assert(e0[j] is Some);
                }
            },
        }
    }
}

/// The name that an item gives: `name = ".."` gives that text.
pub open spec fn item_name(item: MetaItem) -> Option<Seq<char>> {
    match item {
        MetaItem::Entry { key, value: MetaValue::Str(s) } => if key@ == "name"@ {
            Some(s@)
        } else {
            None
        },
        _ => None,
    }
}

/// The roles that an item gives: `roles = [..]` gives the texts of its array.
pub open spec fn item_roles(item: MetaItem) -> Option<Seq<Seq<char>>> {
    match item {
        MetaItem::Entry { key, value: MetaValue::Array(elems) } => if key@ == "roles"@ {
            Some(role_texts(elems@))
        } else {
            None
        },
        _ => None,
    }
}

/// A later `name = ".."` replaces an earlier one: the name of a list of items is
/// the one that its last naming item gives, and there is none without such an
/// item.
pub proof fn lemma_last_name_is_last(items: Seq<MetaItem>)
    ensures
        match last_name(items) {
            Some(n) => exists|k: int|
                0 <= k < items.len() && item_name(#[trigger] items[k]) == Some(n) && forall|j: int|
                    k < j < items.len() ==> item_name(#[trigger] items[j]) is None,
            None => forall|j: int| 0 <= j < items.len() ==> item_name(#[trigger] items[j]) is None,
        },
    decreases items.len(),
{
    if items.len() > 0 {
        let i0 = items.drop_last();
        let last = items.len() - 1;
        lemma_last_name_is_last(i0);
        assert(items.last() == items[last]);
        if item_name(items[last]) is Some {
            assert(item_name(items[last]) == last_name(items));
            assert(item_name(items[last]) == Some(last_name(items)->Some_0));
        } else {
            assert(last_name(items) == last_name(i0));
            match last_name(i0) {
                Some(n) => {
                    let k = choose|k: int|
                        0 <= k < i0.len() && item_name(#[trigger] i0[k]) == Some(n) && forall|j: int|
                            k < j < i0.len() ==> item_name(#[trigger] i0[j]) is None;
                    assert(items[k] == i0[k]);
                    assert(item_name(items[k]) == Some(n));
                    assert forall|j: int| k < j < items.len() implies item_name(#[trigger] items[j]) is None by {
                        if j < last {
                            assert(items[j] == i0[j]);
                            assert(item_name(i0[j]) is None);
                        }
                    }
                },
                None => {
                    assert forall|j: int| 0 <= j < items.len() implies item_name(#[trigger] items[j]) is None by {
                        if j < last {
                            assert(items[j] == i0[j]);
                            assert(item_name(i0[j]) is None);
                        }
                    }
                },
            }
        }
    }
}

/// A later `roles = [..]` replaces an earlier one: the roles of a list of items
/// are those that its last `roles` item gives, and there are none without such
/// an item.
pub proof fn lemma_last_roles_is_last(items: Seq<MetaItem>)
    ensures
        match last_roles(items) {
            Some(r) => exists|k: int|
                0 <= k < items.len() && item_roles(#[trigger] items[k]) == Some(r) && forall|j: int|
                    k < j < items.len() ==> item_roles(#[trigger] items[j]) is None,
            None => forall|j: int| 0 <= j < items.len() ==> item_roles(#[trigger] items[j]) is None,
        },
    decreases items.len(),
{
    if items.len() > 0 {
        let i0 = items.drop_last();
        let last = items.len() - 1;
        lemma_last_roles_is_last(i0);
        assert(items.last() == items[last]);
        if item_roles(items[last]) is Some {
            assert(item_roles(items[last]) == last_roles(items));
            assert(item_roles(items[last]) == Some(last_roles(items)->Some_0));
        } else {
            assert(last_roles(items) == last_roles(i0));
            match last_roles(i0) {
                Some(r) => {
                    let k = choose|k: int|
                        0 <= k < i0.len() && item_roles(#[trigger] i0[k]) == Some(r) && forall|j: int|
                            k < j < i0.len() ==> item_roles(#[trigger] i0[j]) is None;
                    assert(items[k] == i0[k]);
                    assert(item_roles(items[k]) == Some(r));
                    assert forall|j: int| k < j < items.len() implies item_roles(#[trigger] items[j]) is None by {
                        if j < last {
                            assert(items[j] == i0[j]);
                            assert(item_roles(i0[j]) is None);
                        }
                    }
                },
                None => {
                    assert forall|j: int| 0 <= j < items.len() implies item_roles(#[trigger] items[j]) is None by {
                        if j < last {
                            assert(items[j] == i0[j]);
                            assert(item_roles(i0[j]) is None);
                        }
                    }
                },
            }
        }
    }
}

/// The name that a variant's items give it: the last `name = ".."`.
pub fn variant_name(v: &VariantInput) -> (r: Option<String>)
    ensures
        match r {
            Some(s) => last_name(v.items@) == Some(s@),
            None => last_name(v.items@) is None,
        },
{
    let items = &v.items;
    let mut i = items.len();
    assert(items@.take(i as int) =~= items@);
    while i > 0
        invariant
            i <= items@.len(),
            *items == v.items,
            last_name(v.items@) == last_name(items@.take(i as int)),
        decreases i,
    {
        let ghost prefix = items@.take(i as int);
        assert(prefix.drop_last() =~= items@.take(i - 1));
        assert(prefix.last() == items@[i - 1]);
        if let MetaItem::Entry { key, value: MetaValue::Str(s) } = &items[i - 1] {
            if key_is(key, "name") {
                return Some(s.clone());
            }
        }
        i = i - 1;
    }
    assert(items@.take(0) =~= Seq::<MetaItem>::empty());
    None
}

/// An error found for a prefix of the variants is the error for all of them.
proof fn lemma_variants_outcome_prefix(variants: Seq<VariantInput>, defaults: Seq<Seq<char>>, k: int)
    requires
        0 <= k <= variants.len(),
        variants_outcome(variants.take(k), defaults) is Err,
    ensures
        variants_outcome(variants, defaults) == variants_outcome(variants.take(k), defaults),
    decreases variants.len() - k,
{
    if k < variants.len() {
        assert(variants.take(k + 1).drop_last() =~= variants.take(k));
        lemma_variants_outcome_prefix(variants, defaults, k + 1);
    } else {
        assert(variants.take(k) =~= variants);
    }
}

} // verus!
