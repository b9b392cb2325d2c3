//! Scoped allow/deny grants and their evaluation.

use vstd::prelude::*;

use crate::pattern::{pattern_matches, permission_pattern_matches};

use itertools::Itertools;

verus! {

broadcast use vstd::std_specs::vec::axiom_spec_into_iter;

/// Whether a grant allows or denies what its pattern covers.
#[derive(Debug, Clone, Copy, PartialEq, Eq, Structural)]
pub enum PermissionEffect {
    Allow,
    Deny,
}

/// A grant: within `scope`, the keys that `pattern` covers are allowed or
/// denied according to `effect`.
#[derive(Debug, Clone, PartialEq, Eq)]
pub struct PermissionGrant {
    pub scope: String,
    pub pattern: String,
    pub effect: PermissionEffect,
}

/// A grant as seen from inside its scope: its pattern and its effect.
pub type GrantView = (Seq<char>, PermissionEffect);

#[derive(Debug)]
struct ScopedPermission {
    pattern: String,
    effect: PermissionEffect,
}

impl Clone for ScopedPermission {
    fn clone(&self) -> (r: Self)
        ensures
            r@ == self@,
    {
        ScopedPermission { pattern: self.pattern.clone(), effect: self.effect }
    }
}

impl View for ScopedPermission {
    type V = GrantView;

    closed spec fn view(&self) -> GrantView {
        (self.pattern@, self.effect)
    }
}

/// Some grant of `grants` has effect `effect` and a pattern covering `key`.
pub open spec fn has_matching_grant(
    grants: Seq<GrantView>,
    effect: PermissionEffect,
    key: Seq<char>,
) -> bool {
    exists|i: int|
        0 <= i < grants.len() && (#[trigger] grants[i]).1 == effect && pattern_matches(
            grants[i].0,
            key,
        )
}

/// The grants of one scope allow `key`: no deny grant covers it, and some allow
/// grant does. Deny wins over allow.
pub open spec fn scope_allows(grants: Seq<GrantView>, key: Seq<char>) -> bool {
    &&& !has_matching_grant(grants, PermissionEffect::Deny, key)
    &&& has_matching_grant(grants, PermissionEffect::Allow, key)
}

/// Grants grouped by scope allow `key`: some scope allows it.
pub open spec fn scopes_allow(scopes: Map<Seq<char>, Seq<GrantView>>, key: Seq<char>) -> bool {
    exists|s: Seq<char>| #[trigger] scopes.contains_key(s) && scope_allows(scopes[s], key)
}

/// The grants of `grants` whose scope is `scope`, in order, seen from inside that
/// scope.
pub open spec fn grants_in_scope(grants: Seq<PermissionGrant>, scope: Seq<char>) -> Seq<GrantView> {
    grants.filter(|g: PermissionGrant| g.scope@ == scope).map_values(
        |g: PermissionGrant| (g.pattern@, g.effect),
    )
}

/// The scopes that occur in `grants`.
pub open spec fn scopes_of(grants: Seq<PermissionGrant>) -> Set<Seq<char>> {
    Set::new(|s: Seq<char>| exists|i: int| 0 <= i < grants.len() && (#[trigger] grants[i]).scope@ == s)
}

/// `grants` grouped by scope: each scope that occurs maps to its grants, in order.
pub open spec fn group_by_scope(grants: Seq<PermissionGrant>) -> Map<Seq<char>, Seq<GrantView>> {
    Map::new(|s: Seq<char>| scopes_of(grants).contains(s), |s: Seq<char>| grants_in_scope(grants, s))
}

/// The permissions that a set of grants confers, grouped by scope.
#[derive(Debug)]
pub struct EffectivePermissions {
    scopes: Vec<(String, Vec<ScopedPermission>)>,
}

impl EffectivePermissions {
    /// No scope occurs twice, and no scope is without grants.
    #[verifier::type_invariant]
    closed spec fn well_formed(self) -> bool {
        &&& forall|i: int, j: int|
            0 <= i < j < self.scopes@.len() ==> (#[trigger] self.scopes@[i]).0@
                != (#[trigger] self.scopes@[j]).0@
        &&& forall|i: int| 0 <= i < self.scopes@.len() ==> (#[trigger] self.scopes@[i]).1@.len() > 0
    }

    /// The position of `scope` among the groups.
    closed spec fn position_of(self, scope: Seq<char>) -> int {
        choose|i: int| 0 <= i < self.scopes@.len() && (#[trigger] self.scopes@[i]).0@ == scope
    }
}

impl View for EffectivePermissions {
    type V = Map<Seq<char>, Seq<GrantView>>;

    /// Each scope mapped to its grants, in the order they were given.
    closed spec fn view(&self) -> Map<Seq<char>, Seq<GrantView>> {
        Map::new(
            |s: Seq<char>|
                exists|i: int| 0 <= i < self.scopes@.len() && (#[trigger] self.scopes@[i]).0@ == s,
            |s: Seq<char>| self.scopes@[self.position_of(s)].1@.map_values(|p: ScopedPermission| p@),
        )
    }
}

/// Groups `(scope, grant)` pairs by scope through itertools'
/// `Itertools::into_group_map`, and lists the resulting `HashMap`'s entries.
///
/// Claimed of it: each scope of the input occurs once in the result, and no
/// other scope does; each scope's grants are the input's grants of that scope,
/// in input order. The order of the scopes themselves is the map's iteration
/// order, which nothing here fixes.
#[verifier::external_body]
fn group_pairs_by_scope(pairs: Vec<(String, ScopedPermission)>) -> (groups: Vec<
    (String, Vec<ScopedPermission>),
>)
    ensures
        forall|i: int, j: int|
            0 <= i < j < groups@.len() ==> (#[trigger] groups@[i]).0@ != (#[trigger] groups@[j]).0@,
        forall|i: int|
            0 <= i < groups@.len() ==> (#[trigger] groups@[i]).1@.map_values(
                |p: ScopedPermission| p@,
            ) == pairs@.filter(|q: (String, ScopedPermission)| q.0@ == groups@[i].0@).map_values(
                |q: (String, ScopedPermission)| q.1@,
            ),
        forall|i: int| 0 <= i < groups@.len() ==> (#[trigger] groups@[i]).1@.len() > 0,
        forall|k: int|
            0 <= k < pairs@.len() ==> exists|i: int|
                0 <= i < groups@.len() && (#[trigger] groups@[i]).0@ == (#[trigger] pairs@[k]).0@,
{
    pairs.into_iter().into_group_map().into_iter().collect()
}

impl EffectivePermissions {
    /// The group at position `i` holds the grants of its scope.
    proof fn lemma_group_view(self, i: int)
        requires
            self.well_formed(),
            0 <= i < self.scopes@.len(),
        ensures
            self@.contains_key(self.scopes@[i].0@),
            self@[self.scopes@[i].0@] == self.scopes@[i].1@.map_values(|p: ScopedPermission| p@),
    {
        let s = self.scopes@[i].0@;
        assert(self@.contains_key(s));
        let k = self.position_of(s);
        assert(self.scopes@[k].0@ == s);
        if k != i {
            if k < i {
                assert(self.scopes@[k].0@ != self.scopes@[i].0@);
            } else {
                assert(self.scopes@[i].0@ != self.scopes@[k].0@);
            }
        }
    }

    /// Permissions with no grants at all: they allow nothing.
    pub fn empty() -> (r: Self)
        ensures
            r@ == Map::<Seq<char>, Seq<GrantView>>::empty(),
    {
        let r = EffectivePermissions { scopes: Vec::new() };
        assert(r@ =~= Map::<Seq<char>, Seq<GrantView>>::empty());
        r
    }
}

/// Whether some grant of `grants` has effect `effect` and a pattern covering `key`.
fn any_matching(grants: &[ScopedPermission], effect: PermissionEffect, key: &str) -> (r: bool)
    ensures
        r == has_matching_grant(grants@.map_values(|p: ScopedPermission| p@), effect, key@),
{
    let ghost views = grants@.map_values(|p: ScopedPermission| p@);
    let n = grants.len();
    for i in 0..n
        invariant
            n == grants@.len(),
            views == grants@.map_values(|p: ScopedPermission| p@),
            forall|j: int|
                0 <= j < i ==> !((#[trigger] views[j]).1 == effect && pattern_matches(
                    views[j].0,
                    key@,
                )),
    {
        let grant = &grants[i];
        if grant.effect == effect && permission_pattern_matches(grant.pattern.as_str(), key) {
            assert(views[i as int] == grant@);
            return true;
        }
        assert(views[i as int] == grant@);
    }
    false
}

/// Whether the grants of one scope allow `key`: a matching deny refuses it
/// whatever else matches; otherwise a matching allow grants it.
fn allows_in_scope(grants: &[ScopedPermission], permission_key: &str) -> (r: bool)
    ensures
        r == scope_allows(grants@.map_values(|p: ScopedPermission| p@), permission_key@),
{
    let denied = any_matching(grants, PermissionEffect::Deny, permission_key);
    if denied {
        return false;
    }
    any_matching(grants, PermissionEffect::Allow, permission_key)
}

impl EffectivePermissions {
    /// Whether some scope allows `permission_key`.
    pub fn allows(&self, permission_key: &str) -> (r: bool)
        ensures
            r == scopes_allow(self@, permission_key@),
    {
        proof {
            use_type_invariant(self);
        }
        let n = self.scopes.len();
        for i in 0..n
            invariant
                n == self.scopes@.len(),
                self.well_formed(),
                forall|j: int|
                    0 <= j < i ==> !scope_allows(
                        (#[trigger] self.scopes@[j]).1@.map_values(|p: ScopedPermission| p@),
                        permission_key@,
                    ),
        {
            if allows_in_scope(self.scopes[i].1.as_slice(), permission_key) {
                proof {
                    self.lemma_group_view(i as int);
                }
                return true;
            }
        }
        proof {
            if scopes_allow(self@, permission_key@) {
                let s = choose|s: Seq<char>|
                    #[trigger] self@.contains_key(s) && scope_allows(self@[s], permission_key@);
                let k = choose|k: int| 0 <= k < self.scopes@.len() && (#[trigger] self.scopes@[k]).0@ == s;
                self.lemma_group_view(k);
            }
        }
        false
    }
}

/// `pairs` holds, position by position, the scope and the scoped grant of
/// `grants`.
spec fn pairs_of(pairs: Seq<(String, ScopedPermission)>, grants: Seq<PermissionGrant>) -> bool {
    &&& pairs.len() == grants.len()
    &&& forall|j: int|
        0 <= j < grants.len() ==> (#[trigger] pairs[j]).0@ == grants[j].scope@ && pairs[j].1@ == (
            grants[j].pattern@,
            grants[j].effect,
        )
}

/// Filtering the pairs by scope gives the grants of that scope.
proof fn lemma_pairs_in_scope(
    pairs: Seq<(String, ScopedPermission)>,
    grants: Seq<PermissionGrant>,
    s: Seq<char>,
)
    requires
        pairs_of(pairs, grants),
    ensures
        pairs.filter(|q: (String, ScopedPermission)| q.0@ == s).map_values(
            |q: (String, ScopedPermission)| q.1@,
        ) == grants_in_scope(grants, s),
    decreases grants.len(),
{
    reveal(Seq::filter);
    if grants.len() > 0 {
        let pairs0 = pairs.drop_last();
        let grants0 = grants.drop_last();
        assert(pairs_of(pairs0, grants0)) by {
            assert forall|j: int| 0 <= j < grants0.len() implies (#[trigger] pairs0[j]).0@
                == grants0[j].scope@ && pairs0[j].1@ == (grants0[j].pattern@, grants0[j].effect) by {
                assert(pairs[j] == pairs0[j]);
            }
        }
        lemma_pairs_in_scope(pairs0, grants0, s);
        let pf = pairs.filter(|q: (String, ScopedPermission)| q.0@ == s);
        let gf = grants.filter(|g: PermissionGrant| g.scope@ == s);
        let pf0 = pairs0.filter(|q: (String, ScopedPermission)| q.0@ == s);
        let gf0 = grants0.filter(|g: PermissionGrant| g.scope@ == s);
        assert(pairs.last() == pairs[pairs.len() - 1]);
        if pairs.last().0@ == s {
            assert(pf == pf0.push(pairs.last()));
            assert(gf == gf0.push(grants.last()));
            assert(pf.map_values(|q: (String, ScopedPermission)| q.1@) =~= pf0.map_values(
                |q: (String, ScopedPermission)| q.1@,
            ).push(pairs.last().1@));
            assert(gf.map_values(|g: PermissionGrant| (g.pattern@, g.effect)) =~= gf0.map_values(
                |g: PermissionGrant| (g.pattern@, g.effect),
            ).push((grants.last().pattern@, grants.last().effect)));
        } else {
            assert(pf == pf0);
            assert(gf == gf0);
        }
    }
}

impl EffectivePermissions {
    /// The permissions that `grants` confer: the grants grouped by scope, each
    /// scope keeping its grants in the order given.
    pub fn from_grants(grants: Vec<PermissionGrant>) -> (r: Self)
        ensures
            r@ == group_by_scope(grants@),
    {
        let ghost given = grants@;
        let mut pairs: Vec<(String, ScopedPermission)> = Vec::new();
        for grant in it: grants.into_iter()
            invariant
                it.seq() == given,
                pairs_of(pairs@, given.take(it.index() as int)),
        {
            let ghost before = pairs@;
            pairs.push((grant.scope, ScopedPermission { pattern: grant.pattern, effect: grant.effect }));
            proof {
                let taken = given.take(it.index() + 1);
                assert forall|j: int| 0 <= j < taken.len() implies (#[trigger] pairs@[j]).0@
                    == taken[j].scope@ && pairs@[j].1@ == (taken[j].pattern@, taken[j].effect) by {
                    if j < before.len() {
                        assert(pairs@[j] == before[j]);
                        assert(taken[j] == given.take(it.index() as int)[j]);
                    }
                }
            }
        }
        assert(given.take(given.len() as int) =~= given);
        let ghost paired = pairs@;
        let groups = group_pairs_by_scope(pairs);
        let r = EffectivePermissions { scopes: groups };
        proof {
            let target = group_by_scope(given);
            assert forall|s: Seq<char>| r@.contains_key(s) <==> target.contains_key(s) by {
                if r@.contains_key(s) {
                    let i = choose|i: int| 0 <= i < r.scopes@.len() && (#[trigger] r.scopes@[i]).0@ == s;
                    let pred = |q: (String, ScopedPermission)| q.0@ == s;
                    let pf = paired.filter(pred);
                    assert(pf.map_values(|q: (String, ScopedPermission)| q.1@).len() > 0);
                    paired.lemma_filter_pred(pred, 0);
                    paired.lemma_filter_contains_rev(pred, pf[0]);
                    let k = choose|k: int| 0 <= k < paired.len() && paired[k] == pf[0];
                    assert(given[k].scope@ == s);
                }
                if target.contains_key(s) {
                    let k = choose|k: int| 0 <= k < given.len() && (#[trigger] given[k]).scope@ == s;
                    assert(paired[k].0@ == s);
                }
            }
            assert forall|s: Seq<char>| r@.contains_key(s) implies r@[s] == target[s] by {
                let i = choose|i: int| 0 <= i < r.scopes@.len() && (#[trigger] r.scopes@[i]).0@ == s;
                r.lemma_group_view(i);
                lemma_pairs_in_scope(paired, given, s);
                let g = r.scopes@[i].0@;
                assert((|q: (String, ScopedPermission)| q.0@ == g) =~= (|q: (String, ScopedPermission)|
                    q.0@ == s));
                assert(target.contains_key(s));
            }
            assert(r@ =~= target);
        }
        r
    }
}

/// Some grant of `grants` with scope `scope` and effect `effect` covers `key`.
pub open spec fn scope_has_matching(
    grants: Seq<PermissionGrant>,
    scope: Seq<char>,
    effect: PermissionEffect,
    key: Seq<char>,
) -> bool {
    exists|i: int|
        0 <= i < grants.len() && (#[trigger] grants[i]).scope@ == scope && grants[i].effect == effect
            && pattern_matches(grants[i].pattern@, key)
}

/// A grant of a scope's group covers a key exactly when one of the scope's grants
/// in the original list does.
proof fn lemma_matching_in_scope(
    grants: Seq<PermissionGrant>,
    scope: Seq<char>,
    effect: PermissionEffect,
    key: Seq<char>,
)
    ensures
        has_matching_grant(grants_in_scope(grants, scope), effect, key) <==> scope_has_matching(
            grants,
            scope,
            effect,
            key,
        ),
    decreases grants.len(),
{
    reveal(Seq::filter);
    if grants.len() > 0 {
        let g0 = grants.drop_last();
        lemma_matching_in_scope(g0, scope, effect, key);
        let last = grants.last();
        let f = grants_in_scope(grants, scope);
        let f0 = grants_in_scope(g0, scope);
        if last.scope@ == scope {
            assert(f =~= f0.push((last.pattern@, last.effect)));
        } else {
            assert(f =~= f0);
        }
        if scope_has_matching(g0, scope, effect, key) {
            let i = choose|i: int|
                0 <= i < g0.len() && (#[trigger] g0[i]).scope@ == scope && g0[i].effect == effect
                    && pattern_matches(g0[i].pattern@, key);
            assert(grants[i] == g0[i]);
        }
        if scope_has_matching(grants, scope, effect, key) {
            let i = choose|i: int|
                0 <= i < grants.len() && (#[trigger] grants[i]).scope@ == scope && grants[i].effect
                    == effect && pattern_matches(grants[i].pattern@, key);
            if i < g0.len() {
                assert(g0[i] == grants[i]);
            } else {
                assert(f[f.len() - 1] == (last.pattern@, last.effect));
            }
        }
        if has_matching_grant(f, effect, key) {
            let j = choose|j: int|
                0 <= j < f.len() && (#[trigger] f[j]).1 == effect && pattern_matches(f[j].0, key);
            if j < f0.len() {
                assert(f0[j] == f[j]);
            }
        }
        if has_matching_grant(f0, effect, key) {
            let j = choose|j: int|
                0 <= j < f0.len() && (#[trigger] f0[j]).1 == effect && pattern_matches(f0[j].0, key);
            assert(f[j] == f0[j]);
        }
    }
}

/// Deny wins over allow within a scope: the permissions that `grants` confer
/// allow `key` exactly when some scope of `grants` has an allow grant covering
/// `key` and no deny grant covering it.
pub proof fn lemma_allowed_iff_scope_allows(grants: Seq<PermissionGrant>, key: Seq<char>)
    ensures
        scopes_allow(group_by_scope(grants), key) <==> exists|s: Seq<char>|
            #[trigger] scopes_of(grants).contains(s) && scope_has_matching(
                grants,
                s,
                PermissionEffect::Allow,
                key,
            ) && !scope_has_matching(grants, s, PermissionEffect::Deny, key),
{
    let m = group_by_scope(grants);
    if scopes_allow(m, key) {
        let s = choose|s: Seq<char>| #[trigger] m.contains_key(s) && scope_allows(m[s], key);
        lemma_matching_in_scope(grants, s, PermissionEffect::Allow, key);
        lemma_matching_in_scope(grants, s, PermissionEffect::Deny, key);
        assert(scopes_of(grants).contains(s));
    }
    if exists|s: Seq<char>|
        #[trigger] scopes_of(grants).contains(s) && scope_has_matching(
            grants,
            s,
            PermissionEffect::Allow,
            key,
        ) && !scope_has_matching(grants, s, PermissionEffect::Deny, key) {
        let s = choose|s: Seq<char>|
            #[trigger] scopes_of(grants).contains(s) && scope_has_matching(
                grants,
                s,
                PermissionEffect::Allow,
                key,
            ) && !scope_has_matching(grants, s, PermissionEffect::Deny, key);
        lemma_matching_in_scope(grants, s, PermissionEffect::Allow, key);
        lemma_matching_in_scope(grants, s, PermissionEffect::Deny, key);
        assert(m.contains_key(s));
    }
}

/// A deny grant overrides every allow grant of its own scope: when a deny grant
/// of `grants` covers `key` and every grant of `grants` shares its scope, the
/// permissions that `grants` confer do not allow `key`.
pub proof fn lemma_deny_wins_in_single_scope(grants: Seq<PermissionGrant>, key: Seq<char>, d: int)
    requires
        0 <= d < grants.len(),
        grants[d].effect == PermissionEffect::Deny,
        pattern_matches(grants[d].pattern@, key),
        forall|i: int| 0 <= i < grants.len() ==> (#[trigger] grants[i]).scope@ == grants[d].scope@,
    ensures
        !scopes_allow(group_by_scope(grants), key),
{
    lemma_allowed_iff_scope_allows(grants, key);
    assert forall|s: Seq<char>| #[trigger] scopes_of(grants).contains(s) implies scope_has_matching(
        grants,
        s,
        PermissionEffect::Deny,
        key,
    ) by {
        let i = choose|i: int| 0 <= i < grants.len() && (#[trigger] grants[i]).scope@ == s;
        assert(grants[d].scope@ == s);
    }
}

/// Permissions built from no grants allow no key.
pub proof fn lemma_no_grants_allow_nothing(key: Seq<char>)
    ensures
        !scopes_allow(Map::<Seq<char>, Seq<GrantView>>::empty(), key),
        group_by_scope(Seq::<PermissionGrant>::empty()) == Map::<Seq<char>, Seq<GrantView>>::empty(),
{
    assert(group_by_scope(Seq::<PermissionGrant>::empty()) =~= Map::<Seq<char>, Seq<GrantView>>::empty());
}

impl Default for EffectivePermissions {
    fn default() -> (r: Self)
        ensures
            r@ == Map::<Seq<char>, Seq<GrantView>>::empty(),
    {
        Self::empty()
    }
}

impl Clone for EffectivePermissions {
    fn clone(&self) -> (r: Self)
        ensures
            r@ == self@,
    {
        proof {
            use_type_invariant(self);
        }
        let mut scopes: Vec<(String, Vec<ScopedPermission>)> = Vec::new();
        let n = self.scopes.len();
        for i in 0..n
            invariant
                n == self.scopes@.len(),
                scopes@.len() == i,
                forall|j: int|
                    0 <= j < i ==> (#[trigger] scopes@[j]).0@ == self.scopes@[j].0@ && scopes@[j].1@.map_values(
                        |p: ScopedPermission| p@,
                    ) == self.scopes@[j].1@.map_values(|p: ScopedPermission| p@),
        {
            let grants = self.scopes[i].1.clone();
            assert(grants@.map_values(|p: ScopedPermission| p@) =~= self.scopes@[i as int].1@.map_values(
                |p: ScopedPermission| p@,
            ));
            scopes.push((self.scopes[i].0.clone(), grants));
        }
        let r = EffectivePermissions { scopes };
        assert forall|j: int| 0 <= j < r.scopes@.len() implies (#[trigger] r.scopes@[j]).1@.len() > 0 by {
            assert(r.scopes@[j].1@.map_values(|p: ScopedPermission| p@).len() == self.scopes@[j].1@.map_values(|p: ScopedPermission| p@).len());
        }
        assert forall|s: Seq<char>| r@.contains_key(s) <==> self@.contains_key(s) by {
            if r@.contains_key(s) {
                let k = choose|k: int| 0 <= k < r.scopes@.len() && (#[trigger] r.scopes@[k]).0@ == s;
                assert(self.scopes@[k].0@ == s);
            }
            if self@.contains_key(s) {
                let k = choose|k: int| 0 <= k < self.scopes@.len() && (#[trigger] self.scopes@[k]).0@ == s;
                assert(r.scopes@[k].0@ == s);
            }
        }
        assert forall|s: Seq<char>| r@.contains_key(s) implies r@[s] == self@[s] by {
            let k = choose|k: int| 0 <= k < r.scopes@.len() && (#[trigger] r.scopes@[k]).0@ == s;
            r.lemma_group_view(k);
            self.lemma_group_view(k);
        }
        assert(r@ =~= self@);
        r
    }
}

} // verus!
