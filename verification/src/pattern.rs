//! Matching of permission patterns (`*`, `Domain.*`, `*.Action`,
//! `Domain.Action`) against concrete permission keys.

use vstd::prelude::*;

use crate::text::chars_of;

verus! {

/// `i` is the position of the first `.` in `s`.
pub open spec fn is_first_dot(s: Seq<char>, i: int) -> bool {
    &&& 0 <= i < s.len()
    &&& s[i] == '.'
    &&& forall|j: int| 0 <= j < i ==> s[j] != '.'
}

/// Splitting `s` once at its first `.`: the text before it and the text after it,
/// or `None` when `s` has no `.`.
pub open spec fn split_at_first_dot(s: Seq<char>) -> Option<(Seq<char>, Seq<char>)> {
    if exists|i: int| is_first_dot(s, i) {
        let i = choose|i: int| is_first_dot(s, i);
        Some((s.take(i), s.skip(i + 1)))
    } else {
        None
    }
}

/// The one-character text `*`.
pub open spec fn star() -> Seq<char> {
    seq!['*']
}

/// When `pattern` covers the permission key `concrete`.
///
/// `*` covers every key. Otherwise both are split at their first `.`, and a key
/// without a `.` is covered by nothing else, nor is any key by a pattern
/// without a `.`. A pattern `*.A` covers the keys whose action is `A`; failing
/// that, `M.*` covers the keys whose domain is `M`; failing that, `M.A` covers
/// the key with domain `M` and action `A`.
pub open spec fn pattern_matches(pattern: Seq<char>, concrete: Seq<char>) -> bool {
    if pattern == star() {
        true
    } else {
        match split_at_first_dot(concrete) {
            None => false,
            Some((module, action)) => match split_at_first_dot(pattern) {
                None => false,
                Some((m, a)) => if m == star() {
                    action == a
                } else if a == star() {
                    module == m
                } else {
                    m == module && a == action
                },
            },
        }
    }
}

/// The first dot of `s` is unique.
proof fn lemma_first_dot_unique(s: Seq<char>, i: int, j: int)
    requires
        is_first_dot(s, i),
        is_first_dot(s, j),
    ensures
        i == j,
{
}

/// Finds the first `.` in `s`.
fn find_first_dot(s: &Vec<char>) -> (r: Option<usize>)
    ensures
        match r {
            Some(i) => is_first_dot(s@, i as int),
            None => forall|j: int| 0 <= j < s@.len() ==> s@[j] != '.',
        },
{
    let mut i: usize = 0;
    while i < s.len()
        invariant
            i <= s.len(),
            forall|j: int| 0 <= j < i ==> s@[j] != '.',
        decreases s.len() - i,
    {
        if s[i] == '.' {
            return Some(i);
        }
        i = i + 1;
    }
    None
}

/// The split of `s` at its first `.`, as the position of that `.`.
pub(crate) fn split_position(s: &Vec<char>) -> (r: Option<usize>)
    ensures
        match r {
            Some(i) => i < s@.len() && split_at_first_dot(s@) == Some(
                (s@.take(i as int), s@.skip(i + 1)),
            ),
            None => split_at_first_dot(s@) is None,
        },
{
    let r = find_first_dot(s);
    match r {
        Some(i) => {
            proof {
                let k = choose|k: int| is_first_dot(s@, k);
                lemma_first_dot_unique(s@, i as int, k);
            }
            Some(i)
        },
        None => None,
    }
}

/// Whether `a[alo..ahi]` and `b[blo..bhi]` hold the same characters.
pub(crate) fn ranges_equal(a: &Vec<char>, alo: usize, ahi: usize, b: &Vec<char>, blo: usize, bhi: usize) -> (r:
    bool)
    requires
        alo <= ahi <= a@.len(),
        blo <= bhi <= b@.len(),
    ensures
        r == (a@.subrange(alo as int, ahi as int) == b@.subrange(blo as int, bhi as int)),
{
    if ahi - alo != bhi - blo {
        assert(a@.subrange(alo as int, ahi as int).len() != b@.subrange(blo as int, bhi as int).len());
        return false;
    }
    let n = ahi - alo;
    let mut k: usize = 0;
    while k < n
        invariant
            n == ahi - alo,
            n == bhi - blo,
            alo <= ahi <= a@.len(),
            blo <= bhi <= b@.len(),
            k <= n,
            forall|j: int|
                0 <= j < k ==> #[trigger] a@.subrange(alo as int, ahi as int)[j] == b@.subrange(
                    blo as int,
                    bhi as int,
                )[j],
        decreases n - k,
    {
        if a[alo + k] != b[blo + k] {
            assert(a@.subrange(alo as int, ahi as int)[k as int] != b@.subrange(
                blo as int,
                bhi as int,
            )[k as int]);
            return false;
        }
        k = k + 1;
    }
    assert(a@.subrange(alo as int, ahi as int) =~= b@.subrange(blo as int, bhi as int));
    true
}

/// Whether `s[lo..hi]` is the text `*`.
fn range_is_star(s: &Vec<char>, lo: usize, hi: usize) -> (r: bool)
    requires
        lo <= hi <= s@.len(),
    ensures
        r == (s@.subrange(lo as int, hi as int) == star()),
{
    if hi - lo == 1 && s[lo] == '*' {
        assert(s@.subrange(lo as int, hi as int) =~= star());
        true
    } else {
        assert(star().len() == 1 && star()[0] == '*');
        assert(hi - lo == 1 ==> s@.subrange(lo as int, hi as int)[0] == s@[lo as int]);
        false
    }
}

/// Whether `pattern` covers the permission key `concrete` (see
/// [`pattern_matches`]).
pub fn permission_pattern_matches(pattern: &str, concrete: &str) -> (r: bool)
    ensures
        r == pattern_matches(pattern@, concrete@),
{
    let p = chars_of(pattern);
    let c = chars_of(concrete);
    let plen = p.len();
    let clen = c.len();
    if range_is_star(&p, 0, plen) {
        assert(p@.subrange(0, plen as int) =~= p@);
        return true;
    }
    assert(p@.subrange(0, plen as int) =~= p@);
    let ci = match split_position(&c) {
        None => return false,
        Some(ci) => ci,
    };
    let pi = match split_position(&p) {
        None => return false,
        Some(pi) => pi,
    };
    assert(c@.take(ci as int) =~= c@.subrange(0, ci as int));
    assert(c@.skip(ci + 1) =~= c@.subrange(ci + 1, clen as int));
    assert(p@.take(pi as int) =~= p@.subrange(0, pi as int));
    assert(p@.skip(pi + 1) =~= p@.subrange(pi + 1, plen as int));
    if range_is_star(&p, 0, pi) {
        ranges_equal(&c, ci + 1, clen, &p, pi + 1, plen)
    } else if range_is_star(&p, pi + 1, plen) {
        ranges_equal(&c, 0, ci, &p, 0, pi)
    } else {
        ranges_equal(&p, 0, pi, &c, 0, ci) && ranges_equal(&p, pi + 1, plen, &c, ci + 1, clen)
    }
}

/// Splitting `m . a` at its first dot, when `m` has no dot, gives `m` and `a`.
pub proof fn lemma_split_joined(m: Seq<char>, a: Seq<char>)
    requires
        !m.contains('.'),
    ensures
        split_at_first_dot(m + seq!['.'] + a) == Some((m, a)),
{
    let s = m + seq!['.'] + a;
    let n = m.len() as int;
    assert(s[n] == '.');
    assert forall|j: int| 0 <= j < n implies s[j] != '.' by {
        assert(s[j] == m[j]);
    }
    assert(is_first_dot(s, n));
    let k = choose|k: int| is_first_dot(s, k);
    lemma_first_dot_unique(s, n, k);
    assert(s.take(n) =~= m);
    assert(s.skip(n + 1) =~= a);
}

/// The pattern `*` covers every key.
pub proof fn lemma_star_covers_every_key(concrete: Seq<char>)
    ensures
        pattern_matches(star(), concrete),
{
}

/// A key that holds a `.` is covered by the pattern spelled as itself.
pub proof fn lemma_dotted_key_covers_itself(key: Seq<char>)
    requires
        key.contains('.'),
    ensures
        pattern_matches(key, key),
{
    let i = choose|i: int| 0 <= i < key.len() && key[i] == '.';
    assert(exists|f: int| is_first_dot(key, f)) by {
        lemma_first_dot_exists(key, i);
    }
}

/// A `.` at position `i` means that `s` has a first `.`.
proof fn lemma_first_dot_exists(s: Seq<char>, i: int)
    requires
        0 <= i < s.len(),
        s[i] == '.',
    ensures
        exists|f: int| is_first_dot(s, f),
    decreases i,
{
    if exists|j: int| 0 <= j < i && s[j] == '.' {
        let j = choose|j: int| 0 <= j < i && s[j] == '.';
        lemma_first_dot_exists(s, j);
    } else {
        assert(is_first_dot(s, i));
    }
}

/// A key without a `.` is covered by the pattern `*` and by no other.
pub proof fn lemma_undotted_key_only_star(pattern: Seq<char>, key: Seq<char>)
    requires
        !key.contains('.'),
    ensures
        pattern_matches(pattern, key) <==> pattern == star(),
{
    if exists|f: int| is_first_dot(key, f) {
        let f = choose|f: int| is_first_dot(key, f);
        assert(key[f] == '.');
    }
}

/// For a domain `m` without `.` other than `*`, the pattern `m.*` covers exactly
/// the keys whose domain is `m`.
pub proof fn lemma_domain_wildcard(m: Seq<char>, key: Seq<char>)
    requires
        !m.contains('.'),
        m != star(),
    ensures
        pattern_matches(m + seq!['.', '*'], key) <==> (match split_at_first_dot(key) {
            Some((module, _)) => module == m,
            None => false,
        }),
{
    let p = m + seq!['.', '*'];
    assert(p =~= m + seq!['.'] + star());
    lemma_split_joined(m, star());
    if p == star() {
        assert(p.len() == star().len());
    }
}

/// An exact pattern covers only the key spelled as itself: for domains `m` and
/// `k` without `.`, with `m` other than `*` and the action `a` other than `*`,
/// the pattern `m.a` covers the key `k.b` exactly when `m == k` and `a == b`.
/// A key whose action merely begins with `a` is not covered.
pub proof fn lemma_exact_pattern(m: Seq<char>, a: Seq<char>, k: Seq<char>, b: Seq<char>)
    requires
        !m.contains('.'),
        !k.contains('.'),
        m != star(),
        a != star(),
    ensures
        pattern_matches(m + seq!['.'] + a, k + seq!['.'] + b) <==> (m == k && a == b),
{
    lemma_split_joined(m, a);
    lemma_split_joined(k, b);
    let p = m + seq!['.'] + a;
    assert(p[m.len() as int] == '.');
    if p == star() {
        assert(p.len() == 1);
        assert(p[0] == '*');
    }
}

/// For a domain `k` without `.`, the pattern `*.a` covers the key `k.b` exactly
/// when `b == a`, whatever the domain.
pub proof fn lemma_action_wildcard(a: Seq<char>, k: Seq<char>, b: Seq<char>)
    requires
        !k.contains('.'),
    ensures
        pattern_matches(star() + seq!['.'] + a, k + seq!['.'] + b) <==> a == b,
{
    assert(!star().contains('.')) by {
        assert(star().len() == 1 && star()[0] == '*');
    }
    lemma_split_joined(star(), a);
    lemma_split_joined(k, b);
    let p = star() + seq!['.'] + a;
    assert(p.len() >= 2);
    assert(p != star());
}

} // verus!
