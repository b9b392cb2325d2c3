//! The registry of permission entries: each registered entry, plus one
//! synthetic `Domain.*` entry per domain, and the sorted list of their names.

use std::borrow::Cow;

use vstd::prelude::*;
use vstd::utf8::encode_utf8;

use itertools::Itertools;
use vstd::string::{StrSliceExecFns, StringExecFns};

use crate::text::{chars_of, cow_text, same_text};

verus! {

/// Static metadata about a single permission variant: its name, the enum that
/// declares it, and the roles that hold it by default.
#[derive(Debug)]
pub struct PermissionEntry {
    pub name: Cow<'static, str>,
    pub enum_name: &'static str,
    pub roles: &'static [&'static str],
}

/// Schema marker for a permission name string: a field typed by it holds one of
/// the names that [`all_permission_names`] lists. It is never built outside
/// this crate.
pub struct PermissionName {
    unconstructible: (),
}

/// An entry as plain text: name, enum name, roles.
pub type EntryView = (Seq<char>, Seq<char>, Seq<Seq<char>>);

impl View for PermissionEntry {
    type V = EntryView;

    open spec fn view(&self) -> EntryView {
        (self.name@, self.enum_name@, self.roles@.map_values(|r: &str| r@))
    }
}

impl Clone for PermissionEntry {
    fn clone(&self) -> (r: Self)
        ensures
            r@ == self@,
    {
        let name = match &self.name {
            Cow::Borrowed(b) => Cow::Borrowed(*b),
            Cow::Owned(o) => Cow::Owned(o.clone()),
        };
        PermissionEntry { name, enum_name: self.enum_name, roles: self.roles }
    }
}

/// The views of a list of entries.
pub open spec fn entry_views(entries: Seq<PermissionEntry>) -> Seq<EntryView> {
    entries.map_values(|e: PermissionEntry| e@)
}

/// `i` is the position of the first `c` in `s`.
pub open spec fn is_first_of(s: Seq<char>, c: char, i: int) -> bool {
    &&& 0 <= i < s.len()
    &&& s[i] == c
    &&& forall|j: int| 0 <= j < i ==> s[j] != c
}

/// `s` cut just after its first `c`, or `None` when `s` has no `c`.
pub open spec fn prefix_through(s: Seq<char>, c: char) -> Option<Seq<char>> {
    if exists|i: int| is_first_of(s, c, i) {
        let i = choose|i: int| is_first_of(s, c, i);
        Some(s.take(i + 1))
    } else {
        None
    }
}

/// The domain part of a name, up to and including its separator: the first
/// `.` as in `Domain.Action`, or, in a name without `.`, the first `:` as in
/// `action:domain`; `None` for a name with neither.
pub open spec fn domain_prefix(name: Seq<char>) -> Option<Seq<char>> {
    match prefix_through(name, '.') {
        Some(prefix) => Some(prefix),
        None => prefix_through(name, ':'),
    }
}

/// The synthetic entry for the domain of `e`: for a name `Domain.Action` the
/// name `Domain.*`, for `action:domain` the name `action:*` (the domain part,
/// then `*`), with the same enum and no roles; nothing for a name with neither
/// `.` nor `:`.
pub open spec fn wildcard_for(e: EntryView) -> Option<EntryView> {
    match domain_prefix(e.0) {
        Some(prefix) => Some((prefix + seq!['*'], e.1, Seq::empty())),
        None => None,
    }
}

/// The first `c` is unique.
proof fn lemma_first_of_unique(s: Seq<char>, c: char, i: int, j: int)
    requires
        is_first_of(s, c, i),
        is_first_of(s, c, j),
    ensures
        i == j,
{
}

/// Finds the first `c` in `s`.
fn find_first(s: &Vec<char>, c: char) -> (r: Option<usize>)
    ensures
        match r {
            Some(i) => i < s@.len() && prefix_through(s@, c) == Some(s@.take(i + 1)),
            None => prefix_through(s@, c) is None,
        },
{
    let mut i: usize = 0;
    while i < s.len()
        invariant
            i <= s.len(),
            forall|j: int| 0 <= j < i ==> s@[j] != c,
        decreases s.len() - i,
    {
        if s[i] == c {
            proof {
                assert(is_first_of(s@, c, i as int));
                let k = choose|k: int| is_first_of(s@, c, k);
                lemma_first_of_unique(s@, c, i as int, k);
            }
            return Some(i);
        }
        i = i + 1;
    }
    proof {
        if exists|k: int| is_first_of(s@, c, k) {
            let k = choose|k: int| is_first_of(s@, c, k);
            assert(s@[k] == c);
        }
    }
    None
}

/// The position of the character that ends the domain part of `s` (see
/// [`domain_prefix`]).
fn find_domain_end(s: &Vec<char>) -> (r: Option<usize>)
    ensures
        match r {
            Some(i) => i < s@.len() && domain_prefix(s@) == Some(s@.take(i + 1)),
            None => domain_prefix(s@) is None,
        },
{
    match find_first(s, '.') {
        Some(i) => Some(i),
        None => find_first(s, ':'),
    }
}

/// The names of a list of entries.
pub open spec fn names_of(s: Seq<EntryView>) -> Seq<Seq<char>> {
    s.map_values(|e: EntryView| e.0)
}

/// The entries of `s` whose name did not occur earlier in `s`, in order.
pub open spec fn first_by_name(s: Seq<EntryView>) -> Seq<EntryView>
    decreases s.len(),
{
    if s.len() == 0 {
        s
    } else {
        let kept = first_by_name(s.drop_last());
        if names_of(s.drop_last()).contains(s.last().0) {
            kept
        } else {
            kept.push(s.last())
        }
    }
}

/// The synthetic domain entries of `entries`: one per domain name, the first
/// that arises, in order of first appearance.
pub open spec fn wildcard_entries(entries: Seq<EntryView>) -> Seq<EntryView> {
    first_by_name(entries.filter_map(|e: EntryView| wildcard_for(e)))
}

/// Every registered entry, in order, followed by the synthetic domain entries.
pub open spec fn with_wildcards(entries: Seq<EntryView>) -> Seq<EntryView> {
    entries + wildcard_entries(entries)
}

/// `first_by_name` keeps exactly the names of its input.
proof fn lemma_first_by_name_names(s: Seq<EntryView>)
    ensures
        names_of(first_by_name(s)).to_set() == names_of(s).to_set(),
        names_of(first_by_name(s)).no_duplicates(),
    decreases s.len(),
{
    if s.len() > 0 {
        let s0 = s.drop_last();
        lemma_first_by_name_names(s0);
        let k0 = first_by_name(s0);
        assert(names_of(s) =~= names_of(s0).push(s.last().0));
        names_of(s0).lemma_push_to_set_commute(s.last().0);
        names_of(k0).lemma_push_to_set_commute(s.last().0);
        if !names_of(s0).contains(s.last().0) {
            assert(names_of(k0.push(s.last())) =~= names_of(k0).push(s.last().0));
            assert(!names_of(k0).to_set().contains(s.last().0));
            assert(names_of(k0.push(s.last())).to_set() =~= names_of(k0).to_set().insert(s.last().0));
            assert(names_of(s).to_set() =~= names_of(s0).to_set().insert(s.last().0));
        } else {
            assert(names_of(s0).to_set().contains(s.last().0));
            assert(names_of(s).to_set() =~= names_of(s0).to_set().insert(s.last().0));
        }
    }
}

/// Every entry that `first_by_name` keeps comes from its input.
proof fn lemma_first_by_name_from_input(s: Seq<EntryView>, j: int)
    requires
        0 <= j < first_by_name(s).len(),
    ensures
        s.contains(first_by_name(s)[j]),
    decreases s.len(),
{
    let s0 = s.drop_last();
    let k0 = first_by_name(s0);
    if j < k0.len() {
        lemma_first_by_name_from_input(s0, j);
        let t = choose|t: int| 0 <= t < s0.len() && s0[t] == k0[j];
        assert(s[t] == s0[t]);
    } else {
        assert(first_by_name(s)[j] == s[s.len() - 1]);
    }
}

/// What an input element maps to occurs in the output of `filter_map`.
proof fn lemma_filter_map_keeps(s: Seq<EntryView>, k: int)
    requires
        0 <= k < s.len(),
        wildcard_for(s[k]) is Some,
    ensures
        s.filter_map(|e: EntryView| wildcard_for(e)).contains(wildcard_for(s[k])->0),
    decreases s.len(),
{
    let f = |e: EntryView| wildcard_for(e);
    let s0 = s.drop_last();
    let w = wildcard_for(s[k])->0;
    if k < s0.len() {
        lemma_filter_map_keeps(s0, k);
        let t = choose|t: int| 0 <= t < s0.filter_map(f).len() && s0.filter_map(f)[t] == w;
        match f(s.last()) {
            Some(x) => assert(s.filter_map(f)[t] == w),
            None => assert(s.filter_map(f)[t] == w),
        }
    } else {
        assert(s.last() == s[k]);
        let out = s.filter_map(f);
        assert(out[out.len() - 1] == w);
    }
}

/// The synthetic domain entries: every entry whose name has a domain part (as
/// `Domain.Action` or `action:domain`) has one among them named by that part and
/// `*` (as `Domain.*`); each of them is so named after some registered entry, with that
/// entry's enum and no roles; and no two share a name.
pub proof fn lemma_wildcard_entries(entries: Seq<EntryView>)
    ensures
        forall|k: int|
            0 <= k < entries.len() && (#[trigger] domain_prefix(entries[k].0)) is Some
                ==> names_of(wildcard_entries(entries)).contains(
                domain_prefix(entries[k].0)->0 + seq!['*'],
            ),
        forall|j: int|
            0 <= j < wildcard_entries(entries).len() ==> (#[trigger] wildcard_entries(entries)[j]).2
                == Seq::<Seq<char>>::empty() && exists|k: int|
                0 <= k < entries.len() && wildcard_for(entries[k]) == Some(
                    wildcard_entries(entries)[j],
                ),
        names_of(wildcard_entries(entries)).no_duplicates(),
{
    let f = |e: EntryView| wildcard_for(e);
    let mapped = entries.filter_map(f);
    lemma_first_by_name_names(mapped);
    assert forall|k: int|
        0 <= k < entries.len() && (#[trigger] domain_prefix(entries[k].0)) is Some implies names_of(
        wildcard_entries(entries),
    ).contains(domain_prefix(entries[k].0)->0 + seq!['*']) by {
        lemma_filter_map_keeps(entries, k);
        let w = wildcard_for(entries[k])->0;
        let t = choose|t: int| 0 <= t < mapped.len() && mapped[t] == w;
        assert(names_of(mapped)[t] == w.0);
        assert(names_of(mapped).to_set().contains(w.0));
        assert(names_of(wildcard_entries(entries)).to_set().contains(w.0));
    }
    assert forall|j: int| 0 <= j < wildcard_entries(entries).len() implies (#[trigger] wildcard_entries(
        entries,
    )[j]).2 == Seq::<Seq<char>>::empty() && exists|k: int|
        0 <= k < entries.len() && wildcard_for(entries[k]) == Some(wildcard_entries(entries)[j]) by {
        let w = wildcard_entries(entries)[j];
        lemma_first_by_name_from_input(mapped, j);
        entries.lemma_filter_map_contains(f, w);
        let t = choose|t: EntryView| #[trigger] entries.contains(t) && f(t) == Some(w);
        let k = choose|k: int| 0 <= k < entries.len() && entries[k] == t;
    }
}

/// The domain of a registered name `m.a`, where `m` has no `.`, is `m`, the text
/// before the first `.`, whatever the action `a` holds: the list of every
/// permission holds exactly one synthetic entry named `m.*`, after the
/// registered entries.
pub proof fn lemma_dotted_name_wildcard(entries: Seq<EntryView>, k: int, m: Seq<char>, a: Seq<char>)
    requires
        0 <= k < entries.len(),
        entries[k].0 == m + seq!['.'] + a,
        !m.contains('.'),
    ensures
        exists|j: int|
            entries.len() <= j < with_wildcards(entries).len() && (#[trigger] with_wildcards(
                entries,
            )[j]).0 == m + seq!['.', '*'] && forall|i: int|
                entries.len() <= i < with_wildcards(entries).len() && (#[trigger] with_wildcards(
                    entries,
                )[i]).0 == m + seq!['.', '*'] ==> i == j,
{
    lemma_prefix_through_joined(m, '.', a);
    assert(domain_prefix(entries[k].0) == Some(m + seq!['.']));
    let name = m + seq!['.', '*'];
    assert(m + seq!['.'] + seq!['*'] =~= name);
    lemma_single_wildcard(entries, k, name);
}

/// The name `m` + `c` + `a`, where `m` has no `c`, is cut just after `m` + `c`.
proof fn lemma_prefix_through_joined(m: Seq<char>, c: char, a: Seq<char>)
    requires
        !m.contains(c),
    ensures
        prefix_through(m + seq![c] + a, c) == Some(m + seq![c]),
{
    let s = m + seq![c] + a;
    let n = m.len() as int;
    assert(s[n] == c);
    assert forall|j: int| 0 <= j < n implies s[j] != c by {
        assert(s[j] == m[j]);
    }
    assert(is_first_of(s, c, n));
    let f = choose|f: int| is_first_of(s, c, f);
    lemma_first_of_unique(s, c, n, f);
    assert(s.take(n + 1) =~= m + seq![c]);
}

/// A registered name `m:a` without `.`, where `m` has no `:`, has the domain part
/// `m:`, up to its first `:`, whatever the rest holds: the list of every
/// permission holds exactly one synthetic entry named `m:*`, after the
/// registered entries.
pub proof fn lemma_colon_name_wildcard(entries: Seq<EntryView>, k: int, m: Seq<char>, a: Seq<char>)
    requires
        0 <= k < entries.len(),
        entries[k].0 == m + seq![':'] + a,
        !entries[k].0.contains('.'),
        !m.contains(':'),
    ensures
        exists|j: int|
            entries.len() <= j < with_wildcards(entries).len() && (#[trigger] with_wildcards(
                entries,
            )[j]).0 == m + seq![':', '*'] && forall|i: int|
                entries.len() <= i < with_wildcards(entries).len() && (#[trigger] with_wildcards(
                    entries,
                )[i]).0 == m + seq![':', '*'] ==> i == j,
{
    let s = entries[k].0;
    lemma_prefix_through_joined(m, ':', a);
    if exists|i: int| is_first_of(s, '.', i) {
        let i = choose|i: int| is_first_of(s, '.', i);
        assert(s[i] == '.');
    }
    assert(prefix_through(s, '.') is None);
    assert(domain_prefix(s) == Some(m + seq![':']));
    let name = m + seq![':', '*'];
    assert(m + seq![':'] + seq!['*'] =~= name);
    lemma_single_wildcard(entries, k, name);
}

/// When the domain part of the `k`-th name and `*` make `name`, exactly one
/// synthetic entry after the registered ones is named `name`.
proof fn lemma_single_wildcard(entries: Seq<EntryView>, k: int, name: Seq<char>)
    requires
        0 <= k < entries.len(),
        domain_prefix(entries[k].0) is Some,
        domain_prefix(entries[k].0)->0 + seq!['*'] == name,
    ensures
        exists|j: int|
            entries.len() <= j < with_wildcards(entries).len() && (#[trigger] with_wildcards(
                entries,
            )[j]).0 == name && forall|i: int|
                entries.len() <= i < with_wildcards(entries).len() && (#[trigger] with_wildcards(
                    entries,
                )[i]).0 == name ==> i == j,
{
    lemma_wildcard_entries(entries);
    let w = wildcard_entries(entries);
    let all = with_wildcards(entries);
    let base = entries.len() as int;
    assert(names_of(w).contains(name));
    let t = choose|t: int| 0 <= t < names_of(w).len() && names_of(w)[t] == name;
    assert(all[base + t] == w[t]);
    assert forall|i: int| base <= i < all.len() && (#[trigger] all[i]).0 == name implies i == base
        + t by {
        assert(all[i] == w[i - base]);
        assert(names_of(w)[i - base] == name);
    }
}

/// Each synthetic entry comes from the first registered entry whose domain
/// gives its name, and so carries that entry's enum: a later entry of the same
/// domain changes nothing.
pub proof fn lemma_wildcard_from_first_entry(entries: Seq<EntryView>, j: int)
    requires
        0 <= j < wildcard_entries(entries).len(),
    ensures
        exists|k: int|
            0 <= k < entries.len() && wildcard_for(#[trigger] entries[k]) == Some(
                wildcard_entries(entries)[j],
            ) && forall|i: int|
                0 <= i < k && wildcard_for(#[trigger] entries[i]) is Some ==> (wildcard_for(entries[i])->Some_0).0 != wildcard_entries(entries)[j].0,
    decreases entries.len(),
{
    let f = |e: EntryView| wildcard_for(e);
    let e0 = entries.drop_last();
    let last = entries.len() - 1;
    let m0 = e0.filter_map(f);
    let w0 = wildcard_entries(e0);
    let w = wildcard_entries(entries);
    assert(entries.last() == entries[last]);
    if j < w0.len() && w[j] == w0[j] {
        lemma_wildcard_from_first_entry(e0, j);
        let k = choose|k: int|
            0 <= k < e0.len() && wildcard_for(#[trigger] e0[k]) == Some(w0[j]) && forall|i: int|
                0 <= i < k && wildcard_for(#[trigger] e0[i]) is Some ==> (wildcard_for(e0[i])->Some_0).0
                    != w0[j].0;
        assert(entries[k] == e0[k]);
        assert forall|i: int| 0 <= i < k && wildcard_for(#[trigger] entries[i]) is Some implies (wildcard_for(entries[i])->Some_0).0 != w[j].0 by {
            assert(entries[i] == e0[i]);
        }
    } else {
        match wildcard_for(entries[last]) {
            None => {
                assert(entries.filter_map(f) == m0);
                assert(w == w0);
            },
            Some(x) => {
                let mp = m0.push(x);
                assert(entries.filter_map(f) =~= mp);
                assert(mp.drop_last() =~= m0);
                assert(mp.last() == x);
                if names_of(m0).contains(x.0) {
                    assert(w == w0);
                } else {
                    assert(w == w0.push(x));
                    assert(j == w0.len());
                    assert(w[j] == x);
                    assert forall|i: int| 0 <= i < last && wildcard_for(#[trigger] entries[i]) is Some implies (wildcard_for(entries[i])->Some_0).0 != w[j].0 by {
                        assert(entries[i] == e0[i]);
                        lemma_filter_map_keeps(e0, i);
                        let y = wildcard_for(e0[i])->0;
                        let t = choose|t: int| 0 <= t < m0.len() && m0[t] == y;
                        assert(names_of(m0)[t] == y.0);
                    }
                }
            },
        }
    }
}

/// The synthetic entry for the domain of `entry`, if its name has a domain part.
fn wildcard_entry(entry: &PermissionEntry) -> (r: Option<PermissionEntry>)
    ensures
        match r {
            Some(w) => wildcard_for(entry@) == Some(w@),
            None => wildcard_for(entry@) is None,
        },
{
    let name = cow_text(&entry.name);
    let chars = chars_of(name);
    match find_domain_end(&chars) {
        None => None,
        Some(i) => {
            assert(i < chars.len());
            let prefix = name.substring_char(0, i + 1);
            let wildcard = String::from_str(prefix).concat("*");
            let no_roles: &'static [&'static str] = &[];
            let w = PermissionEntry {
                name: Cow::Owned(wildcard),
                enum_name: entry.enum_name,
                roles: no_roles,
            };
            proof {
                reveal_strlit("*");
                assert(chars@.take(i + 1) =~= name@.subrange(0, i + 1));
                assert(w@.0 =~= chars@.take(i + 1) + seq!['*']);
                assert(w@.2 =~= Seq::<Seq<char>>::empty());
            }
            Some(w)
        },
    }
}

/// Whether some entry of `entries` is named `name`.
fn has_entry_named(entries: &Vec<PermissionEntry>, name: &str) -> (r: bool)
    ensures
        r == names_of(entry_views(entries@)).contains(name@),
{
    let n = entries.len();
    for i in 0..n
        invariant
            n == entries@.len(),
            forall|j: int| 0 <= j < i ==> (#[trigger] entries@[j]).name@ != name@,
    {
        if same_text(cow_text(&entries[i].name), name) {
            assert(names_of(entry_views(entries@))[i as int] == name@);
            return true;
        }
    }
    proof {
        if names_of(entry_views(entries@)).contains(name@) {
            let k = choose|k: int|
                0 <= k < names_of(entry_views(entries@)).len() && names_of(entry_views(entries@))[k]
                    == name@;
            assert(entries@[k].name@ == name@);
        }
    }
    false
}

/// Every registered entry, in order, followed by the synthetic domain entries:
/// for each name with a domain part (up to its first `.`, or in a name without
/// `.` up to its first `:`), that part and `*` (`Companies.List` gives
/// `Companies.*`, `update:companies` gives `update:*`, `a:b.c` gives `a:b.*`),
/// with the enum of
/// the first entry that gives it and no roles, once per name, in order of first
/// appearance.
pub fn all_permissions(registered: Vec<PermissionEntry>) -> (all: Vec<PermissionEntry>)
    ensures
        entry_views(all@) == with_wildcards(entry_views(registered@)),
{
    let ghost given = entry_views(registered@);
    let ghost f = |e: EntryView| wildcard_for(e);
    let mut wildcards: Vec<PermissionEntry> = Vec::new();
    let n = registered.len();
    for i in 0..n
        invariant
            n == registered@.len(),
            given == entry_views(registered@),
            f == (|e: EntryView| wildcard_for(e)),
            entry_views(wildcards@) == first_by_name(given.take(i as int).filter_map(f)),
    {
        let ghost before = given.take(i as int).filter_map(f);
        proof {
            given.lemma_filter_map_take_succ(f, i as int);
            assert(given[i as int] == registered@[i as int]@);
        }
        match wildcard_entry(&registered[i]) {
            None => {
                assert(given.take(i + 1).filter_map(f) =~= before);
            },
            Some(w) => {
                let ghost after = given.take(i + 1).filter_map(f);
                assert(after =~= before.push(w@));
                assert(after.drop_last() =~= before);
                proof {
                    lemma_first_by_name_names(before);
                }
                if !has_entry_named(&wildcards, cow_text(&w.name)) {
                    proof {
                        assert(!names_of(before).to_set().contains(w@.0));
                        assert(!names_of(before).contains(w@.0));
                    }
                    wildcards.push(w);
                    assert(entry_views(wildcards@) =~= first_by_name(before).push(after.last()));
                } else {
                    assert(names_of(before).to_set().contains(w@.0));
                    assert(names_of(before).contains(w@.0));
                }
            },
        }
    }
    assert(given.take(n as int) =~= given);
    let mut all = registered;
    let ghost head = all@;
    let ghost tail = wildcards@;
    all.append(&mut wildcards);
    assert(entry_views(all@) =~= entry_views(head) + entry_views(tail));
    all
}

/// Lexicographic order of byte strings: a proper prefix comes first, otherwise
/// the first differing byte decides.
pub open spec fn bytes_le(a: Seq<u8>, b: Seq<u8>) -> bool
    decreases a.len(),
{
    if a.len() == 0 {
        true
    } else if b.len() == 0 {
        false
    } else if a[0] != b[0] {
        a[0] < b[0]
    } else {
        bytes_le(a.drop_first(), b.drop_first())
    }
}

/// The order of `str`: lexicographic over the UTF-8 bytes.
pub open spec fn text_le(a: Seq<char>, b: Seq<char>) -> bool {
    bytes_le(encode_utf8(a), encode_utf8(b))
}

/// Byte strings that are each at most the other are equal.
proof fn lemma_bytes_le_antisymmetric(a: Seq<u8>, b: Seq<u8>)
    requires
        bytes_le(a, b),
        bytes_le(b, a),
    ensures
        a == b,
    decreases a.len(),
{
    if a.len() > 0 && b.len() > 0 {
        lemma_bytes_le_antisymmetric(a.drop_first(), b.drop_first());
        assert(a =~= seq![a[0]] + a.drop_first());
        assert(b =~= seq![b[0]] + b.drop_first());
    } else {
        assert(a =~= b);
    }
}

/// Texts that are each at most the other are equal.
pub proof fn lemma_text_le_antisymmetric(a: Seq<char>, b: Seq<char>)
    requires
        text_le(a, b),
        text_le(b, a),
    ensures
        a == b,
{
    broadcast use vstd::utf8::encode_utf8_decode_utf8;

    lemma_bytes_le_antisymmetric(encode_utf8(a), encode_utf8(b));
    assert(vstd::utf8::decode_utf8(encode_utf8(a)) == a);
    assert(vstd::utf8::decode_utf8(encode_utf8(b)) == b);
}

/// The texts of a list of names.
pub open spec fn texts_of(names: Seq<Cow<'static, str>>) -> Seq<Seq<char>> {
    names.map_values(|n: Cow<'static, str>| n@)
}

/// Sorts names in ascending order through itertools' `Itertools::sorted`.
///
/// Claimed of it: the result holds the same names, each as often as the input
/// does, in ascending order of `str`, which orders texts lexicographically by
/// their UTF-8 bytes.
#[verifier::external_body]
fn sort_names(names: Vec<Cow<'static, str>>) -> (sorted: Vec<Cow<'static, str>>)
    ensures
        texts_of(sorted@).to_multiset() == texts_of(names@).to_multiset(),
        forall|i: int, j: int|
            0 <= i < j < sorted@.len() ==> text_le(#[trigger] sorted@[i]@, #[trigger] sorted@[j]@),
{
    names.into_iter().sorted().collect()
}

/// Drops each name of an ascending list that equals the one before it.
fn dedup_sorted(sorted: Vec<Cow<'static, str>>) -> (names: Vec<Cow<'static, str>>)
    requires
        forall|i: int, j: int|
            0 <= i < j < sorted@.len() ==> text_le(#[trigger] sorted@[i]@, #[trigger] sorted@[j]@),
    ensures
        texts_of(names@).to_set() == texts_of(sorted@).to_set(),
        texts_of(names@).no_duplicates(),
        forall|i: int, j: int|
            0 <= i < j < names@.len() ==> text_le(#[trigger] names@[i]@, #[trigger] names@[j]@),
{
    let ghost input = texts_of(sorted@);
    let mut names: Vec<Cow<'static, str>> = Vec::new();
    for name in it: sorted.into_iter()
        invariant
            it.seq() == sorted@,
            input == texts_of(sorted@),
            forall|i: int, j: int|
                0 <= i < j < sorted@.len() ==> text_le(#[trigger] sorted@[i]@, #[trigger] sorted@[j]@),
            texts_of(names@).to_set() == input.take(it.index() as int).to_set(),
            texts_of(names@).no_duplicates(),
            forall|i: int, j: int|
                0 <= i < j < names@.len() ==> text_le(#[trigger] names@[i]@, #[trigger] names@[j]@),
            it.index() > 0 ==> names@.len() > 0 && names@.last()@ == input[it.index() - 1],
    {
        let ghost i = it.index() as int;
        let ghost before = names@;
        let ghost x = input[i as int];
        assert(name@ == x);
        proof {
            assert(input.take(i + 1) =~= input.take(i as int).push(x));
            input.take(i as int).lemma_push_to_set_commute(x);
        }
        let repeated = names.len() > 0 && same_text(
            cow_text(&names[names.len() - 1]),
            cow_text(&name),
        );
        if !repeated {
            proof {
                assert forall|k: int| 0 <= k < before.len() implies (#[trigger] before[k])@ != x
                    && text_le(before[k]@, x) by {
                    assert(texts_of(before)[k] == before[k]@);
                    assert(texts_of(before).to_set().contains(before[k]@));
                    assert(input.take(i).contains(before[k]@));
                    let j = choose|j: int| 0 <= j < i && input.take(i)[j] == before[k]@;
                    assert(text_le(sorted@[j]@, sorted@[i as int]@));
                    if before[k]@ == x {
                        // before[k] sits at or below the last kept name, which sits
                        // below x
                        let l = before.len() - 1;
                        if k != l {
                            assert(text_le(before[k]@, before[l]@));
                        }
                        assert(text_le(sorted@[i - 1]@, sorted@[i as int]@));
                        lemma_text_le_antisymmetric(before[k]@, before[l]@);
                    }
                }
            }
            names.push(name);
            proof {
                assert(texts_of(names@) =~= texts_of(before).push(x));
                texts_of(before).lemma_push_to_set_commute(x);
                assert forall|a: int, b: int| 0 <= a < b < names@.len() implies text_le(
                    #[trigger] names@[a]@,
                    #[trigger] names@[b]@,
                ) by {
                    if b < before.len() {
                        assert(names@[a] == before[a] && names@[b] == before[b]);
                    } else {
                        assert(names@[a] == before[a]);
                    }
                }
                assert forall|a: int, b: int| 0 <= a < names@.len() && 0 <= b < names@.len() && a != b
                    implies texts_of(names@)[a] != texts_of(names@)[b] by {
                    if a < before.len() && b < before.len() {
                        assert(texts_of(before)[a] != texts_of(before)[b]);
                    }
                }
            }
        } else {
            proof {
                assert(texts_of(before).last() == x);
                assert(texts_of(before).contains(x));
                assert(input.take(i as int).to_set().contains(x));
                assert(input.take(i as int).to_set().insert(x) =~= input.take(i as int).to_set());
            }
        }
    }
    assert(input.take(input.len() as int) =~= input);
    names
}

/// The names of every entry that [`all_permissions`] lists for `registered`,
/// each once, in ascending order of `str`.
pub fn all_permission_names(registered: Vec<PermissionEntry>) -> (names: Vec<Cow<'static, str>>)
    ensures
        texts_of(names@).to_set() == names_of(with_wildcards(entry_views(registered@))).to_set(),
        texts_of(names@).no_duplicates(),
        forall|i: int, j: int|
            0 <= i < j < names@.len() ==> text_le(#[trigger] names@[i]@, #[trigger] names@[j]@),
{
    let all = all_permissions(registered);
    let ghost listed = names_of(entry_views(all@));
    let mut names: Vec<Cow<'static, str>> = Vec::new();
    for entry in it: all.into_iter()
        invariant
            it.seq() == all@,
            listed == names_of(entry_views(all@)),
            texts_of(names@) == listed.take(it.index() as int),
    {
        let ghost before = names@;
        let ghost idx = it.index() as int;
        assert(entry == all@[idx]);
        assert(listed[idx] == entry.name@);
        names.push(entry.name);
        assert(texts_of(names@) =~= texts_of(before).push(listed[idx]));
        assert(texts_of(names@) =~= listed.take(idx + 1));
    }
    assert(listed.take(listed.len() as int) =~= listed);
    let sorted = sort_names(names);
    proof {
        broadcast use vstd::seq_lib::group_to_multiset_ensures;

        assert forall|t: Seq<char>| texts_of(sorted@).to_set().contains(t) <==> listed.to_set().contains(
            t,
        ) by {
            assert(texts_of(sorted@).contains(t) <==> texts_of(sorted@).to_multiset().count(t) > 0);
            assert(listed.contains(t) <==> listed.to_multiset().count(t) > 0);
        }
        assert(texts_of(sorted@).to_set() =~= listed.to_set());
    }
    dedup_sorted(sorted)
}

} // verus!
