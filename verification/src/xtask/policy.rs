//! The dependency-direction policy engine.
//!
//! Kept apart from cargo on purpose: its input is a set of [`CrateManifest`]s; it
//! touches no file and runs no cargo, so every rule can be tested on fixtures.
use vstd::prelude::*;
use crate::xtask::names::NameSet;
use crate::xtask::names::NameOrder;
use crate::xtask::names::ascending;
use crate::xtask::names::compare_names;
use crate::xtask::names::lemma_name_lt_irreflexive;
use crate::xtask::names::lemma_name_lt_transitive;

verus! {

/// What one crate of the policy allows: its permitted workspace-internal
/// dependencies (by policy key) and the banned outside crates it may use anyway.
#[derive(Debug, Clone)]
pub struct CratePolicy {
    pub internal: NameSet,
    pub external: NameSet,
}

/// (allowed internal, allowed external) of a crate's section.
pub type RulesView = (Seq<Seq<char>>, Seq<Seq<char>>);

impl View for CratePolicy {
    type V = RulesView;

    open spec fn view(&self) -> RulesView {
        (self.internal@, self.external@)
    }
}

impl CratePolicy {
    pub fn new() -> (p: CratePolicy)
        ensures
            p@.0 == Seq::<Seq<char>>::empty(),
            p@.1 == Seq::<Seq<char>>::empty(),
            p.wf(),
    {
        CratePolicy { internal: NameSet::new(), external: NameSet::new() }
    }

    pub open spec fn wf(&self) -> bool {
        self.internal.wf() && self.external.wf()
    }
}

/// Workspace-wide rules.
#[derive(Debug, Clone)]
pub struct WorkspacePolicy {
    /// Outside crates banned by default; a crate's `external` lifts the ban for it.
    pub banned_external: NameSet,
}

/// The sections of the policy, one per crate, keyed by policy key in ascending order.
#[derive(Debug, Clone)]
pub struct CrateTable {
    entries: Vec<(String, CratePolicy)>,
}

/// The keys of a table view.
pub open spec fn table_keys(t: Seq<(Seq<char>, RulesView)>) -> Seq<Seq<char>> {
    t.map_values(|e: (Seq<char>, RulesView)| e.0)
}

/// The section stored under `key`, if any.
pub open spec fn lookup(t: Seq<(Seq<char>, RulesView)>, key: Seq<char>) -> Option<RulesView>
    decreases t.len(),
{
    if t.len() == 0 {
        None
    } else if t.last().0 == key {
        Some(t.last().1)
    } else {
        lookup(t.drop_last(), key)
    }
}

impl View for CrateTable {
    type V = Seq<(Seq<char>, RulesView)>;

    closed spec fn view(&self) -> Seq<(Seq<char>, RulesView)> {
        self.entries@.map_values(|e: (String, CratePolicy)| (e.0@, e.1@))
    }
}

impl CrateTable {
    /// Keys ascend and every section is well formed.
    pub closed spec fn wf(&self) -> bool {
        &&& ascending(table_keys(self@))
        &&& forall|i: int| 0 <= i < self.entries@.len() ==> (#[trigger] self.entries@[i]).1.wf()
    }

    pub fn new() -> (t: CrateTable)
        ensures
            t@ == Seq::<(Seq<char>, RulesView)>::empty(),
            t.wf(),
    {
        let t = CrateTable { entries: Vec::new() };
        assert(t@ =~= Seq::<(Seq<char>, RulesView)>::empty());
        t
    }

    pub fn len(&self) -> (n: usize)
        ensures
            n == self@.len(),
    {
        self.entries.len()
    }

    /// The `i`-th key in ascending order.
    pub fn key(&self, i: usize) -> (k: &String)
        requires
            i < self@.len(),
        ensures
            k@ == self@[i as int].0,
    {
        &self.entries[i].0
    }

    /// The section stored under `key`.
    pub fn get(&self, key: &str) -> (r: Option<&CratePolicy>)
        ensures
            match r {
                Some(p) => lookup(self@, key@) == Some(p@),
                None => lookup(self@, key@) is None,
            },
    {
        let mut i = self.entries.len();
        assert(self@.take(i as int) =~= self@);
        while i > 0
            invariant
                i <= self.entries.len(),
                lookup(self@, key@) == lookup(self@.take(i as int), key@),
            decreases i,
        {
            let ghost t = self@.take(i as int);
            assert(t.drop_last() =~= self@.take(i - 1));
            if compare_names(self.entries[i - 1].0.as_str(), key) == NameOrder::Equal {
                return Some(&self.entries[i - 1].1);
            }
            i -= 1;
        }
        None
    }

    /// Stores `rules` under `key`, replacing the section already there.
    pub fn insert(&mut self, key: String, rules: CratePolicy)
        requires
            old(self).wf(),
            rules.wf(),
        ensures
            final(self).wf(),
            lookup(final(self)@, key@) == Some(rules@),
            forall|k: Seq<char>| k != key@ ==> lookup(final(self)@, k) == lookup(old(self)@, k),
            forall|k: Seq<char>| table_keys(final(self)@).contains(k) <==> (table_keys(old(self)@).contains(k) || k == key@),
    {
        let ghost s0 = self@;
        let ghost ks = table_keys(s0);
        let mut i: usize = 0;
        while i < self.entries.len()
            invariant
                i <= self.entries.len(),
                self@ == s0,
                ks == table_keys(s0),
                self.wf(),
                forall|k: int| 0 <= k < i ==> crate::xtask::names::name_lt(ks[k], key@),
            ensures
                i <= self.entries.len(),
                self@ == s0,
                self.wf(),
                forall|k: int| 0 <= k < i ==> crate::xtask::names::name_lt(ks[k], key@),
                i < s0.len() ==> (ks[i as int] == key@ || crate::xtask::names::name_lt(key@, ks[i as int])),
            decreases self.entries.len() - i,
        {
            let o = compare_names(self.entries[i].0.as_str(), key.as_str());
            if o != NameOrder::Less {
                break;
            }
            i += 1;
        }
        proof {
            assert forall|k: int| 0 <= k < i implies ks[k] != key@ by {
                lemma_name_lt_irreflexive(key@);
            }
        }
        let ghost kv = key@;
        let ghost rv = rules@;
        if i < self.entries.len() && compare_names(self.entries[i].0.as_str(), key.as_str()) == NameOrder::Equal {
            let ghost e1 = self.entries@;
            self.entries.set(i, (key, rules));
            proof {
                let s1 = self@;
                assert(s1 =~= s0.update(i as int, (kv, rv)));
                assert(table_keys(s1) =~= ks);
                assert forall|j: int| 0 <= j < self.entries@.len() implies (#[trigger] self.entries@[j]).1.wf() by {
                    if j != i {
                        assert(self.entries@[j] == e1[j]);
                    }
                }
                lemma_lookup_after_update(s0, i as int, kv, rv);
            }
        } else {
            let ghost e1 = self.entries@;
            self.entries.insert(i, (key, rules));
            proof {
                let s1 = self@;
                assert(s1 =~= s0.insert(i as int, (kv, rv)));
                let k1 = table_keys(s1);
                assert(k1 =~= ks.insert(i as int, kv));
                assert forall|a: int, b: int| 0 <= a < b < k1.len() implies crate::xtask::names::name_lt(k1[a], k1[b]) by {
                    if b < i {
                    } else if b == i {
                    } else if a < i {
                        if b - 1 > i {
                            lemma_name_lt_transitive(kv, ks[i as int], ks[b - 1]);
                        }
                        lemma_name_lt_transitive(ks[a], kv, ks[b - 1]);
                    } else if a == i {
                        if b - 1 > i {
                            lemma_name_lt_transitive(kv, ks[i as int], ks[b - 1]);
                        }
                    } else {
                    }
                }
                assert forall|j: int| 0 <= j < self.entries@.len() implies (#[trigger] self.entries@[j]).1.wf() by {
                    if j < i {
                        assert(self.entries@[j] == e1[j]);
                    } else if j > i {
                        assert(self.entries@[j] == e1[j - 1]);
                    }
                }
                assert forall|k: Seq<char>| k1.contains(k) <==> (ks.contains(k) || k == kv) by {
                    if k1.contains(k) {
                        let m = choose|m: int| 0 <= m < k1.len() && k1[m] == k;
                        if m < i {
                            assert(ks[m] == k);
                        } else if m > i {
                            assert(ks[m - 1] == k);
                        }
                    }
                    if ks.contains(k) {
                        let m = choose|m: int| 0 <= m < ks.len() && ks[m] == k;
                        if m < i {
                            assert(k1[m] == k);
                        } else {
                            assert(k1[m + 1] == k);
                        }
                    }
                    if k == kv {
                        assert(k1[i as int] == k);
                    }
                }
                assert forall|k: int| i <= k < ks.len() implies ks[k] != kv by {
                    if k > i {
                        lemma_name_lt_transitive(kv, ks[i as int], ks[k]);
                    }
                    lemma_name_lt_irreflexive(kv);
                }
                assert forall|j: int| 0 <= j < s0.len() implies (#[trigger] s0[j]).0 != kv by {
                    assert(ks[j] == s0[j].0);
                }
                lemma_lookup_after_insert(s0, i as int, kv, rv);
            }
        }
    }
}

/// Looking a key up after one entry was replaced.
proof fn lemma_lookup_after_update(t: Seq<(Seq<char>, RulesView)>, i: int, k: Seq<char>, r: RulesView)
    requires
        0 <= i < t.len(),
        t[i].0 == k,
        ascending(table_keys(t)),
    ensures
        lookup(t.update(i, (k, r)), k) == Some(r),
        forall|q: Seq<char>| q != k ==> lookup(t.update(i, (k, r)), q) == lookup(t, q),
    decreases t.len(),
{
    let u = t.update(i, (k, r));
    if i == t.len() - 1 {
        assert(u.drop_last() =~= t.drop_last());
        assert forall|q: Seq<char>| q != k implies lookup(u, q) == lookup(t, q) by {
            assert(u.last().0 == k);
            assert(t.last().0 == k);
        }
    } else {
        assert(u.drop_last() =~= t.drop_last().update(i, (k, r)));
        assert(table_keys(t.drop_last()) =~= table_keys(t).drop_last());
        lemma_lookup_after_update(t.drop_last(), i, k, r);
        assert(table_keys(t)[i] == k);
        assert(table_keys(t)[t.len() - 1] == t.last().0);
        assert(crate::xtask::names::name_lt(table_keys(t)[i], table_keys(t)[t.len() - 1]));
        lemma_name_lt_irreflexive(k);
        assert(u.last() == t.last());
        assert forall|q: Seq<char>| q != k implies lookup(u, q) == lookup(t, q) by {
            if t.last().0 != q {
                assert(lookup(u, q) == lookup(u.drop_last(), q));
                assert(lookup(t, q) == lookup(t.drop_last(), q));
            }
        }
    }
}

/// Looking a key up after a new entry was inserted at its place.
proof fn lemma_lookup_after_insert(t: Seq<(Seq<char>, RulesView)>, i: int, k: Seq<char>, r: RulesView)
    requires
        0 <= i <= t.len(),
        forall|j: int| 0 <= j < t.len() ==> (#[trigger] t[j]).0 != k,
    ensures
        lookup(t.insert(i, (k, r)), k) == Some(r),
        forall|q: Seq<char>| q != k ==> lookup(t.insert(i, (k, r)), q) == lookup(t, q),
    decreases t.len(),
{
    let u = t.insert(i, (k, r));
    if i == t.len() {
        assert(u.drop_last() =~= t);
        assert(u.last().0 == k);
    } else {
        assert(u.drop_last() =~= t.drop_last().insert(i, (k, r)));
        lemma_lookup_after_insert(t.drop_last(), i, k, r);
        assert(u.last() == t.last());
        assert(t.last().0 != k);
        assert forall|q: Seq<char>| q != k implies lookup(u, q) == lookup(t, q) by {
            if t.last().0 != q {
                assert(lookup(u, q) == lookup(u.drop_last(), q));
                assert(lookup(t, q) == lookup(t.drop_last(), q));
            }
        }
    }
}

/// The policy file: workspace-wide bans plus one section per crate.
#[derive(Debug, Clone)]
pub struct Policy {
    pub workspace: WorkspacePolicy,
    pub crates: CrateTable,
}

/// The policy as values: the banned outside crates and the sections.
pub struct PolicyView {
    pub banned: Seq<Seq<char>>,
    pub crates: Seq<(Seq<char>, RulesView)>,
}

impl View for Policy {
    type V = PolicyView;

    open spec fn view(&self) -> PolicyView {
        PolicyView { banned: self.workspace.banned_external@, crates: self.crates@ }
    }
}

impl Policy {
    /// An empty policy: nothing banned, no section.
    pub fn new() -> (p: Policy)
        ensures
            p@.banned == Seq::<Seq<char>>::empty(),
            p@.crates == Seq::<(Seq<char>, RulesView)>::empty(),
            p.wf(),
    {
        Policy { workspace: WorkspacePolicy { banned_external: NameSet::new() }, crates: CrateTable::new() }
    }

    pub open spec fn wf(&self) -> bool {
        self.workspace.banned_external.wf() && self.crates.wf()
    }
}

/// The direct dependencies of one workspace member. Normal, dev and build
/// dependencies count alike.
#[derive(Debug, Clone)]
pub struct CrateManifest {
    /// The policy key: the package name without the workspace prefix.
    pub key: String,
    pub package: String,
    pub internal: NameSet,
    pub external: NameSet,
}

/// A manifest as values.
pub struct ManifestView {
    pub key: Seq<char>,
    pub package: Seq<char>,
    pub internal: Seq<Seq<char>>,
    pub external: Seq<Seq<char>>,
}

impl View for CrateManifest {
    type V = ManifestView;

    open spec fn view(&self) -> ManifestView {
        ManifestView { key: self.key@, package: self.package@, internal: self.internal@, external: self.external@ }
    }
}

impl CrateManifest {
    pub open spec fn wf(&self) -> bool {
        self.internal.wf() && self.external.wf()
    }
}

/// One breach of the policy.
#[derive(Debug, Clone, PartialEq, Eq)]
pub enum Violation {
    /// A workspace member has no section: a new crate was not registered.
    Unregistered { key: String, package: String },
    /// A section names no workspace member: left over from a rename or removal.
    StaleSection { key: String },
    /// An internal dependency outside the crate's allowlist.
    DisallowedInternal { key: String, dep: String },
    /// A banned outside crate that the crate's section does not allow.
    BannedExternal { key: String, dep: String },
}

/// A violation as values.
pub enum ViolationView {
    Unregistered { key: Seq<char>, package: Seq<char> },
    StaleSection { key: Seq<char> },
    DisallowedInternal { key: Seq<char>, dep: Seq<char> },
    BannedExternal { key: Seq<char>, dep: Seq<char> },
}

impl View for Violation {
    type V = ViolationView;

    open spec fn view(&self) -> ViolationView {
        match self {
            Violation::Unregistered { key, package } => ViolationView::Unregistered { key: key@, package: package@ },
            Violation::StaleSection { key } => ViolationView::StaleSection { key: key@ },
            Violation::DisallowedInternal { key, dep } => ViolationView::DisallowedInternal { key: key@, dep: dep@ },
            Violation::BannedExternal { key, dep } => ViolationView::BannedExternal { key: key@, dep: dep@ },
        }
    }
}

/// The message an operator reads for a violation.
pub open spec fn message_spec(v: ViolationView) -> Seq<char> {
    match v {
        ViolationView::Unregistered { key, package } => package + " 未在 deps-policy.toml 登記，請新增 [crates."@ + key
            + "] 一節"@,
        ViolationView::StaleSection { key } => "deps-policy.toml 的 [crates."@ + key
            + "] 沒有對應的 workspace member，請移除"@,
        ViolationView::DisallowedInternal { key, dep } => key + " 不得依賴 "@ + dep
            + "（違反單向依賴圖）；若這是有意的架構變更，請先改 [crates."@ + key + "] 的 internal"@,
        ViolationView::BannedExternal { key, dep } => key + " 不得依賴 "@ + dep + "（"@ + dep
            + " 屬 banned-external）；若這是有意的，請加進 [crates."@ + key + "] 的 external"@,
    }
}

impl Violation {
    /// The message an operator reads for this violation.
    pub fn message(&self) -> (s: String)
        ensures
            s@ == message_spec(self@),
    {
        let mut s = String::new();
        match self {
            Violation::Unregistered { key, package } => {
                s.append(package.as_str());
                s.append(" 未在 deps-policy.toml 登記，請新增 [crates.");
                s.append(key.as_str());
                s.append("] 一節");
            },
            Violation::StaleSection { key } => {
                s.append("deps-policy.toml 的 [crates.");
                s.append(key.as_str());
                s.append("] 沒有對應的 workspace member，請移除");
            },
            Violation::DisallowedInternal { key, dep } => {
                s.append(key.as_str());
                s.append(" 不得依賴 ");
                s.append(dep.as_str());
                s.append("（違反單向依賴圖）；若這是有意的架構變更，請先改 [crates.");
                s.append(key.as_str());
                s.append("] 的 internal");
            },
            Violation::BannedExternal { key, dep } => {
                s.append(key.as_str());
                s.append(" 不得依賴 ");
                s.append(dep.as_str());
                s.append("（");
                s.append(dep.as_str());
                s.append(" 屬 banned-external）；若這是有意的，請加進 [crates.");
                s.append(key.as_str());
                s.append("] 的 external");
            },
        }
        s
    }
}

/// The views of a list of violations.
pub open spec fn views(vs: Seq<Violation>) -> Seq<ViolationView> {
    vs.map_values(|v: Violation| v@)
}

/// The views of a list of manifests.
pub open spec fn manifest_views(ms: Seq<CrateManifest>) -> Seq<ManifestView> {
    ms.map_values(|m: CrateManifest| m@)
}

/// The internal dependencies of `key` missing from its allowlist, in order.
pub open spec fn internal_violations(key: Seq<char>, deps: Seq<Seq<char>>, allowed: Seq<Seq<char>>) -> Seq<ViolationView>
    decreases deps.len(),
{
    if deps.len() == 0 {
        Seq::empty()
    } else {
        let rest = internal_violations(key, deps.drop_last(), allowed);
        if allowed.contains(deps.last()) {
            rest
        } else {
            rest.push(ViolationView::DisallowedInternal { key, dep: deps.last() })
        }
    }
}

/// The outside dependencies of `key` that are banned and not allowed to it, in order.
pub open spec fn external_violations(
    key: Seq<char>,
    deps: Seq<Seq<char>>,
    banned: Seq<Seq<char>>,
    allowed: Seq<Seq<char>>,
) -> Seq<ViolationView>
    decreases deps.len(),
{
    if deps.len() == 0 {
        Seq::empty()
    } else {
        let rest = external_violations(key, deps.drop_last(), banned, allowed);
        if banned.contains(deps.last()) && !allowed.contains(deps.last()) {
            rest.push(ViolationView::BannedExternal { key, dep: deps.last() })
        } else {
            rest
        }
    }
}

/// What one member breaks: an unregistered member is reported once and not
/// checked further.
pub open spec fn manifest_violations(p: PolicyView, m: ManifestView) -> Seq<ViolationView> {
    match lookup(p.crates, m.key) {
        None => seq![ViolationView::Unregistered { key: m.key, package: m.package }],
        Some(rules) => internal_violations(m.key, m.internal, rules.0) + external_violations(
            m.key,
            m.external,
            p.banned,
            rules.1,
        ),
    }
}

/// What the members break, member by member.
pub open spec fn member_violations(p: PolicyView, ms: Seq<ManifestView>) -> Seq<ViolationView>
    decreases ms.len(),
{
    if ms.len() == 0 {
        Seq::empty()
    } else {
        member_violations(p, ms.drop_last()) + manifest_violations(p, ms.last())
    }
}

/// The sections, in key order, whose key no member has.
pub open spec fn stale_sections(keys: Seq<Seq<char>>, present: Seq<Seq<char>>) -> Seq<ViolationView>
    decreases keys.len(),
{
    if keys.len() == 0 {
        Seq::empty()
    } else {
        let rest = stale_sections(keys.drop_last(), present);
        if present.contains(keys.last()) {
            rest
        } else {
            rest.push(ViolationView::StaleSection { key: keys.last() })
        }
    }
}

/// Every violation: the members' first, then the stale sections.
pub open spec fn violations(p: PolicyView, ms: Seq<ManifestView>) -> Seq<ViolationView> {
    member_violations(p, ms) + stale_sections(
        table_keys(p.crates),
        ms.map_values(|m: ManifestView| m.key),
    )
}

/// The violation of `key` depending on `dep` outside its allowlist.
pub open spec fn disallowed(key: Seq<char>, dep: Seq<char>) -> ViolationView {
    ViolationView::DisallowedInternal { key, dep }
}

/// The internal dependencies outside the allowlist, in order, each reported
/// against `key`: every one of them, once, and nothing else.
pub proof fn law_every_disallowed_internal_dependency_is_reported(key: Seq<char>, deps: Seq<Seq<char>>, allowed: Seq<Seq<char>>)
    ensures
        internal_violations(key, deps, allowed) == deps.filter(|d: Seq<char>| !allowed.contains(d)).map_values(
            |d: Seq<char>| disallowed(key, d),
        ),
        forall|i: int| 0 <= i < deps.len() && !allowed.contains(#[trigger] deps[i])
            ==> internal_violations(key, deps, allowed).contains(disallowed(key, deps[i])),
        forall|j: int| 0 <= j < internal_violations(key, deps, allowed).len() ==> exists|i: int| 0 <= i < deps.len()
            && !allowed.contains(deps[i]) && #[trigger] internal_violations(key, deps, allowed)[j] == disallowed(key, deps[i]),
    decreases deps.len(),
{
    let f = |d: Seq<char>| !allowed.contains(d);
    let g = |d: Seq<char>| disallowed(key, d);
    reveal(Seq::filter);
    if deps.len() > 0 {
        let rest = deps.drop_last();
        law_every_disallowed_internal_dependency_is_reported(key, rest, allowed);
        let r0 = internal_violations(key, rest, allowed);
        let r = internal_violations(key, deps, allowed);
        assert(deps.filter(f) == if f(deps.last()) { rest.filter(f).push(deps.last()) } else { rest.filter(f) });
        if f(deps.last()) {
            assert(rest.filter(f).push(deps.last()).map_values(g) =~= rest.filter(f).map_values(g).push(g(deps.last())));
        }
        assert forall|i: int| 0 <= i < deps.len() && !allowed.contains(#[trigger] deps[i])
            implies r.contains(disallowed(key, deps[i])) by {
            if i < deps.len() - 1 {
                assert(rest[i] == deps[i]);
                let j = choose|j: int| 0 <= j < r0.len() && r0[j] == disallowed(key, rest[i]);
                assert(r[j] == r0[j]);
            } else {
                assert(r[r.len() - 1] == disallowed(key, deps[i]));
            }
        }
        assert forall|j: int| 0 <= j < r.len() implies exists|i: int| 0 <= i < deps.len()
            && !allowed.contains(deps[i]) && #[trigger] r[j] == disallowed(key, deps[i]) by {
            if j < r0.len() {
                assert(r[j] == r0[j]);
                let i = choose|i: int| 0 <= i < rest.len() && !allowed.contains(rest[i]) && r0[j] == disallowed(key, rest[i]);
                assert(deps[i] == rest[i]);
            } else {
                assert(r[j] == disallowed(key, deps[deps.len() - 1]));
            }
        }
    } else {
        assert(deps.filter(f).map_values(g) =~= Seq::<ViolationView>::empty());
    }
}

/// Every member with a section is held to it in full: each internal dependency
/// that its section does not allow is among the violations that `check`
/// reports, whatever else the member or the others break.
pub proof fn law_check_reports_each_disallowed_internal_dependency(p: PolicyView, ms: Seq<ManifestView>, k: int, d: Seq<char>)
    requires
        0 <= k < ms.len(),
        (lookup(p.crates, ms[k].key) matches Some(rules) && ms[k].internal.contains(d) && !rules.0.contains(d)),
    ensures
        violations(p, ms).contains(disallowed(ms[k].key, d)),
    decreases ms.len(),
{
    let v = disallowed(ms[k].key, d);
    let rules = lookup(p.crates, ms[k].key)->0;
    let i = choose|i: int| 0 <= i < ms[k].internal.len() && ms[k].internal[i] == d;
    law_every_disallowed_internal_dependency_is_reported(ms[k].key, ms[k].internal, rules.0);
    let iv = internal_violations(ms[k].key, ms[k].internal, rules.0);
    assert(iv.contains(v));
    lemma_member_violations_contain(p, ms, k, v);
    let mv = member_violations(p, ms);
    let j = choose|j: int| 0 <= j < mv.len() && mv[j] == v;
    assert(violations(p, ms)[j] == v);
}

proof fn lemma_member_violations_contain(p: PolicyView, ms: Seq<ManifestView>, k: int, v: ViolationView)
    requires
        0 <= k < ms.len(),
        (lookup(p.crates, ms[k].key) matches Some(rules)
            && internal_violations(ms[k].key, ms[k].internal, rules.0).contains(v)),
    ensures
        member_violations(p, ms).contains(v),
    decreases ms.len(),
{
    let prev = member_violations(p, ms.drop_last());
    let mine = manifest_violations(p, ms.last());
    if k == ms.len() - 1 {
        let rules = lookup(p.crates, ms[k].key)->0;
        let iv = internal_violations(ms[k].key, ms[k].internal, rules.0);
        let j = choose|j: int| 0 <= j < iv.len() && iv[j] == v;
        assert(mine[j] == v);
        assert((prev + mine)[prev.len() + j] == v);
    } else {
        assert(ms.drop_last()[k] == ms[k]);
        lemma_member_violations_contain(p, ms.drop_last(), k, v);
        let j = choose|j: int| 0 <= j < prev.len() && prev[j] == v;
        assert((prev + mine)[j] == v);
    }
}

fn check_internal(key: &String, deps: &NameSet, allowed: &NameSet, out: &mut Vec<Violation>)
    ensures
        views(final(out)@) == views(old(out)@) + internal_violations(key@, deps@, allowed@),
{
    let ghost start = views(out@);
    let mut i: usize = 0;
    while i < deps.len()
        invariant
            i <= deps@.len(),
            views(out@) == start + internal_violations(key@, deps@.take(i as int), allowed@),
        decreases deps@.len() - i,
    {
        let dep = deps.get(i);
        let ghost before = out@;
        assert(deps@.take(i + 1).drop_last() =~= deps@.take(i as int));
        if !allowed.contains(dep.as_str()) {
            out.push(Violation::DisallowedInternal { key: key.clone(), dep: dep.clone() });
            assert(views(out@) =~= views(before).push(out@.last()@));
        }
        i += 1;
    }
    assert(deps@.take(deps@.len() as int) =~= deps@);
}

fn check_external(key: &String, deps: &NameSet, banned: &NameSet, allowed: &NameSet, out: &mut Vec<Violation>)
    ensures
        views(final(out)@) == views(old(out)@) + external_violations(key@, deps@, banned@, allowed@),
{
    let ghost start = views(out@);
    let mut i: usize = 0;
    while i < deps.len()
        invariant
            i <= deps@.len(),
            views(out@) == start + external_violations(key@, deps@.take(i as int), banned@, allowed@),
        decreases deps@.len() - i,
    {
        let dep = deps.get(i);
        let ghost before = out@;
        assert(deps@.take(i + 1).drop_last() =~= deps@.take(i as int));
        if banned.contains(dep.as_str()) && !allowed.contains(dep.as_str()) {
            out.push(Violation::BannedExternal { key: key.clone(), dep: dep.clone() });
            assert(views(out@) =~= views(before).push(out@.last()@));
        }
        i += 1;
    }
    assert(deps@.take(deps@.len() as int) =~= deps@);
}

/// Whether some member has policy key `key`.
fn has_member(manifests: &[CrateManifest], key: &str) -> (b: bool)
    ensures
        b == manifest_views(manifests@).map_values(|m: ManifestView| m.key).contains(key@),
{
    let ghost keys = manifest_views(manifests@).map_values(|m: ManifestView| m.key);
    let mut i: usize = 0;
    while i < manifests.len()
        invariant
            i <= manifests.len(),
            keys == manifest_views(manifests@).map_values(|m: ManifestView| m.key),
            forall|k: int| 0 <= k < i ==> keys[k] != key@,
        decreases manifests.len() - i,
    {
        if compare_names(manifests[i].key.as_str(), key) == NameOrder::Equal {
            assert(keys[i as int] == key@);
            return true;
        }
        i += 1;
    }
    false
}

/// Checks every member against the policy and reports every violation, not
/// just the first: for each member in turn, an unregistered member, else its
/// disallowed internal dependencies and then its banned outside ones (each in
/// ascending name order); after all members, the sections that name no member.
pub fn check(policy: &Policy, manifests: &[CrateManifest]) -> (vs: Vec<Violation>)
    ensures
        views(vs@) == violations(policy@, manifest_views(manifests@)),
{
    let mut out: Vec<Violation> = Vec::new();
    let ghost pv = policy@;
    let ghost ms = manifest_views(manifests@);
    assert(views(out@) =~= Seq::<ViolationView>::empty());
    let mut i: usize = 0;
    while i < manifests.len()
        invariant
            i <= manifests.len(),
            pv == policy@,
            ms == manifest_views(manifests@),
            views(out@) == member_violations(pv, ms.take(i as int)),
        decreases manifests.len() - i,
    {
        let m = &manifests[i];
        assert(ms.take(i + 1).drop_last() =~= ms.take(i as int));
        assert(ms.take(i + 1).last() == m@);
        let ghost before = views(out@);
        match policy.crates.get(m.key.as_str()) {
            None => {
                out.push(Violation::Unregistered { key: m.key.clone(), package: m.package.clone() });
                assert(views(out@) =~= before + seq![out@.last()@]);
            },
            Some(rules) => {
                check_internal(&m.key, &m.internal, &rules.internal, &mut out);
                check_external(&m.key, &m.external, &policy.workspace.banned_external, &rules.external, &mut out);
                assert(views(out@) =~= before + manifest_violations(pv, m@));
            },
        }
        i += 1;
    }
    assert(ms.take(manifests.len() as int) =~= ms);
    let ghost members = views(out@);
    let ghost keys = table_keys(pv.crates);
    let ghost present = ms.map_values(|m: ManifestView| m.key);
    let mut j: usize = 0;
    while j < policy.crates.len()
        invariant
            j <= keys.len(),
            pv == policy@,
            ms == manifest_views(manifests@),
            keys == table_keys(pv.crates),
            present == ms.map_values(|m: ManifestView| m.key),
            views(out@) == members + stale_sections(keys.take(j as int), present),
        decreases keys.len() - j,
    {
        let key = policy.crates.key(j);
        let ghost before = out@;
        assert(keys.take(j + 1).drop_last() =~= keys.take(j as int));
        assert(keys.take(j + 1).last() == key@);
        if !has_member(manifests, key.as_str()) {
            out.push(Violation::StaleSection { key: key.clone() });
            assert(views(out@) =~= views(before).push(out@.last()@));
        }
        j += 1;
    }
    assert(keys.take(keys.len() as int) =~= keys);
    out
}

/// Member `m` meets the policy: it has a section, its internal dependencies are
/// all allowed, and it uses no banned outside crate that its section does not allow.
pub open spec fn complies(p: PolicyView, m: ManifestView) -> bool {
    match lookup(p.crates, m.key) {
        None => false,
        Some(rules) => {
            &&& forall|d: Seq<char>| #[trigger] m.internal.contains(d) ==> rules.0.contains(d)
            &&& forall|d: Seq<char>| #[trigger] m.external.contains(d) && p.banned.contains(d) ==> rules.1.contains(d)
        },
    }
}

/// `d` occurs in `s` exactly when it occurs in all but the last, or is the last.
proof fn lemma_contains_split(s: Seq<Seq<char>>, d: Seq<char>)
    requires
        s.len() > 0,
    ensures
        s.contains(d) <==> (s.drop_last().contains(d) || d == s.last()),
{
    let init = s.drop_last();
    if s.contains(d) {
        let k = choose|k: int| 0 <= k < s.len() && s[k] == d;
        if k < s.len() - 1 {
            assert(init[k] == d);
        }
    }
    if init.contains(d) {
        let k = choose|k: int| 0 <= k < init.len() && init[k] == d;
        assert(s[k] == d);
    }
    assert(s[s.len() - 1] == s.last());
}

proof fn lemma_internal_clean(key: Seq<char>, deps: Seq<Seq<char>>, allowed: Seq<Seq<char>>)
    ensures
        internal_violations(key, deps, allowed).len() == 0 <==> (forall|d: Seq<char>| #[trigger] deps.contains(d) ==> allowed.contains(d)),
    decreases deps.len(),
{
    if deps.len() > 0 {
        let init = deps.drop_last();
        let last = deps.last();
        lemma_internal_clean(key, init, allowed);
        lemma_contains_split(deps, last);
        if internal_violations(key, deps, allowed).len() == 0 {
            assert(allowed.contains(last));
            assert forall|d: Seq<char>| #[trigger] deps.contains(d) implies allowed.contains(d) by {
                lemma_contains_split(deps, d);
            }
        }
        if forall|d: Seq<char>| #[trigger] deps.contains(d) ==> allowed.contains(d) {
            assert(allowed.contains(last));
            assert forall|d: Seq<char>| #[trigger] init.contains(d) implies allowed.contains(d) by {
                lemma_contains_split(deps, d);
            }
        }
    }
}

proof fn lemma_external_clean(key: Seq<char>, deps: Seq<Seq<char>>, banned: Seq<Seq<char>>, allowed: Seq<Seq<char>>)
    ensures
        external_violations(key, deps, banned, allowed).len() == 0 <==> (forall|d: Seq<char>|
            #[trigger] deps.contains(d) && banned.contains(d) ==> allowed.contains(d)),
    decreases deps.len(),
{
    if deps.len() > 0 {
        let init = deps.drop_last();
        let last = deps.last();
        lemma_external_clean(key, init, banned, allowed);
        lemma_contains_split(deps, last);
        if external_violations(key, deps, banned, allowed).len() == 0 {
            assert(banned.contains(last) ==> allowed.contains(last));
            assert forall|d: Seq<char>| #[trigger] deps.contains(d) && banned.contains(d) implies allowed.contains(d) by {
                lemma_contains_split(deps, d);
            }
        }
        if forall|d: Seq<char>| #[trigger] deps.contains(d) && banned.contains(d) ==> allowed.contains(d) {
            assert(banned.contains(last) ==> allowed.contains(last));
            assert forall|d: Seq<char>| #[trigger] init.contains(d) && banned.contains(d) implies allowed.contains(d) by {
                lemma_contains_split(deps, d);
            }
        }
    }
}

proof fn lemma_members_clean(p: PolicyView, ms: Seq<ManifestView>)
    ensures
        member_violations(p, ms).len() == 0 <==> (forall|i: int| 0 <= i < ms.len() ==> complies(p, #[trigger] ms[i])),
    decreases ms.len(),
{
    if ms.len() > 0 {
        let init = ms.drop_last();
        let m = ms.last();
        lemma_members_clean(p, init);
        match lookup(p.crates, m.key) {
            None => {},
            Some(rules) => {
                lemma_internal_clean(m.key, m.internal, rules.0);
                lemma_external_clean(m.key, m.external, p.banned, rules.1);
            },
        }
        assert(manifest_violations(p, m).len() == 0 <==> complies(p, m));
        assert forall|i: int| 0 <= i < ms.len() - 1 implies ms[i] == #[trigger] init[i] by {}
        if member_violations(p, ms).len() == 0 {
            assert forall|i: int| 0 <= i < ms.len() implies complies(p, #[trigger] ms[i]) by {
                if i < ms.len() - 1 {
                    assert(complies(p, init[i]));
                }
            }
        }
        if forall|i: int| 0 <= i < ms.len() ==> complies(p, #[trigger] ms[i]) {
            assert(complies(p, ms[ms.len() - 1]));
            assert forall|i: int| 0 <= i < init.len() implies complies(p, #[trigger] init[i]) by {
                assert(complies(p, ms[i]));
            }
        }
    }
}

proof fn lemma_stale_clean(keys: Seq<Seq<char>>, present: Seq<Seq<char>>)
    ensures
        stale_sections(keys, present).len() == 0 <==> (forall|i: int| 0 <= i < keys.len() ==> present.contains(#[trigger] keys[i])),
    decreases keys.len(),
{
    if keys.len() > 0 {
        let init = keys.drop_last();
        let last = keys.last();
        lemma_stale_clean(init, present);
        assert(keys[keys.len() - 1] == last);
        if stale_sections(keys, present).len() == 0 {
            assert(present.contains(last));
            assert forall|i: int| 0 <= i < keys.len() implies present.contains(#[trigger] keys[i]) by {
                if i < keys.len() - 1 {
                    assert(keys[i] == init[i]);
                }
            }
        }
        if forall|i: int| 0 <= i < keys.len() ==> present.contains(#[trigger] keys[i]) {
            assert(present.contains(keys[keys.len() - 1]));
            assert forall|i: int| 0 <= i < init.len() implies present.contains(#[trigger] init[i]) by {
                assert(keys[i] == init[i]);
                assert(present.contains(keys[i]));
            }
        }
    }
}

/// The check passes exactly when the policy is met: every member complies, and
/// every section of the policy names a member.
pub proof fn law_clean_exactly_when_compliant(p: PolicyView, ms: Seq<ManifestView>)
    ensures
        violations(p, ms).len() == 0 <==> {
            &&& forall|i: int| 0 <= i < ms.len() ==> complies(p, #[trigger] ms[i])
            &&& forall|i: int| 0 <= i < p.crates.len() ==> exists|j: int| 0 <= j < ms.len() && (#[trigger] ms[j]).key == (#[trigger] p.crates[i]).0
        },
{
    let present = ms.map_values(|m: ManifestView| m.key);
    let keys = table_keys(p.crates);
    lemma_members_clean(p, ms);
    lemma_stale_clean(keys, present);
    assert forall|i: int| 0 <= i < p.crates.len() implies (present.contains(#[trigger] keys[i]) <==> exists|j: int|
        0 <= j < ms.len() && (#[trigger] ms[j]).key == p.crates[i].0) by {
        assert(keys[i] == p.crates[i].0);
        if present.contains(keys[i]) {
            let j = choose|j: int| 0 <= j < present.len() && present[j] == keys[i];
            assert(ms[j].key == p.crates[i].0);
        }
        if exists|j: int| 0 <= j < ms.len() && (#[trigger] ms[j]).key == p.crates[i].0 {
            let j = choose|j: int| 0 <= j < ms.len() && (#[trigger] ms[j]).key == p.crates[i].0;
            assert(present[j] == keys[i]);
        }
    }
    if violations(p, ms).len() == 0 {
        assert forall|i: int| 0 <= i < p.crates.len() implies exists|j: int| 0 <= j < ms.len() && (#[trigger] ms[j]).key == (#[trigger] p.crates[i]).0 by {
            assert(present.contains(keys[i]));
        }
    } else {
        if member_violations(p, ms).len() == 0 {
            assert(stale_sections(keys, present).len() > 0);
            let i = choose|i: int| 0 <= i < keys.len() && !present.contains(#[trigger] keys[i]);
            assert(!(exists|j: int| 0 <= j < ms.len() && (#[trigger] ms[j]).key == p.crates[i].0));
        }
    }
}

} // verus!
