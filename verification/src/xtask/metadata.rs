//! From `cargo metadata` packages to [`CrateManifest`]s.
//!
//! Kept apart from the policy engine so that the engine can be tested on fixtures.
use vstd::prelude::*;
use crate::xtask::names::NameSet;
use crate::xtask::names::names_of;
use crate::xtask::policy::CrateManifest;

verus! {

/// The prefix that workspace package names carry and policy keys drop.
pub const PACKAGE_PREFIX: &'static str = "colorlull-";

/// The policy key of a package: its name without [`PACKAGE_PREFIX`], or the
/// name itself when it lacks the prefix (as `xtask` does).
pub open spec fn key_of(package: Seq<char>) -> Seq<char> {
    let prefix = PACKAGE_PREFIX@;
    if prefix.len() <= package.len() && package.take(prefix.len() as int) == prefix {
        package.skip(prefix.len() as int)
    } else {
        package
    }
}

/// Package name to policy key.
pub fn policy_key(package: &str) -> (k: String)
    ensures
        k@ == key_of(package@),
{
    let plen = PACKAGE_PREFIX.unicode_len();
    let n = package.unicode_len();
    if plen <= n {
        let mut i: usize = 0;
        while i < plen
            invariant
                plen == PACKAGE_PREFIX@.len(),
                n == package@.len(),
                plen <= n,
                i <= plen,
                package@.take(i as int) == PACKAGE_PREFIX@.take(i as int),
            decreases plen - i,
        {
            if package.get_char(i) as u32 != PACKAGE_PREFIX.get_char(i) as u32 {
                proof {
                    assert(package@.take(plen as int)[i as int] == package@[i as int]);
                    assert(PACKAGE_PREFIX@.take(plen as int) =~= PACKAGE_PREFIX@);
                }
                return String::from_str(package);
            }
            proof {
                assert(package@.take(i + 1) =~= package@.take(i as int).push(package@[i as int]));
                assert(PACKAGE_PREFIX@.take(i + 1) =~= PACKAGE_PREFIX@.take(i as int).push(PACKAGE_PREFIX@[i as int]));
            }
            i += 1;
        }
        assert(PACKAGE_PREFIX@.take(plen as int) =~= PACKAGE_PREFIX@);
        let rest = package.substring_char(plen, n);
        assert(package@.subrange(plen as int, n as int) =~= package@.skip(plen as int));
        return String::from_str(rest);
    }
    String::from_str(package)
}

/// A workspace member as `cargo metadata` lists it: its name and the names of
/// its direct dependencies.
#[derive(Debug, Clone)]
pub struct Package {
    pub name: String,
    pub dependencies: Vec<String>,
}

/// The names of the packages.
pub open spec fn package_names(ps: Seq<Package>) -> Seq<Seq<char>> {
    ps.map_values(|p: Package| p.name@)
}

/// Manifest `m` is the one derived from package `p` of a workspace whose
/// member names are `members`: dependencies on members become internal (by
/// policy key), all others external (by name).
pub open spec fn derived_from(m: CrateManifest, p: Package, members: Seq<Seq<char>>) -> bool {
    let deps = names_of(p.dependencies@);
    &&& m.wf()
    &&& m.key@ == key_of(p.name@)
    &&& m.package@ == p.name@
    &&& forall|x: Seq<char>| #[trigger] m.internal@.contains(x) <==> exists|d: Seq<char>|
        #[trigger] deps.contains(d) && members.contains(d) && x == key_of(d)
    &&& forall|x: Seq<char>| #[trigger] m.external@.contains(x) <==> (deps.contains(x) && !members.contains(x))
}

fn manifest_of(p: &Package, members: &NameSet) -> (m: CrateManifest)
    ensures
        derived_from(m, *p, members@),
{
    let ghost deps = names_of(p.dependencies@);
    let mut internal = NameSet::new();
    let mut external = NameSet::new();
    let mut i: usize = 0;
    while i < p.dependencies.len()
        invariant
            i <= p.dependencies.len(),
            deps == names_of(p.dependencies@),
            internal.wf(),
            external.wf(),
            forall|x: Seq<char>| #[trigger] internal@.contains(x) <==> exists|d: Seq<char>|
                #[trigger] deps.take(i as int).contains(d) && members@.contains(d) && x == key_of(d),
            forall|x: Seq<char>| #[trigger] external@.contains(x) <==> (deps.take(i as int).contains(x) && !members@.contains(x)),
        decreases p.dependencies.len() - i,
    {
        let dep = &p.dependencies[i];
        let ghost dv = dep@;
        let ghost t0 = deps.take(i as int);
        let ghost t1 = deps.take(i + 1);
        assert(t1 =~= t0.push(dv));
        assert forall|d: Seq<char>| #[trigger] t1.contains(d) <==> (t0.contains(d) || d == dv) by {
            if t1.contains(d) {
                let k = choose|k: int| 0 <= k < t1.len() && t1[k] == d;
                if k < i {
                    assert(t0[k] == d);
                }
            }
            if t0.contains(d) {
                let k = choose|k: int| 0 <= k < t0.len() && t0[k] == d;
                assert(t1[k] == d);
            }
            if d == dv {
                assert(t1[i as int] == d);
            }
        }
        let ghost int0 = internal@;
        if members.contains(dep.as_str()) {
            let k = policy_key(dep.as_str());
            internal.insert(k);
            assert forall|x: Seq<char>| #[trigger] internal@.contains(x) <==> exists|d: Seq<char>|
                #[trigger] t1.contains(d) && members@.contains(d) && x == key_of(d) by {
                if internal@.contains(x) && x == key_of(dv) {
                    assert(t1.contains(dv));
                }
                if internal@.contains(x) && x != key_of(dv) {
                    assert(int0.contains(x));
                    let d = choose|d: Seq<char>| #[trigger] t0.contains(d) && members@.contains(d) && x == key_of(d);
                    assert(t1.contains(d));
                }
                if exists|d: Seq<char>| #[trigger] t1.contains(d) && members@.contains(d) && x == key_of(d) {
                    let d = choose|d: Seq<char>| #[trigger] t1.contains(d) && members@.contains(d) && x == key_of(d);
                    if d != dv {
                        assert(t0.contains(d));
                    }
                }
            }
        } else {
            external.insert(dep.clone());
            assert forall|x: Seq<char>| #[trigger] internal@.contains(x) <==> exists|d: Seq<char>|
                #[trigger] t1.contains(d) && members@.contains(d) && x == key_of(d) by {
                if exists|d: Seq<char>| #[trigger] t1.contains(d) && members@.contains(d) && x == key_of(d) {
                    let d = choose|d: Seq<char>| #[trigger] t1.contains(d) && members@.contains(d) && x == key_of(d);
                    assert(t0.contains(d));
                }
                if internal@.contains(x) {
                    let d = choose|d: Seq<char>| #[trigger] t0.contains(d) && members@.contains(d) && x == key_of(d);
                    assert(t1.contains(d));
                }
            }
        }
        i += 1;
    }
    assert(deps.take(p.dependencies.len() as int) =~= deps);
    CrateManifest {
        key: policy_key(p.name.as_str()),
        package: p.name.clone(),
        internal,
        external,
    }
}

/// The manifests of the workspace members, in the order the packages come.
pub fn manifests_of(packages: &[Package]) -> (ms: Vec<CrateManifest>)
    ensures
        ms@.len() == packages@.len(),
        forall|i: int| 0 <= i < packages@.len() ==> derived_from(#[trigger] ms@[i], packages@[i], package_names(packages@)),
{
    let mut members = NameSet::new();
    let mut i: usize = 0;
    while i < packages.len()
        invariant
            i <= packages.len(),
            members.wf(),
            forall|x: Seq<char>| members@.contains(x) <==> package_names(packages@.take(i as int)).contains(x),
        decreases packages.len() - i,
    {
        members.insert(packages[i].name.clone());
        proof {
            let t0 = package_names(packages@.take(i as int));
            let t1 = package_names(packages@.take(i + 1));
            assert(t1 =~= t0.push(packages@[i as int].name@));
            assert forall|x: Seq<char>| members@.contains(x) <==> t1.contains(x) by {
                if t1.contains(x) {
                    let k = choose|k: int| 0 <= k < t1.len() && t1[k] == x;
                    if k < i {
                        assert(t0[k] == x);
                    }
                }
                if t0.contains(x) {
                    let k = choose|k: int| 0 <= k < t0.len() && t0[k] == x;
                    assert(t1[k] == x);
                }
                if x == packages@[i as int].name@ {
                    assert(t1[i as int] == x);
                }
            }
        }
        i += 1;
    }
    assert(packages@.take(packages.len() as int) =~= packages@);
    assert(members@ =~= members@);
    let ghost names = package_names(packages@);
    let mut ms: Vec<CrateManifest> = Vec::new();
    let mut j: usize = 0;
    while j < packages.len()
        invariant
            j <= packages.len(),
            ms@.len() == j,
            names == package_names(packages@),
            forall|x: Seq<char>| members@.contains(x) <==> names.contains(x),
            forall|k: int| 0 <= k < j ==> derived_from(#[trigger] ms@[k], packages@[k], names),
        decreases packages.len() - j,
    {
        let m = manifest_of(&packages[j], &members);
        proof {
            lemma_derived_same_members(m, packages@[j as int], members@, names);
        }
        ms.push(m);
        j += 1;
    }
    ms
}

proof fn lemma_derived_same_members(m: CrateManifest, p: Package, a: Seq<Seq<char>>, b: Seq<Seq<char>>)
    requires
        derived_from(m, p, a),
        forall|x: Seq<char>| a.contains(x) <==> b.contains(x),
    ensures
        derived_from(m, p, b),
{
}

/// The workspace: its root and target directories and its members' manifests.
#[derive(Debug, Clone)]
pub struct Workspace {
    pub root: String,
    pub target_dir: String,
    pub manifests: Vec<CrateManifest>,
}

} // verus!
