use baker::xtask::metadata::manifests_of;
use baker::xtask::metadata::policy_key;
use baker::xtask::metadata::Package;
use baker::xtask::names::NameSet;
use baker::xtask::policy::check;
use baker::xtask::policy::CrateManifest;
use baker::xtask::policy::CratePolicy;
use baker::xtask::policy::Policy;
use baker::xtask::policy::Violation;

fn names(list: &[&str]) -> NameSet {
    NameSet::from_names(list.iter().map(|s| s.to_string()).collect())
}

/// The fixture policy:
///
/// banned-external = ["wgpu"]; colorpack: nothing; stroke: internal colorpack;
/// render: internal colorpack and stroke, external wgpu.
fn policy() -> Policy {
    let mut p = Policy::new();
    p.workspace.banned_external = names(&["wgpu"]);
    p.crates.insert("colorpack".into(), CratePolicy::new());
    p.crates.insert("stroke".into(), CratePolicy { internal: names(&["colorpack"]), external: names(&[]) });
    p.crates.insert(
        "render".into(),
        CratePolicy { internal: names(&["colorpack", "stroke"]), external: names(&["wgpu"]) },
    );
    p
}

fn manifest(key: &str, internal: &[&str], external: &[&str]) -> CrateManifest {
    CrateManifest {
        key: key.to_string(),
        package: format!("colorit-{key}"),
        internal: names(internal),
        external: names(external),
    }
}

/// Every member of the fixture, valid.
fn all_valid() -> Vec<CrateManifest> {
    vec![
        manifest("colorpack", &[], &[]),
        manifest("stroke", &["colorpack"], &["serde"]),
        manifest("render", &["colorpack", "stroke"], &["wgpu", "bytemuck"]),
    ]
}

#[test]
fn valid_config_has_no_violations() {
    assert_eq!(check(&policy(), &all_valid()), vec![]);
}

/// Adding wgpu to stroke must fail the lint.
#[test]
fn wgpu_in_stroke_is_rejected() {
    let mut manifests = all_valid();
    manifests[1] = manifest("stroke", &["colorpack"], &["wgpu"]);

    assert_eq!(
        check(&policy(), &manifests),
        vec![Violation::BannedExternal {
            key: "stroke".into(),
            dep: "wgpu".into(),
        }]
    );
}

#[test]
fn unregistered_member_is_rejected() {
    let mut manifests = all_valid();
    manifests.push(manifest("document", &[], &[]));

    assert_eq!(
        check(&policy(), &manifests),
        vec![Violation::Unregistered {
            key: "document".into(),
            package: "colorit-document".into(),
        }]
    );
}

#[test]
fn reverse_internal_dependency_is_rejected() {
    let mut manifests = all_valid();
    manifests[1] = manifest("stroke", &["colorpack", "render"], &[]);

    assert_eq!(
        check(&policy(), &manifests),
        vec![Violation::DisallowedInternal {
            key: "stroke".into(),
            dep: "render".into(),
        }]
    );
}

#[test]
fn stale_policy_section_is_rejected() {
    let mut manifests = all_valid();
    manifests.pop(); // render is gone, its section stays

    assert_eq!(
        check(&policy(), &manifests),
        vec![Violation::StaleSection {
            key: "render".into()
        }]
    );
}

#[test]
fn all_violations_reported_at_once() {
    let violations = check(
        &policy(),
        &[
            manifest("colorpack", &[], &[]),
            manifest("stroke", &["colorpack", "render"], &["wgpu"]),
            manifest("render", &["colorpack", "stroke"], &["wgpu"]),
        ],
    );
    assert_eq!(violations.len(), 2);
}

#[test]
fn strips_colorlull_prefix() {
    assert_eq!(policy_key("colorlull-app-state"), "app-state");
    assert_eq!(policy_key("xtask"), "xtask");
}

/// Stale sections come out in key order, after every member's violations.
#[test]
fn stale_sections_follow_the_members_in_key_order() {
    let v = check(&policy(), &[manifest("zeta", &[], &[])]);
    assert_eq!(
        v,
        vec![
            Violation::Unregistered { key: "zeta".into(), package: "colorit-zeta".into() },
            Violation::StaleSection { key: "colorpack".into() },
            Violation::StaleSection { key: "render".into() },
            Violation::StaleSection { key: "stroke".into() },
        ]
    );
}

#[test]
fn violation_messages_name_the_section_to_edit() {
    assert_eq!(
        Violation::Unregistered { key: "doc".into(), package: "colorit-doc".into() }.message(),
        "colorit-doc 未在 deps-policy.toml 登記，請新增 [crates.doc] 一節"
    );
    assert_eq!(
        Violation::StaleSection { key: "render".into() }.message(),
        "deps-policy.toml 的 [crates.render] 沒有對應的 workspace member，請移除"
    );
    assert_eq!(
        Violation::BannedExternal { key: "stroke".into(), dep: "wgpu".into() }.message(),
        "stroke 不得依賴 wgpu（wgpu 屬 banned-external）；若這是有意的，請加進 [crates.stroke] 的 external"
    );
    assert!(Violation::DisallowedInternal { key: "a".into(), dep: "b".into() }
        .message()
        .starts_with("a 不得依賴 b"));
}

#[test]
fn name_sets_keep_ascending_order_without_duplicates() {
    let s = names(&["wgpu", "bytemuck", "wgpu", "ash", "Zed", "é"]);
    let listed: Vec<String> = (0..s.len()).map(|i| s.get(i).clone()).collect();
    let mut expected: Vec<String> = vec!["wgpu", "bytemuck", "ash", "Zed", "é"].into_iter().map(String::from).collect();
    expected.sort();
    assert_eq!(listed, expected);
    assert!(s.contains("ash"));
    assert!(!s.contains("as"));
}

#[test]
fn packages_split_their_dependencies_into_internal_and_external() {
    let packages = vec![
        Package { name: "colorlull-stroke".into(), dependencies: vec!["colorlull-colorpack".into(), "serde".into()] },
        Package { name: "colorlull-colorpack".into(), dependencies: vec!["serde".into(), "serde".into()] },
        Package { name: "xtask".into(), dependencies: vec!["anyhow".into()] },
    ];
    let ms = manifests_of(&packages);
    assert_eq!(ms.len(), 3);
    assert_eq!(ms[0].key, "stroke");
    assert_eq!(ms[0].package, "colorlull-stroke");
    assert_eq!(ms[0].internal.len(), 1);
    assert_eq!(ms[0].internal.get(0), "colorpack");
    assert_eq!(ms[0].external.len(), 1);
    assert_eq!(ms[0].external.get(0), "serde");
    assert_eq!(ms[1].external.len(), 1);
    assert_eq!(ms[2].key, "xtask");
}
