use baker::text::lower_hex;
use baker::xtask::ios::{
    check_bindings, check_uniffi, fingerprint, fingerprint_bytes, fingerprint_names, header_file, host_cdylib,
    lock_text, swift_file, uniffi_version, FfiLock, Host, LockMismatch, LockPackage, VersionError, LOCK_FILE,
};
use sha2::{Digest, Sha256};

fn files(list: &[(&str, &[u8])]) -> Vec<(String, Vec<u8>)> {
    list.iter().map(|(n, c)| (n.to_string(), c.to_vec())).collect()
}

fn pkg(name: &str, version: &str) -> LockPackage {
    LockPackage { name: name.to_string(), version: version.to_string() }
}

fn lock(uniffi: &str, sha: &str) -> FfiLock {
    FfiLock { uniffi: uniffi.to_string(), swift_sources_sha256: sha.to_string() }
}

#[test]
fn binding_file_names() {
    assert_eq!(swift_file(), "colorlull_engine.swift");
    assert_eq!(header_file(), "colorlull_engineFFI.h");
}

#[test]
fn fingerprint_names_are_in_string_order() {
    assert_eq!(
        fingerprint_names(),
        vec!["colorlull_engine.swift".to_string(), "colorlull_engineFFI.h".to_string(), "module.modulemap".to_string()]
    );
}

#[test]
fn fingerprint_of_nothing_is_the_empty_digest() {
    assert_eq!(fingerprint(&[]), "e3b0c44298fc1c149afbf4c8996fb92427ae41e4649b934ca495991b7852b855");
}

#[test]
fn fingerprint_frames_names_and_contents_with_nul() {
    let f = files(&[("a.swift", b"xy"), ("b.h", b"")]);
    assert_eq!(fingerprint_bytes(&f), b"a.swift\0xy\0b.h\0\0".to_vec());
    let expected: String = Sha256::digest(b"a.swift\0xy\0b.h\0\0").iter().map(|b| format!("{b:02x}")).collect();
    assert_eq!(fingerprint(&f), expected);
}

#[test]
fn fingerprint_tells_a_moved_name_tail_apart() {
    let one = fingerprint(&files(&[("ab", b"c")]));
    let two = fingerprint(&files(&[("a", b"bc")]));
    assert_ne!(one, two);
    assert_eq!(one.len(), 64);
}

#[test]
fn fingerprint_names_are_utf8_encoded() {
    assert_eq!(fingerprint_bytes(&files(&[("é", b"1")])), vec![0xc3, 0xa9, 0, b'1', 0]);
}

#[test]
fn lower_hex_pads_each_byte() {
    assert_eq!(lower_hex(&[0x00, 0x0f, 0xab, 0xff]), "000fabff");
    assert_eq!(lower_hex(&[]), "");
}

#[test]
fn host_library_names() {
    assert_eq!(host_cdylib(Host::MacOs).as_deref(), Some("libengine.dylib"));
    assert_eq!(host_cdylib(Host::Linux).as_deref(), Some("libengine.so"));
    assert_eq!(host_cdylib(Host::Other), None);
}

#[test]
fn uniffi_version_is_the_shared_one() {
    let ps = vec![pkg("anyhow", "1.0.0"), pkg("uniffi", "0.29.5"), pkg("uniffi_bindgen", "0.29.5")];
    assert!(matches!(uniffi_version(&ps), Ok(v) if v == "0.29.5"));
}

#[test]
fn uniffi_version_takes_the_first_entry_of_a_name() {
    let ps = vec![pkg("uniffi", "0.29.5"), pkg("uniffi_bindgen", "0.29.5"), pkg("uniffi", "0.28.0")];
    assert!(matches!(uniffi_version(&ps), Ok(v) if v == "0.29.5"));
}

#[test]
fn uniffi_version_missing_runtime() {
    let ps = vec![pkg("uniffi_bindgen", "0.29.5")];
    let e = uniffi_version(&ps).err().unwrap();
    assert!(matches!(&e, VersionError::Missing(n) if n == "uniffi"));
    assert_eq!(e.message(), "Cargo.lock 沒有 uniffi——core/engine 應該依賴它");
}

#[test]
fn uniffi_version_missing_generator() {
    let ps = vec![pkg("uniffi", "0.29.5")];
    assert!(matches!(uniffi_version(&ps), Err(VersionError::Missing(n)) if n == "uniffi_bindgen"));
}

#[test]
fn uniffi_version_mismatch() {
    let ps = vec![pkg("uniffi", "0.29.5"), pkg("uniffi_bindgen", "0.29.4")];
    let e = uniffi_version(&ps).err().unwrap();
    assert!(matches!(&e, VersionError::Mismatch { uniffi, bindgen } if uniffi == "0.29.5" && bindgen == "0.29.4"));
    assert_eq!(
        e.message(),
        "uniffi 0.29.5 與 uniffi_bindgen 0.29.4 版本不一致；兩者都要在 [workspace.dependencies] 用 `=` 硬 pin 在同一版"
    );
}

#[test]
fn lock_text_ends_with_the_two_keys() {
    let text = lock_text("0.29.5", "abc123");
    assert!(text.starts_with("# "));
    assert!(text.ends_with("uniffi = \"0.29.5\"\nswift_sources_sha256 = \"abc123\"\n"));
    assert!(text.lines().filter(|l| !l.starts_with('#')).count() == 2);
}

#[test]
fn lock_text_reads_back() {
    let text = lock_text("0.29.5", "e3b0c442");
    let value: toml::Table = toml::from_str(&text).unwrap();
    assert_eq!(value.len(), 2);
    assert_eq!(value["uniffi"].as_str(), Some("0.29.5"));
    assert_eq!(value["swift_sources_sha256"].as_str(), Some("e3b0c442"));
}

#[test]
fn lock_matching_everything_passes() {
    let l = lock("0.29.5", "abc");
    assert!(check_uniffi(&l, &"0.29.5".to_string()).is_none());
    assert!(check_bindings(&l, &"abc".to_string()).is_none());
}

#[test]
fn lock_with_another_generator_version() {
    let l = lock("0.29.4", "abc");
    let m = check_uniffi(&l, &"0.29.5".to_string()).unwrap();
    assert!(matches!(&m, LockMismatch::Uniffi { recorded, actual } if recorded == "0.29.4" && actual == "0.29.5"));
    assert_eq!(
        m.message(),
        format!("verify-generated：{LOCK_FILE} 記錄 uniffi 0.29.4，實際編進去的是 0.29.5；請重跑 `cargo xtask ios`")
    );
}

#[test]
fn lock_with_stale_bindings() {
    let l = lock("0.29.5", "old");
    let m = check_bindings(&l, &"new".to_string()).unwrap();
    assert!(matches!(&m, LockMismatch::Bindings { recorded, actual } if recorded == "old" && actual == "new"));
    assert_eq!(
        m.message(),
        format!(
            "verify-generated：Swift binding 與 {LOCK_FILE} 不符\n  記錄：old\n  實際：new\nFFI 表面變了。請跑 `cargo xtask ios` 並把 {LOCK_FILE} 一起 commit"
        )
    );
}
