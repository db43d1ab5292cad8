//! The generated iOS bindings: which text files they are, the fingerprint that
//! the committed lock file records for them, and the checks against that lock.
//!
//! Building the host library, running the binding generator and `xcodebuild`,
//! and reading and writing files are left to the caller.
use vstd::prelude::*;
use vstd::utf8::encode_utf8;
use crate::text::{lower_hex, lower_hex_spec};
use crate::xtask::names::{ascending, names_of, NameSet};

verus! {

/// The engine package whose library the bindings are generated from.
pub const PACKAGE: &'static str = "colorlull-engine";

/// The engine's `[lib] name`; the artefacts are `libengine.{a,dylib,so}`.
pub const LIB_NAME: &'static str = "engine";

/// The binding namespace.
pub const NAMESPACE: &'static str = "colorlull_engine";

/// The module map's module: the namespace followed by `FFI`, to the letter.
pub const MODULE_NAME: &'static str = "colorlull_engineFFI";

/// The module map's file name, the one `-create-xcframework` looks for.
pub const MODULEMAP_FILE: &'static str = "module.modulemap";

/// The arm64 device target.
pub const IOS_DEVICE_TARGET: &'static str = "aarch64-apple-ios";

/// The arm64 simulator target.
pub const IOS_SIMULATOR_TARGET: &'static str = "aarch64-apple-ios-sim";

/// The lock file, committed; the artefacts themselves are not.
pub const LOCK_FILE: &'static str = "core/engine/ffi-lock.toml";

/// Where the bindings and the framework are installed.
pub const GENERATED_DIR: &'static str = "apps/ios/Generated";

/// The framework bundle's name.
pub const XCFRAMEWORK_NAME: &'static str = "ColorlullEngine.xcframework";

/// The comment lines that open the lock file.
pub const LOCK_HEADER: &'static str = "# 由 `cargo xtask ios` 產生，請勿手改。\n# 產物是 gitignore 的，這個檔是它唯一的基準：hash 涵蓋 bindgen 的三個文字產物\n# （.swift / FFI.h / module.modulemap），不含 .xcframework。\n# 這裡的 diff 即「FFI 表面變了」。\n";

pub open spec fn swift_file_spec() -> Seq<char> {
    NAMESPACE@ + ".swift"@
}

pub open spec fn header_file_spec() -> Seq<char> {
    NAMESPACE@ + "FFI.h"@
}

/// The Swift source's file name.
pub fn swift_file() -> (s: String)
    ensures
        s@ == swift_file_spec(),
{
    let mut s = String::from_str(NAMESPACE);
    s.append(".swift");
    s
}

/// The C header's file name.
pub fn header_file() -> (s: String)
    ensures
        s@ == header_file_spec(),
{
    let mut s = String::from_str(NAMESPACE);
    s.append("FFI.h");
    s
}

/// The three text files that the fingerprint covers, in `String` order, so
/// that the fingerprint does not depend on how a directory lists them. The
/// framework bundle is not among them: it is not reproducible, and it cannot be
/// built off macOS at all.
pub fn fingerprint_names() -> (names: Vec<String>)
    ensures
        ascending(names_of(names@)),
        forall|x: Seq<char>| #![trigger names_of(names@).contains(x)]
            names_of(names@).contains(x) <==> (x == swift_file_spec() || x == header_file_spec() || x == MODULEMAP_FILE@),
{
    let mut all: Vec<String> = Vec::new();
    all.push(swift_file());
    all.push(header_file());
    all.push(String::from_str(MODULEMAP_FILE));
    proof {
        let v = names_of(all@);
        assert(v[0] == swift_file_spec() && v[1] == header_file_spec() && v[2] == MODULEMAP_FILE@);
        assert forall|x: Seq<char>| v.contains(x) <==> (x == swift_file_spec() || x == header_file_spec() || x == MODULEMAP_FILE@) by {
            if v.contains(x) {
                let k = choose|k: int| 0 <= k < v.len() && v[k] == x;
            }
        }
    }
    let set = NameSet::from_names(all);
    let mut names: Vec<String> = Vec::new();
    let mut i: usize = 0;
    while i < set.len()
        invariant
            i <= set@.len(),
            set.wf(),
            names_of(names@) == set@.take(i as int),
        decreases set@.len() - i,
    {
        let r = set.get(i);
        let n = r.clone();
        assert(n@ == set@[i as int]);
        let ghost before = names@;
        names.push(n);
        proof {
            assert(names@ == before.push(n));
            assert(names_of(before).len() == before.len());
            assert(set@.take(i as int).len() == i);
            assert(before.len() == i);
            assert(names_of(names@).len() == i + 1);
            assert(names_of(before) == set@.take(i as int));
            assert forall|j: int| 0 <= j < i + 1 implies #[trigger] names_of(names@)[j] == set@.take(i + 1)[j] by {
                if j < i {
                    assert(names_of(before)[j] == set@.take(i as int)[j]);
                } else {
                    assert(names@[j] == n);
                }
            }
            assert(names_of(names@) =~= set@.take(i + 1));
        }
        i += 1;
    }
    assert(set@.take(set@.len() as int) =~= set@);
    names
}

/// One file's share of the fingerprinted bytes: its name in UTF-8, a NUL, its
/// content, a NUL. The separators keep the tail of a name from passing for the
/// head of its content.
pub open spec fn framed_file(name: Seq<char>, content: Seq<u8>) -> Seq<u8> {
    encode_utf8(name) + seq![0u8] + content + seq![0u8]
}

/// The fingerprinted bytes of the files, in the order given.
pub open spec fn framed(files: Seq<(String, Vec<u8>)>) -> Seq<u8>
    decreases files.len(),
{
    if files.len() == 0 {
        Seq::empty()
    } else {
        framed(files.drop_last()) + framed_file(files.last().0@, files.last().1@)
    }
}

fn push_all(out: &mut Vec<u8>, bytes: &[u8])
    ensures
        final(out)@ == old(out)@ + bytes@,
{
    let ghost start = out@;
    let mut i: usize = 0;
    while i < bytes.len()
        invariant
            i <= bytes@.len(),
            out@ == start + bytes@.take(i as int),
        decreases bytes@.len() - i,
    {
        out.push(bytes[i]);
        assert(bytes@.take(i + 1) =~= bytes@.take(i as int).push(bytes@[i as int]));
        i += 1;
    }
    assert(bytes@.take(bytes@.len() as int) =~= bytes@);
}

/// The bytes that the fingerprint hashes.
pub fn fingerprint_bytes(files: &[(String, Vec<u8>)]) -> (out: Vec<u8>)
    ensures
        out@ == framed(files@),
{
    let mut out: Vec<u8> = Vec::new();
    let mut i: usize = 0;
    while i < files.len()
        invariant
            i <= files@.len(),
            out@ == framed(files@.take(i as int)),
        decreases files@.len() - i,
    {
        let name = files[i].0.as_str().as_bytes();
        push_all(&mut out, name);
        out.push(0);
        push_all(&mut out, files[i].1.as_slice());
        out.push(0);
        proof {
            let t = files@.take(i + 1);
            assert(t.drop_last() =~= files@.take(i as int));
            assert(t.last() == files@[i as int]);
            assert(out@ =~= framed(t));
        }
        i += 1;
    }
    assert(files@.take(files@.len() as int) =~= files@);
    out
}

/// What `sha2::Sha256::digest` returns for `data`: its SHA-256 digest.
pub uninterp spec fn sha256(data: Seq<u8>) -> Seq<u8>;

/// `sha2::Sha256::digest`: the SHA-256 digest of `data`, a 32-byte value that
/// depends on `data` alone. Nothing more of the digest is stated.
#[verifier::external_body]
fn sha256_digest(data: &[u8]) -> (d: Vec<u8>)
    ensures
        d@ == sha256(data@),
        d@.len() == 32,
{
    <sha2::Sha256 as sha2::Digest>::digest(data).to_vec()
}

/// The fingerprint of the generated bindings: the SHA-256 of the framed files,
/// in lower-case hex. The caller passes the files named by
/// [`fingerprint_names`], in that order.
pub fn fingerprint(files: &[(String, Vec<u8>)]) -> (s: String)
    ensures
        s@ == lower_hex_spec(sha256(framed(files@))),
{
    let bytes = fingerprint_bytes(files);
    let digest = sha256_digest(bytes.as_slice());
    lower_hex(digest.as_slice())
}

/// A platform that the binding generator runs on.
#[derive(Debug, Clone, Copy, PartialEq, Eq)]
pub enum Host {
    MacOs,
    Linux,
    Other,
}

/// The host library's file name on `host`; none where the generator has not
/// been tried.
pub fn host_cdylib(host: Host) -> (name: Option<String>)
    ensures
        match host {
            Host::MacOs => name matches Some(n) && n@ == "lib"@ + LIB_NAME@ + ".dylib"@,
            Host::Linux => name matches Some(n) && n@ == "lib"@ + LIB_NAME@ + ".so"@,
            Host::Other => name is None,
        },
{
    let ext = match host {
        Host::MacOs => ".dylib",
        Host::Linux => ".so",
        Host::Other => {
            return None;
        },
    };
    let mut s = String::from_str("lib");
    s.append(LIB_NAME);
    s.append(ext);
    Some(s)
}

/// A package as the workspace's `Cargo.lock` lists it.
pub struct LockPackage {
    pub name: String,
    pub version: String,
}

/// The version of the first package called `name`.
pub open spec fn version_of(ps: Seq<LockPackage>, name: Seq<char>) -> Option<Seq<char>>
    decreases ps.len(),
{
    if ps.len() == 0 {
        None
    } else if ps[0].name@ == name {
        Some(ps[0].version@)
    } else {
        version_of(ps.drop_first(), name)
    }
}

fn find_version(packages: &[LockPackage], name: &String) -> (v: Option<String>)
    ensures
        match version_of(packages@, name@) {
            Some(x) => v matches Some(s) && s@ == x,
            None => v is None,
        },
{
    let mut i: usize = 0;
    assert(packages@.skip(0) =~= packages@);
    while i < packages.len()
        invariant
            i <= packages@.len(),
            version_of(packages@, name@) == version_of(packages@.skip(i as int), name@),
        decreases packages@.len() - i,
    {
        assert(packages@.skip(i as int).drop_first() =~= packages@.skip(i + 1));
        if packages[i].name == *name {
            return Some(packages[i].version.clone());
        }
        i += 1;
    }
    None
}

/// Why the lock's packages do not give one version of the binding generator.
pub enum VersionError {
    /// No package of this name is locked.
    Missing(String),
    /// The runtime and the generator are locked at different versions.
    Mismatch { uniffi: String, bindgen: String },
}

/// The locked version of the binding runtime, which the generator must share:
/// both have to be pinned to the same release.
pub fn uniffi_version(packages: &[LockPackage]) -> (r: Result<String, VersionError>)
    ensures
        match (version_of(packages@, "uniffi"@), version_of(packages@, "uniffi_bindgen"@)) {
            (None, _) => r matches Err(VersionError::Missing(n)) && n@ == "uniffi"@,
            (Some(_), None) => r matches Err(VersionError::Missing(n)) && n@ == "uniffi_bindgen"@,
            (Some(u), Some(b)) => if u == b {
                r matches Ok(v) && v@ == u
            } else {
                r matches Err(VersionError::Mismatch { uniffi, bindgen }) && uniffi@ == u && bindgen@ == b
            },
        },
{
    let runtime = String::from_str("uniffi");
    let generator = String::from_str("uniffi_bindgen");
    let u = match find_version(packages, &runtime) {
        Some(u) => u,
        None => {
            return Err(VersionError::Missing(runtime));
        },
    };
    let b = match find_version(packages, &generator) {
        Some(b) => b,
        None => {
            return Err(VersionError::Missing(generator));
        },
    };
    if u == b {
        Ok(u)
    } else {
        Err(VersionError::Mismatch { uniffi: u, bindgen: b })
    }
}

impl VersionError {
    pub open spec fn message_spec(&self) -> Seq<char> {
        match self {
            VersionError::Missing(name) => "Cargo.lock 沒有 "@ + name@ + "——core/engine 應該依賴它"@,
            VersionError::Mismatch { uniffi, bindgen } => "uniffi "@ + uniffi@ + " 與 uniffi_bindgen "@ + bindgen@
                + " 版本不一致；兩者都要在 [workspace.dependencies] 用 `=` 硬 pin 在同一版"@,
        }
    }

    /// The error as the tool reports it.
    pub fn message(&self) -> (s: String)
        ensures
            s@ == self.message_spec(),
    {
        match self {
            VersionError::Missing(name) => {
                let mut s = String::from_str("Cargo.lock 沒有 ");
                s.append(name.as_str());
                s.append("——core/engine 應該依賴它");
                s
            },
            VersionError::Mismatch { uniffi, bindgen } => {
                let mut s = String::from_str("uniffi ");
                s.append(uniffi.as_str());
                s.append(" 與 uniffi_bindgen ");
                s.append(bindgen.as_str());
                s.append(" 版本不一致；兩者都要在 [workspace.dependencies] 用 `=` 硬 pin 在同一版");
                s
            },
        }
    }
}

/// The committed lock: the generator's version and the bindings' fingerprint.
pub struct FfiLock {
    pub uniffi: String,
    pub swift_sources_sha256: String,
}

pub open spec fn lock_text_spec(uniffi: Seq<char>, sha256: Seq<char>) -> Seq<char> {
    LOCK_HEADER@ + "uniffi = \""@ + uniffi + "\"\nswift_sources_sha256 = \""@ + sha256 + "\"\n"@
}

/// The lock file's text for a generator version and a fingerprint.
pub fn lock_text(uniffi: &str, sha256: &str) -> (s: String)
    ensures
        s@ == lock_text_spec(uniffi@, sha256@),
{
    let mut s = String::from_str(LOCK_HEADER);
    s.append("uniffi = \"");
    s.append(uniffi);
    s.append("\"\nswift_sources_sha256 = \"");
    s.append(sha256);
    s.append("\"\n");
    s
}

/// How the committed lock disagrees with what is built.
pub enum LockMismatch {
    /// The lock records another generator version than the one built in.
    Uniffi { recorded: String, actual: String },
    /// The bindings generated now have another fingerprint than the recorded one.
    Bindings { recorded: String, actual: String },
}

impl LockMismatch {
    pub open spec fn message_spec(&self) -> Seq<char> {
        match self {
            LockMismatch::Uniffi { recorded, actual } => "verify-generated："@ + LOCK_FILE@ + " 記錄 uniffi "@ + recorded@
                + "，實際編進去的是 "@ + actual@ + "；請重跑 `cargo xtask ios`"@,
            LockMismatch::Bindings { recorded, actual } => "verify-generated：Swift binding 與 "@ + LOCK_FILE@ + " 不符\n  記錄："@
                + recorded@ + "\n  實際："@ + actual@ + "\nFFI 表面變了。請跑 `cargo xtask ios` 並把 "@ + LOCK_FILE@ + " 一起 commit"@,
        }
    }

    /// The mismatch as the tool reports it.
    pub fn message(&self) -> (s: String)
        ensures
            s@ == self.message_spec(),
    {
        match self {
            LockMismatch::Uniffi { recorded, actual } => {
                let mut s = String::from_str("verify-generated：");
                s.append(LOCK_FILE);
                s.append(" 記錄 uniffi ");
                s.append(recorded.as_str());
                s.append("，實際編進去的是 ");
                s.append(actual.as_str());
                s.append("；請重跑 `cargo xtask ios`");
                s
            },
            LockMismatch::Bindings { recorded, actual } => {
                let mut s = String::from_str("verify-generated：Swift binding 與 ");
                s.append(LOCK_FILE);
                s.append(" 不符\n  記錄：");
                s.append(recorded.as_str());
                s.append("\n  實際：");
                s.append(actual.as_str());
                s.append("\nFFI 表面變了。請跑 `cargo xtask ios` 並把 ");
                s.append(LOCK_FILE);
                s.append(" 一起 commit");
                s
            },
        }
    }
}

/// Compares the lock's generator version with the one built in.
pub fn check_uniffi(lock: &FfiLock, uniffi: &String) -> (m: Option<LockMismatch>)
    ensures
        lock.uniffi@ == uniffi@ ==> m is None,
        lock.uniffi@ != uniffi@ ==> (m matches Some(LockMismatch::Uniffi { recorded, actual })
            && recorded@ == lock.uniffi@ && actual@ == uniffi@),
{
    if lock.uniffi == *uniffi {
        None
    } else {
        Some(LockMismatch::Uniffi { recorded: lock.uniffi.clone(), actual: uniffi.clone() })
    }
}

/// Compares the lock's fingerprint with that of the bindings generated now.
pub fn check_bindings(lock: &FfiLock, actual: &String) -> (m: Option<LockMismatch>)
    ensures
        lock.swift_sources_sha256@ == actual@ ==> m is None,
        lock.swift_sources_sha256@ != actual@ ==> (m matches Some(LockMismatch::Bindings { recorded, actual: a })
            && recorded@ == lock.swift_sources_sha256@ && a@ == actual@),
{
    if lock.swift_sources_sha256 == *actual {
        None
    } else {
        Some(LockMismatch::Bindings { recorded: lock.swift_sources_sha256.clone(), actual: actual.clone() })
    }
}

} // verus!
