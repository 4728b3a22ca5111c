use dll_pack::dependency::Dependency;
use dll_pack::dllpack_file::{DllPackFile, Manifest, ManifestError, PlatformManifest};
use dll_pack::download::{check_status, join, parent_dir, DllInfo, ManifestInfo};
use dll_pack::error::Error;
use dll_pack::load::{is_wasi, is_wasm};
use dll_pack::resolve::ResolveError;
use dll_pack::text::contains_str;
use dll_pack::urls::last_path_segment;

fn platform(url: &str, deps: Vec<Dependency>) -> PlatformManifest {
    PlatformManifest { url: url.to_string(), name: None, dependencies: deps }
}

fn file(version: &str, platforms: Vec<(&str, PlatformManifest)>) -> DllPackFile {
    DllPackFile {
        spec_version: version.to_string(),
        manifest: Manifest {
            platforms: platforms.into_iter().map(|(k, p)| (k.to_string(), p)).collect(),
        },
    }
}

#[test]
fn substring_search() {
    assert!(contains_str("wasm32-wasip1", "wasm"));
    assert!(contains_str("abc", ""));
    assert!(contains_str("abc", "abc"));
    assert!(!contains_str("ab", "abc"));
    assert!(!contains_str("x86_64-unknown-linux-gnu", "wasm"));
}

#[test]
fn platform_kinds() {
    assert!(is_wasm("wasm32-wasip1"));
    assert!(is_wasi("wasm32-wasip1"));
    assert!(is_wasm("wasm32-unknown-unknown"));
    assert!(!is_wasi("wasm32-unknown-unknown"));
    assert!(!is_wasm("x86_64-unknown-linux-gnu"));
}

#[test]
fn last_segment_of_paths() {
    assert_eq!(last_path_segment("/a/b/libA.so"), Some("libA.so".to_string()));
    assert_eq!(last_path_segment("/libA.so"), Some("libA.so".to_string()));
    assert_eq!(last_path_segment("/"), Some(String::new()));
    assert_eq!(last_path_segment("a/b"), None);
    assert_eq!(last_path_segment(""), None);
}

#[test]
fn joining_paths() {
    assert_eq!(join("/w", "a"), "/w/a");
    assert_eq!(join("/w/", "a"), "/w/a");
    assert_eq!(join("", "a"), "a");
    assert_eq!(parent_dir("/w/x/libA.so"), "/w/x");
    assert_eq!(parent_dir("libA.so"), "");
}

#[test]
fn manifest_path_layout() {
    let info = ManifestInfo::from_input("http://h/a.dllpack", "/w");
    assert_eq!(info.url, "http://h/a.dllpack");
    assert_eq!(info.path, "/w/_manifests/http%3A%2F%2Fh%2Fa.dllpack");
}

#[test]
fn binary_path_layout() {
    let info = DllInfo::from_input("http://h/x/libA.so", None, "/w").unwrap();
    assert_eq!(info.name, "libA.so");
    assert_eq!(info.cache_dir, Some("/w/http%3A%2F%2Fh%2Fx%2FlibA.so".to_string()));
    assert_eq!(info.path, "/w/http%3A%2F%2Fh%2Fx%2FlibA.so/libA.so");
    assert_eq!(
        info.wasm_module_cache_path(),
        "/w/http%3A%2F%2Fh%2Fx%2FlibA.so/module-cache-libA.so.bin"
    );
}

#[test]
fn binary_name_given() {
    let info = DllInfo::from_input("http://h/download?id=7", Some("libB.so"), "/w").unwrap();
    assert_eq!(info.name, "libB.so");
    assert_eq!(info.path, "/w/http%3A%2F%2Fh%2Fdownload%3Fid%3D7/libB.so");
}

#[test]
fn binary_name_missing() {
    let r = DllInfo::from_input("not a url", None, "/w");
    assert!(matches!(r, Err(ResolveError::MissingFileName(u)) if u == "not a url"));
    let r = DllInfo::from_input("mailto:someone@example.com", None, "/w");
    assert!(matches!(r, Err(ResolveError::MissingFileName(_))));
}

#[test]
fn download_status() {
    assert!(check_status("http://h/a", 200).is_ok());
    assert!(check_status("http://h/a", 299).is_ok());
    assert!(matches!(
        check_status("http://h/a", 404),
        Err(Error::DownloadHttp { url, status: 404 }) if url == "http://h/a"
    ));
    assert!(check_status("http://h/a", 300).is_err());
    assert!(check_status("http://h/a", 199).is_err());
}

#[test]
fn validate_accepts_supported_version() {
    let f = file("1.0.0", vec![("linux", platform("http://h/libA.so", vec![]))]);
    let g = f.validate().unwrap();
    assert_eq!(g.spec_version, "1.0.0");
    assert_eq!(g.manifest.platforms.len(), 1);
    assert_eq!(g.manifest.platforms[0].0, "linux");
    assert_eq!(g.manifest.platforms[0].1.url, "http://h/libA.so");
}

#[test]
fn validate_rejects_other_versions() {
    for v in ["2.0.0", "1.0", "", "1.0.0 "] {
        let f = file(v, vec![("linux", platform("http://h/libA.so", vec![]))]);
        assert!(matches!(f.validate(), Err(ManifestError::UnsupportedSpecVersion(x)) if x == v));
    }
}

#[test]
fn validate_round_trip_keeps_normal_documents() {
    let deps = vec![
        Dependency::RawLib { url: "http://h/libz.so".to_string(), name: Some("libz.so.1".to_string()) },
        Dependency::DllPack { url: "http://h/b.dllpack".to_string() },
    ];
    let f = file(
        "1.0.0",
        vec![
            ("linux", platform("http://h/libA.so", deps)),
            ("wasm32-wasip1", platform("http://h/a.wasm", vec![])),
        ],
    );
    let g = f.validate().unwrap();
    assert_eq!(g.manifest.platforms.len(), 2);
    assert_eq!(g.manifest.platforms[1].0, "wasm32-wasip1");
    let p = &g.manifest.platforms[0].1;
    assert_eq!(p.dependencies.len(), 2);
    assert!(matches!(&p.dependencies[0],
        Dependency::RawLib { url, name: Some(n) } if url == "http://h/libz.so" && n == "libz.so.1"));
    assert!(matches!(&p.dependencies[1], Dependency::DllPack { url } if url == "http://h/b.dllpack"));
}

#[test]
fn validate_normalizes_urls() {
    let deps = vec![Dependency::DllPack { url: "HTTP://H/b.dllpack".to_string() }];
    let f = file("1.0.0", vec![("linux", platform("HTTP://H:80/libA.so", deps))]);
    let g = f.validate().unwrap();
    let p = &g.manifest.platforms[0].1;
    assert_eq!(p.url, "http://h/libA.so");
    assert!(matches!(&p.dependencies[0], Dependency::DllPack { url } if url == "http://h/b.dllpack"));
}

#[test]
fn validate_rejects_bad_urls() {
    let deps = vec![Dependency::DllPack { url: "no scheme".to_string() }];
    let f = file("1.0.0", vec![("linux", platform("http://h/libA.so", deps))]);
    assert!(matches!(f.validate(), Err(ManifestError::InvalidUrl(u)) if u == "no scheme"));
    let f = file("2.0.0", vec![("linux", platform("::", vec![]))]);
    assert!(matches!(f.validate(), Err(ManifestError::InvalidUrl(u)) if u == "::"));
}

#[test]
fn validate_rejects_duplicate_platforms() {
    let f = file(
        "1.0.0",
        vec![
            ("linux", platform("http://h/libA.so", vec![])),
            ("linux", platform("http://h/libB.so", vec![])),
        ],
    );
    assert!(matches!(f.validate(), Err(ManifestError::DuplicatePlatform(k)) if k == "linux"));
}

#[test]
fn resolve_error_messages() {
    assert_eq!(
        ResolveError::PlatformNotSupported("darwin".to_string()).message(),
        "Platform darwin is not supported"
    );
    assert_eq!(
        ResolveError::UnresolvedDependencies("linux".to_string()).message(),
        "Failed to resolve all dependencies for linux. It may be a circular dependency."
    );
    assert_eq!(
        ResolveError::MissingFileName("x".to_string()).message(),
        "Could not get file name of x"
    );
}
