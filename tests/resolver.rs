use std::cell::RefCell;
use std::collections::HashMap;
use std::collections::HashSet;

use dll_pack::cached::get_all_cached_dependencies;
use dll_pack::dependency::Dependency;
use dll_pack::dllpack_file::{DllPackFile, Manifest, PlatformManifest};
use dll_pack::download::{DllInfo, ManifestInfo};
use dll_pack::error::Error;
use dll_pack::load::with_fallback;
use dll_pack::resolve::{fetch_manifests, resolve, ResolveError};

const WORK: &str = "/home/nahco314/RustroverProjects/dll-pack/work";

fn pack(url: &str) -> Dependency {
    Dependency::DllPack { url: url.to_string() }
}

fn doc(platforms: Vec<(&str, &str, Vec<Dependency>)>) -> DllPackFile {
    DllPackFile {
        spec_version: "1.0.0".to_string(),
        manifest: Manifest {
            platforms: platforms
                .into_iter()
                .map(|(k, url, deps)| {
                    (k.to_string(), PlatformManifest { url: url.to_string(), name: None, dependencies: deps })
                })
                .collect(),
        },
    }
}

/// An in-memory server: manifests by URL, with a log of what was fetched.
struct Server {
    docs: HashMap<String, DllPackFile>,
    fetched: RefCell<Vec<String>>,
    binaries: RefCell<Vec<String>>,
}

impl Server {
    fn new(docs: Vec<(&str, DllPackFile)>) -> Server {
        Server {
            docs: docs.into_iter().map(|(u, d)| (u.to_string(), d)).collect(),
            fetched: RefCell::new(Vec::new()),
            binaries: RefCell::new(Vec::new()),
        }
    }

    fn manifest(&self, info: &ManifestInfo) -> Result<DllPackFile, Error> {
        self.fetched.borrow_mut().push(info.url.clone());
        match self.docs.get(&info.url) {
            Some(d) => Ok(d.clone()),
            None => Err(Error::DownloadHttp { url: info.url.clone(), status: 404 }),
        }
    }

    fn binary(&self, info: &DllInfo) -> Result<(), Error> {
        self.binaries.borrow_mut().push(info.url.clone());
        Ok(())
    }

    fn resolve(&self, url: &str, platform: &str) -> Result<(DllInfo, Vec<DllInfo>), Error> {
        resolve(url, WORK, platform, &|i: &ManifestInfo| self.manifest(i), &|d: &DllInfo| self.binary(d))
    }
}

#[test]
fn test_resolve() {
    let server = Server::new(vec![(
        "http://0.0.0.0:8000/a.dllpack",
        doc(vec![("wasm32-wasip1", "http://0.0.0.0:8000/a.wasm", vec![])]),
    )]);
    let result = server.resolve("http://0.0.0.0:8000/a.dllpack", "wasm32-wasip1").unwrap();
    println!("{:?}", result);
    assert_eq!(result.0.name, "a.wasm");
    assert!(result.1.is_empty());
}

#[test]
fn single_native_leaf() {
    let server = Server::new(vec![(
        "http://h/a.dllpack",
        doc(vec![("linux", "http://h/libA.so", vec![])]),
    )]);
    let (primary, deps) = server.resolve("http://h/a.dllpack", "linux").unwrap();
    assert_eq!(primary.url, "http://h/libA.so");
    assert_eq!(primary.name, "libA.so");
    assert!(deps.is_empty());
    assert_eq!(*server.binaries.borrow(), vec!["http://h/libA.so".to_string()]);
}

fn diamond() -> Server {
    Server::new(vec![
        ("http://h/a.dllpack", doc(vec![("linux", "http://h/libA.so", vec![pack("http://h/b.dllpack"), pack("http://h/c.dllpack")])])),
        ("http://h/b.dllpack", doc(vec![("linux", "http://h/libB.so", vec![pack("http://h/d.dllpack")])])),
        ("http://h/c.dllpack", doc(vec![("linux", "http://h/libC.so", vec![pack("http://h/d.dllpack")])])),
        ("http://h/d.dllpack", doc(vec![("linux", "http://h/libD.so", vec![])])),
    ])
}

#[test]
fn diamond_native_graph() {
    let server = diamond();
    let (primary, deps) = server.resolve("http://h/a.dllpack", "linux").unwrap();
    assert_eq!(primary.name, "libA.so");
    let names: Vec<&str> = deps.iter().map(|d| d.name.as_str()).collect();
    assert_eq!(names.len(), 3);
    assert_eq!(names[0], "libD.so");
    let rest: HashSet<&str> = names[1..].iter().copied().collect();
    assert_eq!(rest, ["libB.so", "libC.so"].into_iter().collect());
    assert_eq!(names, vec!["libD.so", "libB.so", "libC.so"]);
    // each manifest is fetched once, although D is reached twice
    assert_eq!(server.fetched.borrow().len(), 4);
}

#[test]
fn diamond_graph_nodes() {
    let server = diamond();
    let g = fetch_manifests("http://h/a.dllpack", WORK, "linux", &|i: &ManifestInfo| server.manifest(i)).unwrap();
    assert_eq!(g.nodes.len(), 4);
    assert_eq!(g.nodes[0].info.url, "http://h/a.dllpack");
    assert_eq!(g.nodes[0].deps, vec![1, 2]);
    assert_eq!(g.nodes[1].deps, vec![3]);
    assert_eq!(g.nodes[2].deps, vec![3]);
    assert!(g.nodes[3].deps.is_empty());
    assert_eq!(g.load_order(), Some(vec![3, 1, 2]));
}

#[test]
fn platform_not_supported() {
    let server = Server::new(vec![(
        "http://h/a.dllpack",
        doc(vec![("linux", "http://h/libA.so", vec![])]),
    )]);
    let r = server.resolve("http://h/a.dllpack", "darwin");
    assert!(matches!(r, Err(Error::Resolve(ResolveError::PlatformNotSupported(p))) if p == "darwin"));
}

#[test]
fn platform_fallback_reports_last_platform() {
    let server = Server::new(vec![(
        "http://h/a.dllpack",
        doc(vec![("linux", "http://h/libA.so", vec![])]),
    )]);
    let tried = RefCell::new(Vec::new());
    let r = with_fallback("darwin", &|p: &str| {
        tried.borrow_mut().push(p.to_string());
        server.resolve("http://h/a.dllpack", p)
    });
    assert!(matches!(r, Err(Error::Resolve(ResolveError::PlatformNotSupported(p))) if p == "wasm32-wasip1"));
    assert_eq!(*tried.borrow(), vec!["darwin".to_string(), "wasm32-wasip1".to_string()]);
}

#[test]
fn platform_fallback_succeeds_with_wasm() {
    let server = Server::new(vec![(
        "http://h/a.dllpack",
        doc(vec![("linux", "http://h/libA.so", vec![]), ("wasm32-wasip1", "http://h/a.wasm", vec![])]),
    )]);
    let r = with_fallback("darwin", &|p: &str| server.resolve("http://h/a.dllpack", p)).unwrap();
    assert_eq!(r.0.name, "a.wasm");
}

#[test]
fn fallback_not_taken_for_other_errors() {
    let tried = RefCell::new(0);
    let r: Result<(), Error> = with_fallback("linux", &|_p: &str| {
        *tried.borrow_mut() += 1;
        Err(Error::DownloadIo("offline".to_string()))
    });
    assert!(matches!(r, Err(Error::DownloadIo(_))));
    assert_eq!(*tried.borrow(), 1);
}

#[test]
fn cycle_detection() {
    let server = Server::new(vec![
        ("http://h/a.dllpack", doc(vec![("P", "http://h/libA.so", vec![pack("http://h/b.dllpack")])])),
        ("http://h/b.dllpack", doc(vec![("P", "http://h/libB.so", vec![pack("http://h/a.dllpack")])])),
    ]);
    let r = server.resolve("http://h/a.dllpack", "P");
    assert!(matches!(r, Err(Error::Resolve(ResolveError::UnresolvedDependencies(p))) if p == "P"));
    assert_eq!(server.fetched.borrow().len(), 2);
    assert!(server.binaries.borrow().is_empty());
}

#[test]
fn self_dependency_is_a_cycle() {
    let server = Server::new(vec![(
        "http://h/a.dllpack",
        doc(vec![("P", "http://h/libA.so", vec![pack("http://h/a.dllpack")])]),
    )]);
    let r = server.resolve("http://h/a.dllpack", "P");
    assert!(matches!(r, Err(Error::Resolve(ResolveError::UnresolvedDependencies(_)))));
}

#[test]
fn raw_libraries_are_not_followed() {
    let server = Server::new(vec![(
        "http://h/a.dllpack",
        doc(vec![("linux", "http://h/libA.so", vec![Dependency::RawLib { url: "http://h/libz.so".to_string(), name: None }])]),
    )]);
    let (primary, deps) = server.resolve("http://h/a.dllpack", "linux").unwrap();
    assert_eq!(primary.name, "libA.so");
    assert!(deps.is_empty());
    assert_eq!(server.fetched.borrow().len(), 1);
}

#[test]
fn download_errors_pass_through() {
    let server = Server::new(vec![(
        "http://h/a.dllpack",
        doc(vec![("linux", "http://h/libA.so", vec![pack("http://h/missing.dllpack")])]),
    )]);
    let r = server.resolve("http://h/a.dllpack", "linux");
    assert!(matches!(r, Err(Error::DownloadHttp { status: 404, .. })));
}

#[test]
fn cached_enumeration() {
    let a = doc(vec![
        ("linux", "http://h/libA.so", vec![pack("http://h/b.dllpack"), pack("http://h/gone.dllpack")]),
        ("wasm32-wasip1", "http://h/a.wasm", vec![]),
    ]);
    let b = doc(vec![("linux", "http://h/libB.so", vec![])]);
    let a_path = ManifestInfo::from_input("http://h/a.dllpack", WORK).path;
    let b_path = ManifestInfo::from_input("http://h/b.dllpack", WORK).path;
    let liba_dir = DllInfo::from_input("http://h/libA.so", None, WORK).unwrap().cache_dir.unwrap();
    let libb_dir = DllInfo::from_input("http://h/libB.so", None, WORK).unwrap().cache_dir.unwrap();
    let files: HashMap<String, DllPackFile> =
        vec![(a_path.clone(), a), (b_path.clone(), b)].into_iter().collect();
    let present: HashSet<String> =
        vec![a_path.clone(), b_path.clone(), liba_dir.clone(), libb_dir.clone()].into_iter().collect();
    let r = get_all_cached_dependencies(
        "http://h/a.dllpack",
        WORK,
        &|p: &String| present.contains(p),
        &|p: &String| Ok(files.get(p).unwrap().clone()),
    )
    .unwrap()
    .unwrap();
    assert_eq!(
        r,
        vec![
            ("http://h/a.dllpack".to_string(), a_path),
            ("http://h/libA.so".to_string(), liba_dir),
            ("http://h/b.dllpack".to_string(), b_path),
            ("http://h/libB.so".to_string(), libb_dir),
        ]
    );
}

#[test]
fn cached_enumeration_without_manifest() {
    let r = get_all_cached_dependencies(
        "http://h/a.dllpack",
        WORK,
        &|_p: &String| false,
        &|_p: &String| Err(Error::DownloadIo("unreachable".to_string())),
    )
    .unwrap();
    assert!(r.is_none());
}

#[test]
fn cached_enumeration_lists_shared_manifest_once() {
    let docs = vec![
        ("http://h/a.dllpack", doc(vec![("linux", "http://h/libA.so", vec![pack("http://h/b.dllpack"), pack("http://h/c.dllpack")])])),
        ("http://h/b.dllpack", doc(vec![("linux", "http://h/libB.so", vec![pack("http://h/d.dllpack")])])),
        ("http://h/c.dllpack", doc(vec![("linux", "http://h/libC.so", vec![pack("http://h/d.dllpack")])])),
        ("http://h/d.dllpack", doc(vec![("linux", "http://h/libD.so", vec![])])),
    ];
    let files: HashMap<String, DllPackFile> = docs
        .into_iter()
        .map(|(u, d)| (ManifestInfo::from_input(u, WORK).path, d))
        .collect();
    let present: HashSet<String> = files.keys().cloned().collect();
    let r = get_all_cached_dependencies(
        "http://h/a.dllpack",
        WORK,
        &|p: &String| present.contains(p),
        &|p: &String| Ok(files.get(p).unwrap().clone()),
    )
    .unwrap()
    .unwrap();
    let urls: Vec<&str> = r.iter().map(|(u, _)| u.as_str()).collect();
    assert_eq!(urls, vec!["http://h/a.dllpack", "http://h/b.dllpack", "http://h/c.dllpack", "http://h/d.dllpack"]);
}

#[test]
fn cached_enumeration_without_file_name() {
    let a = doc(vec![("linux", "mailto:someone@example.com", vec![])]);
    let a_path = ManifestInfo::from_input("http://h/a.dllpack", WORK).path;
    let r = get_all_cached_dependencies(
        "http://h/a.dllpack",
        WORK,
        &|p: &String| *p == a_path,
        &|_p: &String| Ok(a.clone()),
    );
    assert!(matches!(r, Err(Error::Resolve(ResolveError::MissingFileName(u))) if u == "mailto:someone@example.com"));
}
