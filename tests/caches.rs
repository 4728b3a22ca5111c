use dll_pack::download::DllInfo;
use dll_pack::error::Error;
use dll_pack::fs_utils::get_available_drives;
use dll_pack::load::{backend_for, check_wasm_dependencies, fallback_platform, should_fall_back, Backend};
use dll_pack::process_cache::{ResourcePool, SingleCache, Source};
use dll_pack::resolve::ResolveError;

#[test]
fn single_cache_loads_once() {
    let mut cache: SingleCache<u32> = SingleCache::new();
    let mut loads = 0;
    for _ in 0..3 {
        let s = Source::new("http://h/a.dllpack", "linux");
        let lib = match cache.take(&s) {
            Some(l) => l,
            None => {
                loads += 1;
                40 + loads
            }
        };
        cache.insert(s, lib);
    }
    assert_eq!(loads, 1);
    assert!(cache.contains(&Source::new("http://h/a.dllpack", "linux")));
    assert!(!cache.contains(&Source::new("http://h/a.dllpack", "wasm32-wasip1")));
    assert_eq!(cache.take(&Source::new("http://h/a.dllpack", "linux")), Some(41));
}

#[test]
fn single_cache_keys_by_url_and_platform() {
    let mut cache: SingleCache<&str> = SingleCache::new();
    cache.insert(Source::new("http://h/a.dllpack", "linux"), "native");
    cache.insert(Source::new("http://h/a.dllpack", "wasm32-wasip1"), "wasm");
    cache.insert(Source::new("http://h/a.dllpack", "linux"), "native2");
    assert_eq!(cache.take(&Source::new("http://h/a.dllpack", "linux")), Some("native2"));
    assert_eq!(cache.take(&Source::new("http://h/a.dllpack", "linux")), None);
    assert_eq!(cache.take(&Source::new("http://h/a.dllpack", "wasm32-wasip1")), Some("wasm"));
}

#[test]
fn pool_reuses_returned_handles() {
    let mut pool: ResourcePool<u32> = ResourcePool::new();
    let a = pool.get_or_create_resource(&|| Ok(1)).unwrap();
    assert_eq!(pool.in_use_count(), 1);
    pool.return_resource(a);
    assert_eq!((pool.idle_count(), pool.in_use_count()), (1, 0));
    let b = pool.get_or_create_resource(&|| Ok(2)).unwrap();
    assert_eq!(b, 1);
    assert_eq!((pool.idle_count(), pool.in_use_count()), (0, 1));
}

#[test]
fn pool_never_lends_one_handle_twice() {
    let mut pool: ResourcePool<u32> = ResourcePool::new();
    let next = std::cell::Cell::new(0);
    let create = || {
        next.set(next.get() + 1);
        Ok(next.get())
    };
    let mut out = Vec::new();
    for _ in 0..8 {
        out.push(pool.get_or_create_resource(&create).unwrap());
    }
    let mut seen = out.clone();
    seen.sort();
    seen.dedup();
    assert_eq!(seen.len(), 8);
    assert_eq!(pool.in_use_count(), 8);
    for h in out {
        pool.return_resource(h);
    }
    assert_eq!((pool.idle_count(), pool.in_use_count()), (8, 0));
    // a second wave of eight callers creates nothing new
    let mut again = Vec::new();
    for _ in 0..8 {
        again.push(pool.get_or_create_resource(&create).unwrap());
    }
    assert_eq!(next.get(), 8);
    for h in again {
        pool.return_resource(h);
    }
    assert_eq!((pool.idle_count(), pool.in_use_count()), (8, 0));
}

#[test]
fn pool_unchanged_when_creation_fails() {
    let mut pool: ResourcePool<u32> = ResourcePool::new();
    let r = pool.get_or_create_resource(&|| Err(Error::DownloadIo("offline".to_string())));
    assert!(matches!(r, Err(Error::DownloadIo(_))));
    assert_eq!((pool.idle_count(), pool.in_use_count()), (0, 0));
}

#[test]
fn backend_selection() {
    assert_eq!(backend_for("wasm32-wasip1"), Backend::Wasm);
    assert_eq!(backend_for("x86_64-unknown-linux-gnu"), Backend::Native);
    assert_eq!(fallback_platform(), "wasm32-wasip1");
}

#[test]
fn fallback_only_for_unsupported_platform() {
    assert!(should_fall_back(&Error::Resolve(ResolveError::PlatformNotSupported("x".to_string()))));
    assert!(!should_fall_back(&Error::Resolve(ResolveError::UnresolvedDependencies("x".to_string()))));
    assert!(!should_fall_back(&Error::WasmWithDependencies));
}

#[test]
fn wasm_primary_without_dependencies() {
    assert!(check_wasm_dependencies(&Vec::new()).is_ok());
    let dep = DllInfo::from_input("http://h/libz.so", None, "/w").unwrap();
    assert!(matches!(check_wasm_dependencies(&vec![dep]), Err(Error::WasmWithDependencies)));
}

#[test]
fn available_drives() {
    let drives = get_available_drives(&|c: char| c == 'C' || c == 'Z' || c == 'D');
    assert_eq!(drives, vec!['C', 'D', 'Z']);
    assert!(get_available_drives(&|_c: char| false).is_empty());
    assert_eq!(get_available_drives(&|_c: char| true).len(), 26);
}
