use vstd::prelude::*;
use crate::dependency::{Dependency, DependencyModel};
use crate::dllpack_file::{DllPackFile, DllPackFileModel, PlatformManifest, PlatformManifestModel, entry_view};
use crate::download::{DllInfo, ManifestInfo, binary_dir, file_name, manifest_path};
use crate::download::join_path;
use crate::error::Error;
use crate::resolve::ResolveError;

verus! {

/// `e` names an artifact in the cache under `work_dir` that `path_exists`
/// reported present: a manifest, or the directory of a binary.
pub open spec fn listed<X: Fn(&String) -> bool>(
    e: (String, String),
    work_dir: Seq<char>,
    path_exists: X,
) -> bool {
    &&& (e.1@ == manifest_path(work_dir, e.0@) || e.1@ == binary_dir(work_dir, e.0@))
    &&& path_exists.ensures((&e.1,), true)
}

/// The entries as pairs of character sequences.
pub open spec fn entry_views(es: Seq<(String, String)>) -> Seq<(Seq<char>, Seq<char>)> {
    es.map_values(|e: (String, String)| (e.0@, e.1@))
}

/// `path_exists` reported the path `p` absent.
pub open spec fn reported_absent<X: Fn(&String) -> bool>(x: X, p: Seq<char>) -> bool {
    exists|q: String| q@ == p && #[trigger] x.ensures((&q,), false)
}

/// The binary at `url` is listed in `ev`, or its directory was reported absent.
pub open spec fn binary_covered<X: Fn(&String) -> bool>(
    url: Seq<char>,
    name: Option<Seq<char>>,
    ev: Seq<(Seq<char>, Seq<char>)>,
    wd: Seq<char>,
    x: X,
) -> bool {
    &&& file_name(url, name) is Some
    &&& ev.contains((url, binary_dir(wd, url))) || reported_absent(x, binary_dir(wd, url))
}

/// A dependency is listed in `ev`, or its file or directory was reported absent.
pub open spec fn dep_covered<X: Fn(&String) -> bool>(
    d: DependencyModel,
    ev: Seq<(Seq<char>, Seq<char>)>,
    wd: Seq<char>,
    x: X,
) -> bool {
    match d {
        DependencyModel::DllPack { url } => ev.contains((url, manifest_path(wd, url)))
            || reported_absent(x, manifest_path(wd, url)),
        DependencyModel::RawLib { url, name } => binary_covered(url, name, ev, wd, x),
    }
}

pub open spec fn platform_covered<X: Fn(&String) -> bool>(
    pm: PlatformManifestModel,
    ev: Seq<(Seq<char>, Seq<char>)>,
    wd: Seq<char>,
    x: X,
) -> bool {
    &&& binary_covered(pm.url, pm.name, ev, wd, x)
    &&& forall|j: int| 0 <= j < pm.dependencies.len() ==> dep_covered(#[trigger] pm.dependencies[j], ev, wd, x)
}

/// Everything that document `d` names, for every platform, is accounted for.
pub open spec fn doc_covered<X: Fn(&String) -> bool>(
    d: DllPackFileModel,
    ev: Seq<(Seq<char>, Seq<char>)>,
    wd: Seq<char>,
    x: X,
) -> bool {
    forall|i: int| 0 <= i < d.platforms.len() ==> platform_covered(#[trigger] d.platforms[i].1, ev, wd, x)
}

/// `e` is a binary directory, or the manifest of a visited package.
pub open spec fn entry_known(
    e: (String, String),
    wd: Seq<char>,
    visited: Seq<String>,
    paths: Seq<String>,
) -> bool {
    e.1@ == binary_dir(wd, e.0@) || exists|i: int|
        0 <= i < visited.len() && visited[i]@ == e.0@ && #[trigger] paths[i]@ == e.1@
}

/// The state of the walk: the manifests visited so far, the paths they were
/// read from and their documents, each listed in `es`; every entry of `es`
/// reported present.
pub open spec fn walk_ok<X: Fn(&String) -> bool, R: Fn(&String) -> Result<DllPackFile, Error>>(
    wd: Seq<char>,
    x: X,
    r: R,
    es: Seq<(String, String)>,
    visited: Seq<String>,
    paths: Seq<String>,
    docs: Seq<DllPackFile>,
) -> bool {
    &&& visited.len() == paths.len()
    &&& paths.len() == docs.len()
    &&& forall|i: int|
        0 <= i < visited.len() ==> {
            &&& #[trigger] paths[i]@ == manifest_path(wd, visited[i]@)
            &&& r.ensures((&paths[i],), Ok::<DllPackFile, Error>(docs[i]))
            &&& entry_views(es).contains((visited[i]@, paths[i]@))
        }
    &&& forall|j: int| 0 <= j < es.len() ==> listed(#[trigger] es[j], wd, x)
    &&& forall|j: int| 0 <= j < es.len() ==> entry_known(#[trigger] es[j], wd, visited, paths)
    &&& forall|a: int, b: int|
        0 <= a < b < visited.len() ==> #[trigger] visited[a]@ != #[trigger] visited[b]@
    &&& forall|j1: int, j2: int|
        0 <= j1 < j2 < es.len() && !is_binary_entry(es[j1], wd) && !is_binary_entry(es[j2], wd)
            ==> #[trigger] es[j1].0@ != #[trigger] es[j2].0@
}

/// Every answer of `path_exists` for the path `p` is `false`.
pub open spec fn absent_only<X: Fn(&String) -> bool>(x: X, p: Seq<char>) -> bool {
    forall|q: String, b: bool| q@ == p && #[trigger] x.ensures((&q,), b) ==> !b
}

/// Every answer of `path_exists` for the path `p` is `true`.
pub open spec fn present_only<X: Fn(&String) -> bool>(x: X, p: Seq<char>) -> bool {
    forall|q: String, b: bool| q@ == p && #[trigger] x.ensures((&q,), b) ==> b
}

/// `e` is the directory of a binary.
pub open spec fn is_binary_entry(e: (String, String), wd: Seq<char>) -> bool {
    e.1@ == binary_dir(wd, e.0@)
}

/// Entry `pm` names the binary at `u`, from which no file name follows.
pub open spec fn unnamed_in_platform(pm: PlatformManifestModel, u: Seq<char>) -> bool {
    (pm.url == u && file_name(u, pm.name) is None) || exists|j: int|
        0 <= j < pm.dependencies.len() && match #[trigger] pm.dependencies[j] {
            DependencyModel::RawLib { url, name } => url == u && file_name(u, name) is None,
            DependencyModel::DllPack { .. } => false,
        }
}

/// Document `d` names, for some platform, the binary at `u` without a file
/// name.
pub open spec fn names_unnamed_binary(d: DllPackFileModel, u: Seq<char>) -> bool {
    exists|i: int| 0 <= i < d.platforms.len() && #[trigger] unnamed_in_platform(d.platforms[i].1, u)
}

/// The manifest of a URL and the directory of its binary are different paths.
proof fn lemma_manifest_not_binary(wd: Seq<char>, u: Seq<char>)
    ensures
        manifest_path(wd, u) != binary_dir(wd, u),
{
    reveal_strlit("_manifests");
    let m = join_path(wd, "_manifests"@);
    assert(m.len() >= wd.len() + 10);
    assert(m.last() == 's');
    assert(manifest_path(wd, u).len() > binary_dir(wd, u).len());
}

/// Growing the list keeps everything that it held.
pub open spec fn grows(a: Seq<(Seq<char>, Seq<char>)>, b: Seq<(Seq<char>, Seq<char>)>) -> bool {
    forall|e: (Seq<char>, Seq<char>)| a.contains(e) ==> #[trigger] b.contains(e)
}

proof fn lemma_views_push(es: Seq<(String, String)>, e: (String, String))
    ensures
        entry_views(es.push(e)) == entry_views(es).push((e.0@, e.1@)),
        grows(entry_views(es), entry_views(es.push(e))),
        entry_views(es.push(e)).contains((e.0@, e.1@)),
{
    let a = entry_views(es);
    let b = entry_views(es.push(e));
    assert(b =~= a.push((e.0@, e.1@)));
    assert(b[a.len() as int] == (e.0@, e.1@));
    assert forall|z: (Seq<char>, Seq<char>)| a.contains(z) implies #[trigger] b.contains(z) by {
        let k = choose|k: int| 0 <= k < a.len() && a[k] == z;
        assert(b[k] == z);
    }
}

proof fn lemma_doc_covered_grows<X: Fn(&String) -> bool>(
    d: DllPackFileModel,
    a: Seq<(Seq<char>, Seq<char>)>,
    b: Seq<(Seq<char>, Seq<char>)>,
    wd: Seq<char>,
    x: X,
)
    requires
        grows(a, b),
        doc_covered(d, a, wd, x),
    ensures
        doc_covered(d, b, wd, x),
{
    assert forall|i: int| 0 <= i < d.platforms.len() implies platform_covered(#[trigger] d.platforms[i].1, b, wd, x) by {
        lemma_platform_covered_grows(d.platforms[i].1, a, b, wd, x);
    }
}

proof fn lemma_platform_covered_grows<X: Fn(&String) -> bool>(
    pm: PlatformManifestModel,
    a: Seq<(Seq<char>, Seq<char>)>,
    b: Seq<(Seq<char>, Seq<char>)>,
    wd: Seq<char>,
    x: X,
)
    requires
        grows(a, b),
        platform_covered(pm, a, wd, x),
    ensures
        platform_covered(pm, b, wd, x),
{
    if a.contains((pm.url, binary_dir(wd, pm.url))) {
        assert(b.contains((pm.url, binary_dir(wd, pm.url))));
    }
    assert forall|j: int| 0 <= j < pm.dependencies.len() implies dep_covered(#[trigger] pm.dependencies[j], b, wd, x) by {
        lemma_dep_covered_grows(pm.dependencies[j], a, b, wd, x);
    }
}

proof fn lemma_dep_covered_grows<X: Fn(&String) -> bool>(
    d: DependencyModel,
    a: Seq<(Seq<char>, Seq<char>)>,
    b: Seq<(Seq<char>, Seq<char>)>,
    wd: Seq<char>,
    x: X,
)
    requires
        grows(a, b),
        dep_covered(d, a, wd, x),
    ensures
        dep_covered(d, b, wd, x),
{
    match d {
        DependencyModel::DllPack { url } => {
            if a.contains((url, manifest_path(wd, url))) {
                assert(b.contains((url, manifest_path(wd, url))));
            }
        },
        DependencyModel::RawLib { url, name } => {
            if a.contains((url, binary_dir(wd, url))) {
                assert(b.contains((url, binary_dir(wd, url))));
            }
        },
    }
}

/// Appends the directory of the binary at `url` when it is present.
fn note_binary<X, R>(
    result: &mut Vec<(String, String)>,
    url: &str,
    name: Option<&str>,
    work_dir: &str,
    path_exists: &X,
    read_manifest: &R,
    Ghost(visited): Ghost<Seq<String>>,
    Ghost(paths): Ghost<Seq<String>>,
    Ghost(docs): Ghost<Seq<DllPackFile>>,
) -> (r: Result<(), Error>) where X: Fn(&String) -> bool, R: Fn(&String) -> Result<DllPackFile, Error>
    requires
        forall|p: &String| #[trigger] path_exists.requires((p,)),
        walk_ok(work_dir@, *path_exists, *read_manifest, old(result)@, visited, paths, docs),
    ensures
        walk_ok(work_dir@, *path_exists, *read_manifest, final(result)@, visited, paths, docs),
        grows(entry_views(old(result)@), entry_views(final(result)@)),
        final(result)@.len() >= old(result)@.len(),
        forall|i: int| 0 <= i < old(result)@.len() ==> #[trigger] final(result)@[i] == old(result)@[i],
        r is Ok ==> binary_covered(url@, name.deep_view(), entry_views(final(result)@), work_dir@, *path_exists),
        r matches Err(e) ==> e matches Error::Resolve(ResolveError::MissingFileName(v)) && v@ == url@
            && file_name(url@, name.deep_view()) is None,
{
    let info = match DllInfo::from_input(url, name, work_dir) {
        Ok(i) => i,
        Err(e) => {
            proof {
                assert(entry_views(result@) =~= entry_views(old(result)@));
            }
            return Err(Error::Resolve(e));
        },
    };
    let dir = match info.cache_dir {
        Some(dir) => dir,
        None => {
            return Err(Error::Resolve(ResolveError::MissingFileName(info.url)));
        },
    };
    if path_exists(&dir) {
        let ghost before = result@;
        let entry = (info.url, dir);
        assert(listed(entry, work_dir@, *path_exists));
        result.push(entry);
        proof {
            lemma_views_push(before, entry);
            assert forall|i: int| 0 <= i < visited.len() implies {
                &&& #[trigger] paths[i]@ == manifest_path(work_dir@, visited[i]@)
                &&& read_manifest.ensures((&paths[i],), Ok::<DllPackFile, Error>(docs[i]))
                &&& entry_views(result@).contains((visited[i]@, paths[i]@))
            } by {}
            assert forall|j: int| 0 <= j < result@.len() implies listed(#[trigger] result@[j], work_dir@, *path_exists)
                && entry_known(result@[j], work_dir@, visited, paths) by {
                if j < before.len() {
                    assert(result@[j] == before[j]);
                }
            }
        }
    } else {
        proof {
            assert(reported_absent(*path_exists, binary_dir(work_dir@, url@)));
        }
    }
    Ok(())
}

/// Lists what the cache under `work_dir` holds of the package at
/// `dllpack_url`, for every platform and without any download: its manifest,
/// then each binary directory and dependent manifest that is present,
/// following the dependent manifests that are themselves cached.
/// `None` when the package's own manifest is not cached.
///
/// Every entry was reported present. Every listed manifest was read, and
/// each binary and dependency that its document names, for any platform, is
/// listed or was reported absent.
pub fn get_all_cached_dependencies<X, R>(
    dllpack_url: &str,
    work_dir: &str,
    path_exists: &X,
    read_manifest: &R,
) -> (r: Result<Option<Vec<(String, String)>>, Error>) where
    X: Fn(&String) -> bool,
    R: Fn(&String) -> Result<DllPackFile, Error>,

    requires
        forall|p: &String| #[trigger] path_exists.requires((p,)),
        forall|p: &String| #[trigger] read_manifest.requires((p,)),
    ensures
        r matches Ok(None) ==> reported_absent(*path_exists, manifest_path(work_dir@, dllpack_url@)),
        r matches Ok(Some(es)) ==> {
            &&& es@.len() >= 1
            &&& es@[0].0@ == dllpack_url@
            &&& es@[0].1@ == manifest_path(work_dir@, dllpack_url@)
            &&& forall|j: int| 0 <= j < es@.len() ==> listed(#[trigger] es@[j], work_dir@, *path_exists)
            &&& forall|j: int|
                0 <= j < es@.len() ==> #[trigger] es@[j].1@ == binary_dir(work_dir@, es@[j].0@) || exists|
                    p: String,
                    d: DllPackFile,
                |
                    p@ == es@[j].1@ && #[trigger] read_manifest.ensures((&p,), Ok::<DllPackFile, Error>(d))
                        && doc_covered(d@, entry_views(es@), work_dir@, *path_exists)
            &&& forall|j1: int, j2: int|
                0 <= j1 < j2 < es@.len() && es@[j1].1@ == manifest_path(work_dir@, es@[j1].0@) && es@[j2].1@
                    == manifest_path(work_dir@, es@[j2].0@) ==> #[trigger] es@[j1].0@ != #[trigger] es@[j2].0@
        },
        r matches Err(e) ==> (exists|p: String| #[trigger] read_manifest.ensures((&p,), Err::<DllPackFile, Error>(e)))
            || (e matches Error::Resolve(ResolveError::MissingFileName(u)) && exists|p: String, d: DllPackFile|
            #[trigger] read_manifest.ensures((&p,), Ok::<DllPackFile, Error>(d)) && names_unnamed_binary(d@, u@)),
        absent_only(*path_exists, manifest_path(work_dir@, dllpack_url@)) ==> r matches Ok(None),
        present_only(*path_exists, manifest_path(work_dir@, dllpack_url@)) ==> !(r matches Ok(None)),
{
    let base = ManifestInfo::from_input(dllpack_url, work_dir);
    if !path_exists(&base.path) {
        return Ok(None);
    }
    let base_file = match read_manifest(&base.path) {
        Ok(f) => f,
        Err(e) => {
            assert(read_manifest.ensures((&base.path,), Err::<DllPackFile, Error>(e)));
            return Err(e);
        },
    };
    let mut result: Vec<(String, String)> = Vec::new();
    let first = (dllpack_url.to_owned(), base.path.clone());
    result.push(first);
    let mut visited: Vec<String> = Vec::new();
    visited.push(base.url.clone());
    let ghost mut paths: Seq<String> = seq![base.path];
    let mut queue: Vec<DllPackFile> = Vec::new();
    queue.push(base_file);
    proof {
        assert(entry_views(result@)[0] == (visited@[0]@, paths[0]@));
        assert(entry_known(result@[0], work_dir@, visited@, paths));
    }
    let mut processed: usize = 0;
    while processed < queue.len()
        invariant
            forall|p: &String| #[trigger] path_exists.requires((p,)),
            forall|p: &String| #[trigger] read_manifest.requires((p,)),
            base.path@ == manifest_path(work_dir@, dllpack_url@),
            path_exists.ensures((&base.path,), true),
            processed <= queue@.len(),
            queue@.len() == visited@.len(),
            walk_ok(work_dir@, *path_exists, *read_manifest, result@, visited@, paths, queue@),
            forall|i: int| 0 <= i < processed ==> doc_covered(#[trigger] queue@[i]@, entry_views(result@), work_dir@, *path_exists),
            result@.len() >= 1,
            result@[0].0@ == dllpack_url@,
            result@[0].1@ == manifest_path(work_dir@, dllpack_url@),
        decreases usize::MAX - processed,
    {
        let mut found: Vec<DllPackFile> = Vec::new();
        let doc = &queue[processed];
        let ghost qv = queue@;
        let mut pi: usize = 0;
        while pi < doc.manifest.platforms.len()
            invariant
                forall|p: &String| #[trigger] path_exists.requires((p,)),
                forall|p: &String| #[trigger] read_manifest.requires((p,)),
                base.path@ == manifest_path(work_dir@, dllpack_url@),
                path_exists.ensures((&base.path,), true),
                processed < qv.len(),
                *doc == qv[processed as int],
                pi <= doc@.platforms.len(),
                doc@.platforms.len() == doc.manifest.platforms@.len(),
                visited@.len() == qv.len() + found@.len(),
                walk_ok(work_dir@, *path_exists, *read_manifest, result@, visited@, paths, qv + found@),
                forall|i: int| 0 <= i < processed ==> doc_covered(#[trigger] qv[i]@, entry_views(result@), work_dir@, *path_exists),
                forall|k: int| 0 <= k < pi ==> platform_covered(#[trigger] doc@.platforms[k].1, entry_views(result@), work_dir@, *path_exists),
                result@.len() >= 1,
                result@[0].0@ == dllpack_url@,
                result@[0].1@ == manifest_path(work_dir@, dllpack_url@),
            decreases doc.manifest.platforms.len() - pi,
        {
            let pm: &PlatformManifest = &doc.manifest.platforms[pi].1;
            assert(doc@.platforms[pi as int] == entry_view(doc.manifest.platforms@[pi as int]));
            let ghost ev0 = entry_views(result@);
            let name: Option<&str> = match &pm.name {
                Some(n) => Some(n.as_str()),
                None => None,
            };
            match note_binary(&mut result, pm.url.as_str(), name, work_dir, path_exists,
                read_manifest, Ghost(visited@), Ghost(paths), Ghost(qv + found@)) {
                Ok(()) => {},
                Err(e) => {
                    proof {
                        assert((qv + found@)[processed as int] == qv[processed as int]);
                        assert(paths[processed as int]@ == manifest_path(work_dir@, visited@[processed as int]@));
                                    assert(read_manifest.ensures((&paths[processed as int],), Ok::<DllPackFile, Error>(*doc)));
                        assert(unnamed_in_platform(doc@.platforms[pi as int].1, pm@.url));
                        if let Error::Resolve(ResolveError::MissingFileName(u)) = &e {
                            assert(names_unnamed_binary(doc@, u@));
                        }
                    }
                    return Err(e);
                },
            }
            proof {
                assert forall|i: int| 0 <= i < processed implies doc_covered(#[trigger] qv[i]@, entry_views(result@), work_dir@, *path_exists) by {
                    lemma_doc_covered_grows(qv[i]@, ev0, entry_views(result@), work_dir@, *path_exists);
                }
                assert forall|k: int| 0 <= k < pi implies platform_covered(#[trigger] doc@.platforms[k].1, entry_views(result@), work_dir@, *path_exists) by {
                    lemma_platform_covered_grows(doc@.platforms[k].1, ev0, entry_views(result@), work_dir@, *path_exists);
                }
            }
            let mut di: usize = 0;
            while di < pm.dependencies.len()
                invariant
                    forall|p: &String| #[trigger] path_exists.requires((p,)),
                    forall|p: &String| #[trigger] read_manifest.requires((p,)),
                    base.path@ == manifest_path(work_dir@, dllpack_url@),
                    path_exists.ensures((&base.path,), true),
                    processed < qv.len(),
                    *doc == qv[processed as int],
                    pi < doc@.platforms.len(),
                    pm@ == doc@.platforms[pi as int].1,
                    di <= pm@.dependencies.len(),
                    pm@.dependencies.len() == pm.dependencies@.len(),
                    visited@.len() == qv.len() + found@.len(),
                    walk_ok(work_dir@, *path_exists, *read_manifest, result@, visited@, paths, qv + found@),
                    forall|i: int| 0 <= i < processed ==> doc_covered(#[trigger] qv[i]@, entry_views(result@), work_dir@, *path_exists),
                    forall|k: int| 0 <= k < pi ==> platform_covered(#[trigger] doc@.platforms[k].1, entry_views(result@), work_dir@, *path_exists),
                    binary_covered(pm@.url, pm@.name, entry_views(result@), work_dir@, *path_exists),
                    forall|j: int| 0 <= j < di ==> dep_covered(#[trigger] pm@.dependencies[j], entry_views(result@), work_dir@, *path_exists),
                    result@.len() >= 1,
                    result@[0].0@ == dllpack_url@,
                    result@[0].1@ == manifest_path(work_dir@, dllpack_url@),
                decreases pm.dependencies.len() - di,
            {
                let ghost ev1 = entry_views(result@);
                assert(pm@.dependencies[di as int] == pm.dependencies@[di as int]@);
                match &pm.dependencies[di] {
                    Dependency::DllPack { url } => {
                        let sub = ManifestInfo::from_input(url.as_str(), work_dir);
                        let seen = contains_string(&visited, &sub.url);
                        if seen {
                            proof {
                                let i = choose|i: int| 0 <= i < visited@.len() && #[trigger] visited@[i]@ == sub.url@;
                                assert(paths[i]@ == manifest_path(work_dir@, visited@[i]@));
                                assert(ev1.contains((visited@[i]@, paths[i]@)));
                            }
                        } else if path_exists(&sub.path) {
                            let sub_file = match read_manifest(&sub.path) {
                                Ok(f) => f,
                                Err(e) => {
                                    assert(read_manifest.ensures((&sub.path,), Err::<DllPackFile, Error>(e)));
                                    return Err(e);
                                },
                            };
                            let ghost before = result@;
                            let ghost docs0 = qv + found@;
                            let ghost visited0 = visited@;
                            let ghost paths0 = paths;
                            let entry = (url.clone(), sub.path.clone());
                            assert(listed(entry, work_dir@, *path_exists));
                            result.push(entry);
                            visited.push(sub.url);
                            proof {
                                paths = paths.push(sub.path);
                            }
                            found.push(sub_file);
                            proof {
                                lemma_views_push(before, entry);
                                let docs1 = qv + found@;
                                assert(docs1 =~= docs0.push(sub_file));
                                let last = visited@.len() - 1;
                                assert(visited@[last]@ == url@ && paths[last] == sub.path);
                                assert forall|i: int| 0 <= i < visited@.len() implies {
                                    &&& #[trigger] paths[i]@ == manifest_path(work_dir@, visited@[i]@)
                                    &&& read_manifest.ensures((&paths[i],), Ok::<DllPackFile, Error>(docs1[i]))
                                    &&& entry_views(result@).contains((visited@[i]@, paths[i]@))
                                } by {
                                    if i < last {
                                        assert(docs1[i] == docs0[i]);
                                        assert(entry_views(before).contains((visited@[i]@, paths[i]@)));
                                    }
                                }
                                assert forall|j: int| 0 <= j < result@.len() implies listed(#[trigger] result@[j], work_dir@, *path_exists)
                                    && entry_known(result@[j], work_dir@, visited@, paths) by {
                                    if j < before.len() {
                                        assert(result@[j] == before[j]);
                                        assert(entry_known(before[j], work_dir@, visited0, paths0));
                                        if result@[j].1@ != binary_dir(work_dir@, result@[j].0@) {
                                            let i = choose|i: int| 0 <= i < visited0.len() && visited0[i]@ == before[j].0@ && #[trigger] paths0[i]@ == before[j].1@;
                                            assert(visited@[i] == visited0[i] && paths[i] == paths0[i]);
                                            assert(paths[i]@ == result@[j].1@);
                                        }
                                    } else {
                                        assert(paths[last]@ == result@[j].1@);
                                    }
                                }
                                assert(walk_ok(work_dir@, *path_exists, *read_manifest, result@, visited@, paths, qv + found@));
                            }
                        } else {
                            proof {
                                assert(reported_absent(*path_exists, manifest_path(work_dir@, url@)));
                            }
                        }
                    },
                    Dependency::RawLib { url, name } => {
                        let n: Option<&str> = match name {
                            Some(v) => Some(v.as_str()),
                            None => None,
                        };
                        match note_binary(&mut result, url.as_str(), n, work_dir, path_exists,
                            read_manifest, Ghost(visited@), Ghost(paths), Ghost(qv + found@)) {
                            Ok(()) => {},
                            Err(e) => {
                                proof {
                                    assert((qv + found@)[processed as int] == qv[processed as int]);
                                    assert(paths[processed as int]@ == manifest_path(work_dir@, visited@[processed as int]@));
                                    assert(read_manifest.ensures((&paths[processed as int],), Ok::<DllPackFile, Error>(*doc)));
                                    assert(match pm@.dependencies[di as int] {
                                        DependencyModel::RawLib { url: u0, name: n0 } => u0 == url@ && file_name(url@, n0) is None,
                                        DependencyModel::DllPack { .. } => false,
                                    });
                                    assert(unnamed_in_platform(doc@.platforms[pi as int].1, url@));
                                    if let Error::Resolve(ResolveError::MissingFileName(u)) = &e {
                                        assert(names_unnamed_binary(doc@, u@));
                                    }
                                }
                                return Err(e);
                            },
                        }
                    },
                }
                proof {
                    let ev2 = entry_views(result@);
                    assert(grows(ev1, ev2));
                    assert forall|i: int| 0 <= i < processed implies doc_covered(#[trigger] qv[i]@, ev2, work_dir@, *path_exists) by {
                        lemma_doc_covered_grows(qv[i]@, ev1, ev2, work_dir@, *path_exists);
                    }
                    assert forall|k: int| 0 <= k < pi implies platform_covered(#[trigger] doc@.platforms[k].1, ev2, work_dir@, *path_exists) by {
                        lemma_platform_covered_grows(doc@.platforms[k].1, ev1, ev2, work_dir@, *path_exists);
                    }
                    assert forall|j: int| 0 <= j < di + 1 implies dep_covered(#[trigger] pm@.dependencies[j], ev2, work_dir@, *path_exists) by {
                        if j < di {
                            lemma_dep_covered_grows(pm@.dependencies[j], ev1, ev2, work_dir@, *path_exists);
                        }
                    }
                    if ev1.contains((pm@.url, binary_dir(work_dir@, pm@.url))) {
                        assert(ev2.contains((pm@.url, binary_dir(work_dir@, pm@.url))));
                    }
                }
                di = di + 1;
            }
            pi = pi + 1;
        }
        proof {
            assert(doc_covered(qv[processed as int]@, entry_views(result@), work_dir@, *path_exists));
        }
        let ghost fv = found@;
        let ghost q0 = queue@;
        while found.len() > 0
            invariant
                queue@ + found@ == q0 + fv,
            decreases found.len(),
        {
            let ghost before_q = queue@;
            let ghost before_f = found@;
            let d = found.remove(0);
            queue.push(d);
            assert(queue@ + found@ =~= before_q + before_f);
        }
        assert(queue@ =~= q0 + fv);
        proof {
            assert forall|i: int| 0 <= i < processed + 1 implies doc_covered(#[trigger] queue@[i]@, entry_views(result@), work_dir@, *path_exists) by {
                assert(queue@[i] == qv[i]);
            }
        }
        processed = processed + 1;
    }
    proof {
        assert forall|j1: int, j2: int|
            0 <= j1 < j2 < result@.len() && result@[j1].1@ == manifest_path(work_dir@, result@[j1].0@)
                && result@[j2].1@ == manifest_path(work_dir@, result@[j2].0@) implies #[trigger] result@[j1].0@
                != #[trigger] result@[j2].0@ by {
            lemma_manifest_not_binary(work_dir@, result@[j1].0@);
            lemma_manifest_not_binary(work_dir@, result@[j2].0@);
        }
    }
    Ok(Some(result))
}

/// Whether `v` holds a string equal to `s`.
fn contains_string(v: &Vec<String>, s: &String) -> (r: bool)
    ensures
        r == exists|i: int| 0 <= i < v@.len() && #[trigger] v@[i]@ == s@,
{
    let mut i: usize = 0;
    while i < v.len()
        invariant
            i <= v@.len(),
            forall|k: int| 0 <= k < i ==> #[trigger] v@[k]@ != s@,
        decreases v.len() - i,
    {
        if v[i] == *s {
            return true;
        }
        i = i + 1;
    }
    false
}

} // verus!
