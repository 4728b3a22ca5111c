use vstd::prelude::*;
use crate::dependency::{Dependency, DependencyModel};
use crate::dllpack_file::{DllPackFile, Manifest, PlatformManifest, PlatformManifestModel, entry_view};
use crate::download::{DllInfo, ManifestInfo, binary_dir, file_name, join_path, manifest_path};
use crate::error::Error;

verus! {

/// Why no load plan could be produced.
#[derive(Debug)]
pub enum ResolveError {
    /// A manifest reached during resolution has no entry for the platform.
    PlatformNotSupported(String),
    /// The dependency graph has no load order: it has a cycle.
    UnresolvedDependencies(String),
    /// A binary whose name is neither given nor derivable from its URL.
    MissingFileName(String),
}

impl ResolveError {
    /// A sentence that describes the error.
    pub fn message(&self) -> (r: String)
        ensures
            self matches ResolveError::PlatformNotSupported(p) ==> r@ == "Platform "@ + p@
                + " is not supported"@,
            self matches ResolveError::UnresolvedDependencies(p) ==> r@
                == "Failed to resolve all dependencies for "@ + p@
                + ". It may be a circular dependency."@,
            self matches ResolveError::MissingFileName(u) ==> r@ == "Could not get file name of "@
                + u@,
    {
        match self {
            ResolveError::PlatformNotSupported(p) => {
                let mut r = "Platform ".to_owned();
                r.append(p.as_str());
                r.append(" is not supported");
                r
            },
            ResolveError::UnresolvedDependencies(p) => {
                let mut r = "Failed to resolve all dependencies for ".to_owned();
                r.append(p.as_str());
                r.append(". It may be a circular dependency.");
                r
            },
            ResolveError::MissingFileName(u) => {
                let mut r = "Could not get file name of ".to_owned();
                r.append(u.as_str());
                r
            },
        }
    }
}

/// The URLs of the dllpack dependencies among `ds`, in order.
pub open spec fn pack_urls(ds: Seq<DependencyModel>) -> Seq<Seq<char>>
    decreases ds.len(),
{
    if ds.len() == 0 {
        Seq::empty()
    } else {
        let rest = pack_urls(ds.drop_last());
        match ds.last() {
            DependencyModel::DllPack { url } => rest.push(url),
            DependencyModel::RawLib { .. } => rest,
        }
    }
}

/// One manifest of a resolution: where it came from, the entry selected for
/// the platform, and the node index of each of its dllpack dependencies.
#[derive(Debug)]
pub struct ManifestNode {
    pub info: ManifestInfo,
    pub manifest: PlatformManifest,
    pub deps: Vec<usize>,
}

pub struct NodeModel {
    pub url: Seq<char>,
    pub path: Seq<char>,
    pub manifest: PlatformManifestModel,
    pub deps: Seq<usize>,
}

impl View for ManifestNode {
    type V = NodeModel;

    open spec fn view(&self) -> NodeModel {
        NodeModel {
            url: self.info.url@,
            path: self.info.path@,
            manifest: self.manifest@,
            deps: self.deps@,
        }
    }
}

/// The manifests reached from a top-level manifest; node 0 is the top level.
#[derive(Debug)]
pub struct ManifestGraph {
    pub nodes: Vec<ManifestNode>,
}

impl View for ManifestGraph {
    type V = Seq<NodeModel>;

    open spec fn view(&self) -> Seq<NodeModel> {
        node_views(self.nodes@)
    }
}

pub open spec fn node_views(ns: Seq<ManifestNode>) -> Seq<NodeModel> {
    ns.map_values(|n: ManifestNode| n@)
}

/// `x` is among the indices `d`.
pub open spec fn in_deps(d: Seq<usize>, x: int) -> bool {
    exists|k: int| 0 <= k < d.len() && d[k] == x
}

/// Node `v` is a dllpack dependency of an earlier node.
pub open spec fn has_parent(g: Seq<NodeModel>, v: int) -> bool {
    exists|u: int, k: int| 0 <= u < v && u < g.len() && 0 <= k < g[u].deps.len() && g[u].deps[k] == v
}

/// Every dependency index names a node.
pub open spec fn deps_in_range(g: Seq<NodeModel>) -> bool {
    forall|i: int, k: int|
        0 <= i < g.len() && 0 <= k < g[i].deps.len() ==> #[trigger] g[i].deps[k] < g.len()
}

/// Nodes are identified by URL, and each node's dependency indices name the
/// dllpack dependencies of its selected entry, in order.
pub open spec fn graph_wf(g: Seq<NodeModel>) -> bool {
    &&& deps_in_range(g)
    &&& forall|i: int, j: int| 0 <= i < j < g.len() ==> #[trigger] g[i].url != #[trigger] g[j].url
    &&& forall|i: int|
        0 <= i < g.len() ==> (#[trigger] g[i]).deps.len() == pack_urls(
            g[i].manifest.dependencies,
        ).len()
    &&& forall|i: int, k: int|
        0 <= i < g.len() && 0 <= k < g[i].deps.len() ==> g[#[trigger] g[i].deps[k] as int].url
            == pack_urls(g[i].manifest.dependencies)[k]
}

/// Node `d` stands in `o` before position `k`.
pub open spec fn occurs_before(o: Seq<usize>, k: int, d: usize) -> bool {
    exists|m: int| 0 <= m < k && o[m] == d
}

/// Each dependency of the node at position `k` of `o` stands at an earlier
/// position.
pub open spec fn deps_earlier(g: Seq<NodeModel>, o: Seq<usize>) -> bool {
    forall|k: int, j: int|
        0 <= k < o.len() && 0 <= j < g[o[k] as int].deps.len() ==> #[trigger] occurs_before(
            o,
            k,
            g[o[k] as int].deps[j],
        )
}

/// Node `v` stands somewhere in `o`.
pub open spec fn occurs(o: Seq<usize>, v: int) -> bool {
    exists|k: int| 0 <= k < o.len() && o[k] == v
}

/// `o` lists every node once, each after its dependencies, with the top
/// level last.
pub open spec fn is_load_order(g: Seq<NodeModel>, o: Seq<usize>) -> bool {
    &&& forall|k: int| 0 <= k < o.len() ==> #[trigger] o[k] < g.len()
    &&& forall|k1: int, k2: int| 0 <= k1 < k2 < o.len() ==> #[trigger] o[k1] != #[trigger] o[k2]
    &&& forall|v: int| 0 <= v < g.len() ==> #[trigger] occurs(o, v)
    &&& deps_earlier(g, o)
    &&& o.len() > 0 && o.last() == 0
}

/// Number of `false` entries.
pub open spec fn unplaced_count(s: Seq<bool>) -> nat
    decreases s.len(),
{
    if s.len() == 0 {
        0
    } else {
        unplaced_count(s.drop_last()) + if s.last() {
            0nat
        } else {
            1nat
        }
    }
}

proof fn lemma_place_decreases(s: Seq<bool>, c: int)
    requires
        0 <= c < s.len(),
        !s[c],
    ensures
        unplaced_count(s.update(c, true)) < unplaced_count(s),
        unplaced_count(s.update(c, true)) + 1 == unplaced_count(s),
    decreases s.len(),
{
    let t = s.update(c, true);
    if c == s.len() - 1 {
        assert(t.drop_last() =~= s.drop_last());
    } else {
        lemma_place_decreases(s.drop_last(), c);
        assert(t.drop_last() =~= s.drop_last().update(c, true));
    }
}

/// First position at or after `i` whose node is not placed.
proof fn lemma_first_unplaced(o: Seq<usize>, placed: Seq<bool>, i: int, k: int) -> (t: int)
    requires
        0 <= i <= k < o.len(),
        forall|m: int| 0 <= m < o.len() ==> #[trigger] o[m] < placed.len(),
        forall|m: int| 0 <= m < i ==> placed[#[trigger] o[m] as int],
        !placed[o[k] as int],
    ensures
        i <= t <= k,
        !placed[o[t] as int],
        forall|m: int| 0 <= m < t ==> placed[#[trigger] o[m] as int],
    decreases k - i,
{
    if !placed[o[i] as int] {
        i
    } else {
        lemma_first_unplaced(o, placed, i + 1, k)
    }
}

/// A node other than the top level is left unplaced and every such node
/// waits on an unplaced dependency: then no load order exists.
proof fn lemma_stuck_on_others(g: Seq<NodeModel>, placed: Seq<bool>, v: int, o: Seq<usize>)
    requires
        placed.len() == g.len(),
        deps_in_range(g),
        0 < v < g.len(),
        !placed[v],
        !placed[0],
        forall|u: int|
            0 < u < g.len() && !placed[u] ==> exists|j: int|
                0 <= j < g[u].deps.len() && !placed[#[trigger] g[u].deps[j] as int],
    ensures
        !is_load_order(g, o),
{
    if is_load_order(g, o) {
        assert(occurs(o, v));
        let k = choose|k: int| 0 <= k < o.len() && #[trigger] o[k] == v;
        let t = lemma_first_unplaced(o, placed, 0, k);
        let u = o[t] as int;
        if u == 0 {
            assert(o[o.len() - 1] == 0);
            if t != o.len() - 1 {
                assert(o[t] == o[o.len() - 1]);
            }
            assert(placed[o[k] as int]);
        } else {
            let j = choose|j: int| 0 <= j < g[u].deps.len() && !placed[#[trigger] g[u].deps[j] as int];
            assert(occurs_before(o, t, g[o[t] as int].deps[j]));
            let m = choose|m: int| 0 <= m < t && o[m] == g[o[t] as int].deps[j];
            assert(placed[o[m] as int]);
        }
    }
}

/// The top level depends on itself: then no load order exists.
proof fn lemma_top_depends_on_itself(g: Seq<NodeModel>, j: int, o: Seq<usize>)
    requires
        g.len() > 0,
        0 <= j < g[0].deps.len(),
        g[0].deps[j] == 0,
    ensures
        !is_load_order(g, o),
{
    if is_load_order(g, o) {
        let last = o.len() - 1;
        assert(o[last] == 0);
        assert(occurs_before(o, last, g[o[last] as int].deps[j]));
        let m = choose|m: int| 0 <= m < last && o[m] == g[o[last] as int].deps[j];
        assert(o[m] == o[last]);
    }
}

/// The entry that a manifest gives `platform`: the first with that key, the
/// only one in a well-formed manifest.
pub open spec fn selects(
    ps: Seq<(Seq<char>, PlatformManifestModel)>,
    platform: Seq<char>,
    m: PlatformManifestModel,
) -> bool {
    exists|i: int|
        0 <= i < ps.len() && #[trigger] ps[i].0 == platform && ps[i].1 == m && forall|k: int|
            0 <= k < i ==> #[trigger] ps[k].0 != platform
}

/// Node `n` holds the entry for `platform` of a document that `fetch`
/// returned for the node's info.
pub open spec fn fetched_from<F: Fn(&ManifestInfo) -> Result<DllPackFile, Error>>(
    fetch: F,
    n: ManifestNode,
    platform: Seq<char>,
) -> bool {
    exists|file: DllPackFile|
        #[trigger] fetch.ensures((&n.info,), Ok::<DllPackFile, Error>(file)) && selects(
            file@.platforms,
            platform,
            n.manifest@,
        )
}

/// `g` is the graph of manifests reached from `base_url` for `platform`,
/// each node as `fetch` gave it and kept under `work_dir`.
pub open spec fn fetched_graph<F: Fn(&ManifestInfo) -> Result<DllPackFile, Error>>(
    fetch: F,
    g: ManifestGraph,
    base_url: Seq<char>,
    work_dir: Seq<char>,
    platform: Seq<char>,
) -> bool {
    &&& graph_wf(g@)
    &&& g@.len() > 0
    &&& g@[0].url == base_url
    &&& forall|v: int| 0 < v < g@.len() ==> #[trigger] has_parent(g@, v)
    &&& forall|i: int| 0 <= i < g@.len() ==> #[trigger] g@[i].path == manifest_path(work_dir, g@[i].url)
    &&& forall|i: int| 0 <= i < g.nodes@.len() ==> fetched_from(fetch, #[trigger] g.nodes@[i], platform)
}

/// `u` is the top-level URL, or a dllpack dependency of the entry for
/// `platform` of a document that `fetch` gave.
pub open spec fn reached<F: Fn(&ManifestInfo) -> Result<DllPackFile, Error>>(
    fetch: F,
    base_url: Seq<char>,
    platform: Seq<char>,
    u: Seq<char>,
) -> bool {
    u == base_url || exists|n: ManifestNode|
        fetched_from(fetch, n, platform) && #[trigger] pack_urls(n@.manifest.dependencies).contains(u)
}

/// Document `file` has no entry for `platform`.
pub open spec fn lacks(file: DllPackFile, platform: Seq<char>) -> bool {
    forall|k: int| 0 <= k < file@.platforms.len() ==> #[trigger] file@.platforms[k].0 != platform
}

/// `fetch` gave, for a reached manifest, a document without an entry for
/// `platform`.
pub open spec fn reached_lacks_platform<F: Fn(&ManifestInfo) -> Result<DllPackFile, Error>>(
    fetch: F,
    base_url: Seq<char>,
    platform: Seq<char>,
) -> bool {
    exists|i: ManifestInfo, file: DllPackFile|
        reached(fetch, base_url, platform, i.url@) && #[trigger] fetch.ensures(
            (&i,),
            Ok::<DllPackFile, Error>(file),
        ) && lacks(file, platform)
}

/// Whatever `fetch` gives for the top-level manifest is a document without
/// an entry for `platform`.
pub open spec fn top_lacks_platform<F: Fn(&ManifestInfo) -> Result<DllPackFile, Error>>(
    fetch: F,
    base_url: Seq<char>,
    platform: Seq<char>,
) -> bool {
    forall|i: ManifestInfo, r: Result<DllPackFile, Error>|
        i.url@ == base_url && #[trigger] fetch.ensures((&i,), r) ==> (r matches Ok(f) && lacks(
            f,
            platform,
        ))
}

/// Position of the entry for `platform` in `m`.
fn platform_position(m: &Manifest, platform: &str) -> (r: Option<usize>)
    ensures
        r matches Some(i) ==> i < m@.len() && m@[i as int].0 == platform@ && forall|k: int|
            0 <= k < i ==> #[trigger] m@[k].0 != platform@,
        r is None ==> forall|k: int| 0 <= k < m@.len() ==> #[trigger] m@[k].0 != platform@,
{
    let wanted = platform.to_owned();
    let mut i: usize = 0;
    while i < m.platforms.len()
        invariant
            i <= m@.len(),
            m@.len() == m.platforms@.len(),
            wanted@ == platform@,
            forall|k: int| 0 <= k < i ==> #[trigger] m@[k].0 != platform@,
        decreases m.platforms.len() - i,
    {
        assert(m@[i as int] == entry_view(m.platforms@[i as int]));
        if m.platforms[i].0 == wanted {
            return Some(i);
        }
        i = i + 1;
    }
    None
}

/// Position of `u` in `urls`.
fn url_position(urls: &Vec<String>, u: &String) -> (r: Option<usize>)
    ensures
        r matches Some(x) ==> x < urls@.len() && urls@[x as int]@ == u@,
        r is None ==> forall|x: int| 0 <= x < urls@.len() ==> #[trigger] urls@[x]@ != u@,
{
    let mut x: usize = 0;
    while x < urls.len()
        invariant
            x <= urls@.len(),
            forall|y: int| 0 <= y < x ==> #[trigger] urls@[y]@ != u@,
        decreases urls.len() - x,
    {
        if urls[x] == *u {
            return Some(x);
        }
        x = x + 1;
    }
    None
}

proof fn lemma_pack_urls_step(ds: Seq<DependencyModel>, j: int)
    requires
        0 <= j < ds.len(),
    ensures
        pack_urls(ds.subrange(0, j + 1)) == match ds[j] {
            DependencyModel::DllPack { url } => pack_urls(ds.subrange(0, j)).push(url),
            DependencyModel::RawLib { .. } => pack_urls(ds.subrange(0, j)),
        },
{
    assert(ds.subrange(0, j + 1).drop_last() =~= ds.subrange(0, j));
}

/// Fetches the manifest at `base_url` and, recursively, every dllpack it
/// depends on for `platform`, each once: manifests are identified by URL.
/// `fetch` brings the document of a manifest, from the cache under
/// `work_dir` or from the network.
pub fn fetch_manifests<F>(base_url: &str, work_dir: &str, platform: &str, fetch: &F) -> (r: Result<
    ManifestGraph,
    Error,
>) where F: Fn(&ManifestInfo) -> Result<DllPackFile, Error>
    requires
        forall|i: &ManifestInfo| #[trigger] fetch.requires((i,)),
    ensures
        r matches Ok(g) ==> fetched_graph(*fetch, g, base_url@, work_dir@, platform@),
        r matches Err(e) ==> (e matches Error::Resolve(ResolveError::PlatformNotSupported(p))
            && p@ == platform@ && reached_lacks_platform(*fetch, base_url@, platform@)) || exists|
            i: ManifestInfo,
        | #[trigger] fetch.ensures((&i,), Err::<DllPackFile, Error>(e)),
        top_lacks_platform(*fetch, base_url@, platform@) ==> (r matches Err(
            Error::Resolve(ResolveError::PlatformNotSupported(p)),
        ) && p@ == platform@),
{
    let mut urls: Vec<String> = Vec::new();
    urls.push(base_url.to_owned());
    let mut nodes: Vec<ManifestNode> = Vec::new();
    while nodes.len() < urls.len()
        invariant
            forall|i: &ManifestInfo| #[trigger] fetch.requires((i,)),
            nodes@.len() <= urls@.len(),
            urls@.len() >= 1,
            urls@[0]@ == base_url@,
            forall|a: int, b: int| 0 <= a < b < urls@.len() ==> #[trigger] urls@[a]@ != #[trigger] urls@[b]@,
            forall|i: int| 0 <= i < nodes@.len() ==> {
                let n = #[trigger] nodes@[i];
                &&& n@.url == urls@[i]@
                &&& n@.path == manifest_path(work_dir@, n@.url)
                &&& n@.deps.len() == pack_urls(n@.manifest.dependencies).len()
                &&& forall|k: int| 0 <= k < n@.deps.len() ==> #[trigger] n@.deps[k] < urls@.len()
                    && urls@[n@.deps[k] as int]@ == pack_urls(n@.manifest.dependencies)[k]
                &&& fetched_from(*fetch, n, platform@)
            },
            forall|x: int| 0 < x < urls@.len() ==> #[trigger] has_parent(node_views(nodes@), x),
            top_lacks_platform(*fetch, base_url@, platform@) ==> nodes@.len() == 0,
        decreases usize::MAX - nodes@.len(),
    {
        let idx = nodes.len();
        let info = ManifestInfo::from_input(urls[idx].as_str(), work_dir);
        let mut file = match fetch(&info) {
            Ok(f) => f,
            Err(e) => {
                proof {
                    if top_lacks_platform(*fetch, base_url@, platform@) {
                        assert(info.url@ == base_url@);
                    }
                }
                return Err(e);
            },
        };
        let ghost fetched = file;
        let pos = match platform_position(&file.manifest, platform) {
            Some(p) => p,
            None => {
                proof {
                    if idx > 0 {
                        let nv = node_views(nodes@);
                        assert(has_parent(nv, idx as int));
                        let (u, k) = choose|u: int, k: int|
                            0 <= u < idx && u < nv.len() && 0 <= k < nv[u].deps.len() && nv[u].deps[k] == idx;
                        let n = nodes@[u];
                        assert(nv[u] == n@);
                        let pu = pack_urls(n@.manifest.dependencies);
                        assert(pu[k] == urls@[idx as int]@);
                        assert(pu.contains(info.url@));
                    }
                    assert(reached(*fetch, base_url@, platform@, info.url@));
                    assert(lacks(fetched, platform@));
                    assert(reached_lacks_platform(*fetch, base_url@, platform@));
                }
                return Err(Error::Resolve(ResolveError::PlatformNotSupported(platform.to_owned())));
            },
        };
        let entry = file.manifest.platforms.remove(pos);
        let pm = entry.1;
        assert(entry_view(fetched.manifest.platforms@[pos as int]) == fetched@.platforms[pos as int]);
        assert(selects(fetched@.platforms, platform@, pm@));
        let ghost old_urls = urls@;
        let ghost ds = pm@.dependencies;
        let mut deps: Vec<usize> = Vec::new();
        let mut j: usize = 0;
        while j < pm.dependencies.len()
            invariant
                j <= pm.dependencies@.len(),
                ds == pm@.dependencies,
                ds.len() == pm.dependencies@.len(),
                fetch.ensures((&info,), Ok::<DllPackFile, Error>(fetched)),
                selects(fetched@.platforms, platform@, pm@),
                idx == nodes@.len(),
                idx < old_urls.len(),
                old_urls.len() <= urls@.len(),
                forall|x: int| 0 <= x < old_urls.len() ==> #[trigger] urls@[x] == old_urls[x],
                forall|a: int, b: int| 0 <= a < b < urls@.len() ==> #[trigger] urls@[a]@ != #[trigger] urls@[b]@,
                deps@.len() == pack_urls(ds.subrange(0, j as int)).len(),
                forall|k: int| 0 <= k < deps@.len() ==> #[trigger] deps@[k] < urls@.len()
                    && urls@[deps@[k] as int]@ == pack_urls(ds.subrange(0, j as int))[k],
                forall|x: int| old_urls.len() <= x < urls@.len() ==> #[trigger] in_deps(deps@, x),
            decreases pm.dependencies.len() - j,
        {
            proof {
                lemma_pack_urls_step(ds, j as int);
            }
            assert(ds[j as int] == pm.dependencies@[j as int]@);
            match &pm.dependencies[j] {
                Dependency::DllPack { url } => {
                    let at = match url_position(&urls, url) {
                        Some(x) => x,
                        None => {
                            let ghost before = urls@;
                            urls.push(url.clone());
                            assert forall|a: int, b: int| 0 <= a < b < urls@.len() implies #[trigger] urls@[a]@ != #[trigger] urls@[b]@ by {
                                if b == urls@.len() - 1 {
                                    assert(urls@[a] == before[a]);
                                } else {
                                    assert(urls@[a] == before[a] && urls@[b] == before[b]);
                                }
                            }
                            urls.len() - 1
                        },
                    };
                    let ghost dv0 = deps@;
                    deps.push(at);
                    proof {
                        assert forall|x: int| old_urls.len() <= x < urls@.len() implies #[trigger] in_deps(deps@, x) by {
                            if x == at {
                                assert(deps@[dv0.len() as int] == x);
                            } else {
                                assert(in_deps(dv0, x));
                                let k = choose|k: int| 0 <= k < dv0.len() && dv0[k] == x;
                                assert(deps@[k] == x);
                            }
                        }
                    }
                },
                Dependency::RawLib { .. } => {},
            }
            j = j + 1;
        }
        assert(ds.subrange(0, ds.len() as int) =~= ds);
        let ghost dv = deps@;
        proof {
            if top_lacks_platform(*fetch, base_url@, platform@) {
                assert(info.url@ == base_url@);
                assert(fetch.ensures((&info,), Ok::<DllPackFile, Error>(fetched)));
                let q = choose|q: int|
                    0 <= q < fetched@.platforms.len() && #[trigger] fetched@.platforms[q].0 == platform@
                        && fetched@.platforms[q].1 == pm@ && forall|k: int|
                        0 <= k < q ==> #[trigger] fetched@.platforms[k].0 != platform@;
                assert(fetched@.platforms[q].0 != platform@);
            }
        }
        let node = ManifestNode { info, manifest: pm, deps };
        assert(fetch.ensures((&node.info,), Ok::<DllPackFile, Error>(fetched)));
        assert(fetched_from(*fetch, node, platform@));
        let ghost old_nodes = nodes@;
        nodes.push(node);
        proof {
            assert(node_views(nodes@)[idx as int].deps == dv);
            assert forall|x: int| 0 < x < urls@.len() implies #[trigger] has_parent(node_views(nodes@), x) by {
                let nv = node_views(nodes@);
                let ov = node_views(old_nodes);
                if x < old_urls.len() {
                    assert(has_parent(ov, x));
                    let (u, k) = choose|u: int, k: int|
                        0 <= u < x && u < ov.len() && 0 <= k < ov[u].deps.len() && ov[u].deps[k] == x;
                    assert(nv[u] == ov[u]);
                } else {
                    assert(in_deps(dv, x));
                    let k = choose|k: int| 0 <= k < dv.len() && dv[k] == x;
                    assert(nv[idx as int].deps[k] == x);
                }
            }
        }
        assert forall|i: int| 0 <= i < nodes@.len() implies {
            let n = #[trigger] nodes@[i];
            &&& n@.url == urls@[i]@
            &&& n@.path == manifest_path(work_dir@, n@.url)
            &&& n@.deps.len() == pack_urls(n@.manifest.dependencies).len()
            &&& forall|k: int| 0 <= k < n@.deps.len() ==> #[trigger] n@.deps[k] < urls@.len()
                && urls@[n@.deps[k] as int]@ == pack_urls(n@.manifest.dependencies)[k]
            &&& fetched_from(*fetch, n, platform@)
        } by {
            if i < idx {
                assert(nodes@[i] == old_nodes[i]);
                let n = nodes@[i];
                assert(urls@[i] == old_urls[i]);
                assert forall|k: int| 0 <= k < n@.deps.len() implies #[trigger] n@.deps[k] < urls@.len()
                    && urls@[n@.deps[k] as int]@ == pack_urls(n@.manifest.dependencies)[k] by {
                    assert(urls@[n@.deps[k] as int] == old_urls[n@.deps[k] as int]);
                }
            }
        }
    }
    let g = ManifestGraph { nodes };
    proof {
        assert forall|i: int| 0 <= i < g@.len() implies #[trigger] g@[i].url == urls@[i]@ by {
            assert(g@[i] == g.nodes@[i]@);
        }
        assert forall|i: int, k: int|
            0 <= i < g@.len() && 0 <= k < g@[i].deps.len() implies #[trigger] g@[i].deps[k] < g@.len() by {
            assert(g@[i] == g.nodes@[i]@);
        }
        assert forall|i: int, j: int| 0 <= i < j < g@.len() implies #[trigger] g@[i].url != #[trigger] g@[j].url by {
            assert(g@[i] == g.nodes@[i]@ && g@[j] == g.nodes@[j]@);
        }
        assert forall|i: int|
            0 <= i < g@.len() implies (#[trigger] g@[i]).deps.len() == pack_urls(
                g@[i].manifest.dependencies,
            ).len() by {
            assert(g@[i] == g.nodes@[i]@);
        }
        assert forall|i: int, k: int|
            0 <= i < g@.len() && 0 <= k < g@[i].deps.len() implies g@[#[trigger] g@[i].deps[k] as int].url
                == pack_urls(g@[i].manifest.dependencies)[k] by {
            assert(g@[i] == g.nodes@[i]@);
            let d = g@[i].deps[k] as int;
            assert(g@[d] == g.nodes@[d]@);
        }
        assert forall|i: int| 0 <= i < g@.len() implies #[trigger] g@[i].path == manifest_path(work_dir@, g@[i].url) by {
            assert(g@[i] == g.nodes@[i]@);
        }
    }
    Ok(g)
}

/// `info` is the binary that entry `m` names, kept under `work_dir`.
pub open spec fn binary_for(info: DllInfo, work_dir: Seq<char>, m: PlatformManifestModel) -> bool {
    match file_name(m.url, m.name) {
        Some(n) => {
            &&& info.url@ == m.url
            &&& info.name@ == n
            &&& info.cache_dir.deep_view() == Some(binary_dir(work_dir, m.url))
            &&& info.path@ == join_path(binary_dir(work_dir, m.url), n)
        },
        None => false,
    }
}

/// `fetch_binary` succeeded on `d`.
pub open spec fn binary_fetched<G: Fn(&DllInfo) -> Result<(), Error>>(fetch_binary: G, d: DllInfo) -> bool {
    exists|r: Result<(), Error>| #[trigger] fetch_binary.ensures((&d,), r) && r is Ok
}

/// `(primary, deps)` resolves `base_url` for `platform`: `g` is the graph
/// that `fetch_manifest` gave, `o` lists its nodes but the top level in a
/// load order, `deps` holds their binaries in that order and `primary` the
/// top level's, and `fetch_binary` succeeded on each of them.
pub open spec fn is_resolution<
    F: Fn(&ManifestInfo) -> Result<DllPackFile, Error>,
    G: Fn(&DllInfo) -> Result<(), Error>,
>(
    fetch_manifest: F,
    fetch_binary: G,
    base_url: Seq<char>,
    work_dir: Seq<char>,
    platform: Seq<char>,
    g: ManifestGraph,
    o: Seq<usize>,
    primary: DllInfo,
    deps: Seq<DllInfo>,
) -> bool {
    &&& fetched_graph(fetch_manifest, g, base_url, work_dir, platform)
    &&& is_load_order(g@, o.push(0))
    &&& deps_earlier(g@, o)
    &&& forall|k: int| 0 <= k < o.len() ==> #[trigger] o[k] != 0
    &&& deps.len() == o.len()
    &&& forall|k: int|
        0 <= k < o.len() ==> binary_for(#[trigger] deps[k], work_dir, g@[o[k] as int].manifest)
            && binary_fetched(fetch_binary, deps[k])
    &&& binary_for(primary, work_dir, g@[0].manifest)
    &&& binary_fetched(fetch_binary, primary)
}

/// `e` arose while fetching the binaries of `g`: an entry without a file
/// name, or an error of `fetch_binary`.
pub open spec fn binary_failure<G: Fn(&DllInfo) -> Result<(), Error>>(
    fetch_binary: G,
    g: ManifestGraph,
    e: Error,
) -> bool {
    ||| e matches Error::Resolve(ResolveError::MissingFileName(_)) && exists|v: int|
        0 <= v < g@.len() && #[trigger] file_name(g@[v].manifest.url, g@[v].manifest.name) is None
    ||| exists|d: DllInfo| #[trigger] fetch_binary.ensures((&d,), Err::<(), Error>(e))
}

/// The binary that entry `m` names, kept under `work_dir`.
fn binary_info(m: &PlatformManifest, work_dir: &str) -> (r: Result<DllInfo, Error>)
    ensures
        r matches Ok(i) ==> binary_for(i, work_dir@, m@),
        r matches Err(e) ==> e matches Error::Resolve(ResolveError::MissingFileName(_)) && file_name(
            m@.url,
            m@.name,
        ) is None,
{
    let name: Option<&str> = match &m.name {
        Some(n) => Some(n.as_str()),
        None => None,
    };
    match DllInfo::from_input(m.url.as_str(), name, work_dir) {
        Ok(i) => Ok(i),
        Err(e) => Err(Error::Resolve(e)),
    }
}

/// Resolves the package at `base_url` for `platform`: fetches its manifest
/// graph, orders the dependencies for loading and fetches every binary.
/// Returns the top level's binary and the binaries of its dependencies in
/// load order: each after the dllpacks it depends on, the top level never
/// among them.
pub fn resolve<F, G>(
    base_url: &str,
    work_dir: &str,
    platform: &str,
    fetch_manifest: &F,
    fetch_binary: &G,
) -> (r: Result<(DllInfo, Vec<DllInfo>), Error>) where
    F: Fn(&ManifestInfo) -> Result<DllPackFile, Error>,
    G: Fn(&DllInfo) -> Result<(), Error>,

    requires
        forall|i: &ManifestInfo| #[trigger] fetch_manifest.requires((i,)),
        forall|d: &DllInfo| #[trigger] fetch_binary.requires((d,)),
    ensures
        r matches Ok((p, ds)) ==> exists|g: ManifestGraph, o: Seq<usize>|
            #[trigger] is_resolution(*fetch_manifest, *fetch_binary, base_url@, work_dir@, platform@, g, o, p, ds@),
        r matches Err(e) ==> {
            ||| e matches Error::Resolve(ResolveError::PlatformNotSupported(p)) && p@ == platform@
                && reached_lacks_platform(*fetch_manifest, base_url@, platform@)
            ||| exists|i: ManifestInfo| #[trigger] fetch_manifest.ensures((&i,), Err::<DllPackFile, Error>(e))
            ||| e matches Error::Resolve(ResolveError::UnresolvedDependencies(p)) && p@ == platform@
                && exists|g: ManifestGraph|
                fetched_graph(*fetch_manifest, g, base_url@, work_dir@, platform@) && forall|o: Seq<usize>|
                    !is_load_order(g@, o)
            ||| exists|g: ManifestGraph, o: Seq<usize>|
                fetched_graph(*fetch_manifest, g, base_url@, work_dir@, platform@)
                    && #[trigger] is_load_order(g@, o) && binary_failure(*fetch_binary, g, e)
        },
        top_lacks_platform(*fetch_manifest, base_url@, platform@) ==> (r matches Err(
            Error::Resolve(ResolveError::PlatformNotSupported(p)),
        ) && p@ == platform@),
{
    let g = match fetch_manifests(base_url, work_dir, platform, fetch_manifest) {
        Ok(g) => g,
        Err(e) => {
            return Err(e);
        },
    };
    let order = match g.load_order() {
        Some(o) => {
            assert forall|x: int| 0 <= x < o@.len() implies #[trigger] o@[x] < g@.len() by {
                assert(o@.push(0)[x] == o@[x]);
            }
            o
        },
        None => {
            return Err(Error::Resolve(ResolveError::UnresolvedDependencies(platform.to_owned())));
        },
    };
    let mut infos: Vec<DllInfo> = Vec::new();
    let mut k: usize = 0;
    while k < order.len()
        invariant
            forall|d: &DllInfo| #[trigger] fetch_binary.requires((d,)),
            fetched_graph(*fetch_manifest, g, base_url@, work_dir@, platform@),
            is_load_order(g@, order@.push(0)),
            deps_earlier(g@, order@),
            forall|x: int| 0 <= x < order@.len() ==> #[trigger] order@[x] != 0,
            forall|x: int| 0 <= x < order@.len() ==> #[trigger] order@[x] < g@.len(),
            k <= order@.len(),
            infos@.len() == k,
            forall|x: int|
                0 <= x < k ==> binary_for(#[trigger] infos@[x], work_dir@, g@[order@[x] as int].manifest)
                    && binary_fetched(*fetch_binary, infos@[x]),
        decreases order.len() - k,
    {
        assert(order@.push(0)[k as int] == order@[k as int]);
        let v = order[k];
        assert(g@[v as int] == g.nodes@[v as int]@);
        let info = match binary_info(&g.nodes[v].manifest, work_dir) {
            Ok(i) => i,
            Err(e) => {
                assert(file_name(g@[v as int].manifest.url, g@[v as int].manifest.name) is None);
                assert(fetched_graph(*fetch_manifest, g, base_url@, work_dir@, platform@) && is_load_order(g@, order@.push(0)));
                assert(binary_failure(*fetch_binary, g, e));
                return Err(e);
            },
        };
        let fetched = fetch_binary(&info);
        match fetched {
            Ok(()) => {},
            Err(e) => {
                assert(fetch_binary.ensures((&info,), Err::<(), Error>(e)));
                assert(fetched_graph(*fetch_manifest, g, base_url@, work_dir@, platform@) && is_load_order(g@, order@.push(0)));
                assert(binary_failure(*fetch_binary, g, e));
                return Err(e);
            },
        }
        let ghost before = infos@;
        infos.push(info);
        assert(v == order@[k as int]);
        assert forall|x: int|
            0 <= x < k + 1 implies binary_for(#[trigger] infos@[x], work_dir@, g@[order@[x] as int].manifest)
                && binary_fetched(*fetch_binary, infos@[x]) by {
            if x < k {
                assert(infos@[x] == before[x]);
            } else {
                assert(infos@[x] == info);
                assert(binary_for(info, work_dir@, g@[v as int].manifest));
                assert(binary_fetched(*fetch_binary, info));
            }
        }
        k = k + 1;
    }
    assert(g@[0] == g.nodes@[0]@);
    let primary = match binary_info(&g.nodes[0].manifest, work_dir) {
        Ok(i) => i,
        Err(e) => {
            assert(file_name(g@[0].manifest.url, g@[0].manifest.name) is None);
            assert(fetched_graph(*fetch_manifest, g, base_url@, work_dir@, platform@) && is_load_order(g@, order@.push(0)));
            assert(binary_failure(*fetch_binary, g, e));
            return Err(e);
        },
    };
    let fetched_primary = fetch_binary(&primary);
    match fetched_primary {
        Ok(()) => {},
        Err(e) => {
            assert(fetch_binary.ensures((&primary,), Err::<(), Error>(e)));
            assert(fetched_graph(*fetch_manifest, g, base_url@, work_dir@, platform@) && is_load_order(g@, order@.push(0)));
            assert(binary_failure(*fetch_binary, g, e));
            return Err(e);
        },
    }
    assert(is_resolution(*fetch_manifest, *fetch_binary, base_url@, work_dir@, platform@, g, order@, primary, infos@));
    assert(exists|g2: ManifestGraph, o: Seq<usize>| #[trigger] is_resolution(*fetch_manifest, *fetch_binary, base_url@, work_dir@, platform@, g2, o, primary, infos@));
    let r = (primary, infos);
    assert(r.1@ == infos@);
    Ok(r)
}

impl ManifestGraph {
    /// The order in which the dependencies of the top-level manifest are
    /// loaded: every node but the top level, each after its own dependencies.
    /// Among the nodes that are ready at a step, the lowest index goes first.
    /// `None` when the graph admits no load order, that is when it has a cycle.
    pub fn load_order(&self) -> (r: Option<Vec<usize>>)
        requires
            deps_in_range(self@),
            self@.len() > 0,
        ensures
            r matches Some(o) ==> is_load_order(self@, o@.push(0)),
            r matches Some(o) ==> deps_earlier(self@, o@),
            r matches Some(o) ==> forall|k: int| 0 <= k < o@.len() ==> #[trigger] o@[k] != 0,
            r is None <==> forall|o: Seq<usize>| !is_load_order(self@, o),
    {
        let n = self.nodes.len();
        let ghost g = self@;
        let mut placed: Vec<bool> = Vec::new();
        let mut i: usize = 0;
        while i < n
            invariant
                i <= n,
                placed@.len() == i,
                forall|v: int| 0 <= v < i ==> !placed@[v],
            decreases n - i,
        {
            placed.push(false);
            i = i + 1;
        }
        let mut order: Vec<usize> = Vec::new();
        loop
            invariant
                n == g.len(),
                g == self@,
                deps_in_range(g),
                n > 0,
                placed@.len() == n,
                !placed@[0],
                forall|k: int| 0 <= k < order@.len() ==> 0 < #[trigger] order@[k] < n,
                forall|k1: int, k2: int|
                    0 <= k1 < k2 < order@.len() ==> #[trigger] order@[k1] != #[trigger] order@[k2],
                forall|v: int|
                    0 <= v < n ==> (placed@[v] <==> #[trigger] occurs(order@, v)),
                deps_earlier(g, order@),
            decreases unplaced_count(placed@),
        {
            let (cand, waiting) = self.scan_ready(&placed);
            if cand == n {
                if waiting != n {
                    proof {
                        assert forall|o: Seq<usize>| !is_load_order(g, o) by {
                            lemma_stuck_on_others(g, placed@, waiting as int, o);
                        }
                    }
                    return None;
                }
                match self.first_unplaced_dep(0, &placed) {
                    Some(j) => {
                        proof {
                            assert(g[0].deps[j as int] == 0) by {
                                if g[0].deps[j as int] != 0 {
                                    assert(placed@[g[0].deps[j as int] as int]);
                                }
                            }
                            assert forall|o: Seq<usize>| !is_load_order(g, o) by {
                                lemma_top_depends_on_itself(g, j as int, o);
                            }
                        }
                        return None;
                    },
                    None => {
                        proof {
                            assert(deps_earlier(g, order@));
                            let full = order@.push(0);
                            assert forall|w: int| 0 <= w < n implies #[trigger] occurs(full, w) by {
                                if w == 0 {
                                    assert(full[full.len() - 1] == 0);
                                } else {
                                    assert(placed@[w]);
                                    assert(occurs(order@, w));
                                    let k = choose|k: int| 0 <= k < order@.len() && #[trigger] order@[k] == w;
                                    assert(full[k] == w);
                                }
                            }
                            assert forall|k: int, j: int|
                                0 <= k < full.len() && 0 <= j < g[full[k] as int].deps.len() implies #[trigger] occurs_before(full, k, g[full[k] as int].deps[j]) by {
                                if k < order@.len() {
                                    assert(full[k] == order@[k]);
                                    assert(occurs_before(order@, k, g[order@[k] as int].deps[j]));
                                    let m = choose|m: int| 0 <= m < k && order@[m] == g[order@[k] as int].deps[j];
                                    assert(full[m] == order@[m]);
                                } else {
                                    let d = g[0].deps[j] as int;
                                    assert(placed@[d]);
                                    assert(occurs(order@, d));
                                    let m = choose|m: int| 0 <= m < order@.len() && #[trigger] order@[m] == d;
                                    assert(full[m] == order@[m]);
                                }
                            }
                            assert forall|k1: int, k2: int| 0 <= k1 < k2 < full.len() implies #[trigger] full[k1] != #[trigger] full[k2] by {
                                if k2 < order@.len() {
                                } else {
                                    assert(order@[k1] != 0);
                                }
                            }
                            assert(deps_earlier(g, full));
                            assert(is_load_order(g, full));
                        }
                        return Some(order);
                    },
                }
            }
            proof {
                lemma_place_decreases(placed@, cand as int);
            }
            let ghost old_order = order@;
            let ghost old_placed = placed@;
            placed.set(cand, true);
            order.push(cand);
            proof {
                assert forall|w: int| 0 <= w < n implies (placed@[w] <==> #[trigger] occurs(order@, w)) by {
                    if w == cand {
                        assert(order@[order@.len() - 1] == w);
                        assert(occurs(order@, w));
                    } else if old_placed[w] {
                        assert(occurs(old_order, w));
                        let k = choose|k: int| 0 <= k < old_order.len() && #[trigger] old_order[k] == w;
                        assert(order@[k] == w);
                        assert(occurs(order@, w));
                    } else {
                        if exists|k: int| 0 <= k < order@.len() && #[trigger] order@[k] == w {
                            let k = choose|k: int| 0 <= k < order@.len() && #[trigger] order@[k] == w;
                            assert(old_order[k] == w);
                            assert(occurs(old_order, w));
                        }
                    }
                }
                assert forall|k1: int, k2: int|
                    0 <= k1 < k2 < order@.len() implies #[trigger] order@[k1] != #[trigger] order@[k2] by {
                    if k2 == order@.len() - 1 {
                        assert(old_order[k1] == order@[k1]);
                        if order@[k1] == cand {
                            assert(occurs(old_order, cand as int));
                            assert(old_placed[cand as int]);
                        }
                    } else {
                        assert(old_order[k1] == order@[k1] && old_order[k2] == order@[k2]);
                    }
                }
                assert forall|k: int, j: int|
                    0 <= k < order@.len() && 0 <= j < g[order@[k] as int].deps.len() implies #[trigger] occurs_before(order@, k, g[order@[k] as int].deps[j]) by {
                    if k == order@.len() - 1 {
                        let d = g[cand as int].deps[j] as int;
                        assert(old_placed[d]);
                        assert(occurs(old_order, d));
                        let m = choose|m: int| 0 <= m < old_order.len() && #[trigger] old_order[m] == d;
                        assert(order@[m] == old_order[m]);
                    } else {
                        assert(order@[k] == old_order[k]);
                        assert(occurs_before(old_order, k, g[old_order[k] as int].deps[j]));
                        let m = choose|m: int| 0 <= m < k && old_order[m] == g[old_order[k] as int].deps[j];
                        assert(order@[m] == old_order[m]);
                    }
                }
            }
        }
    }

    /// Scans the nodes other than the top level for one that is not placed
    /// and whose dependencies all are. Returns the lowest such index, or the
    /// node count when there is none, and an unplaced node, or the node count
    /// when all are placed.
    fn scan_ready(&self, placed: &Vec<bool>) -> (r: (usize, usize))
        requires
            deps_in_range(self@),
            placed@.len() == self@.len(),
            self@.len() > 0,
        ensures
            ({
                let (cand, waiting) = r;
                let n = self@.len();
                &&& cand == n || (0 < cand < n && !placed@[cand as int] && forall|j: int|
                    0 <= j < self@[cand as int].deps.len() ==> placed@[#[trigger] self@[cand as int].deps[j] as int])
                &&& cand == n ==> forall|u: int|
                    0 < u < n && !placed@[u] ==> exists|j: int|
                        0 <= j < self@[u].deps.len() && !placed@[#[trigger] self@[u].deps[j] as int]
                &&& waiting == n || (0 < waiting < n && !placed@[waiting as int])
                &&& waiting == n ==> forall|u: int| 0 < u < n ==> placed@[u]
            }),
    {
        let n = self.nodes.len();
        let ghost g = self@;
        let mut cand: usize = n;
        let mut waiting: usize = n;
        let mut v: usize = 1;
        while v < n
            invariant
                n == g.len(),
                g == self@,
                deps_in_range(g),
                placed@.len() == n,
                1 <= v <= n,
                cand == n || (0 < cand < n && !placed@[cand as int] && forall|j: int|
                    0 <= j < g[cand as int].deps.len() ==> placed@[#[trigger] g[cand as int].deps[j] as int]),
                cand == n ==> forall|u: int|
                    0 < u < v && !placed@[u] ==> exists|j: int|
                        0 <= j < g[u].deps.len() && !placed@[#[trigger] g[u].deps[j] as int],
                waiting == n || (0 < waiting < n && !placed@[waiting as int]),
                waiting == n ==> forall|u: int| 0 < u < v ==> placed@[u],
            decreases n - v,
        {
            if cand == n && !placed[v] {
                waiting = v;
                match self.first_unplaced_dep(v, placed) {
                    None => {
                        cand = v;
                    },
                    Some(_) => {},
                }
            } else if !placed[v] {
                waiting = v;
            }
            v = v + 1;
        }
        (cand, waiting)
    }

    /// Index of a dependency of node `v` that is not placed yet, if any.
    fn first_unplaced_dep(&self, v: usize, placed: &Vec<bool>) -> (r: Option<usize>)
        requires
            deps_in_range(self@),
            v < self@.len(),
            placed@.len() == self@.len(),
        ensures
            r matches Some(j) ==> j < self@[v as int].deps.len() && !placed@[self@[v as int].deps[j as int] as int],
            r is None ==> forall|j: int|
                0 <= j < self@[v as int].deps.len() ==> placed@[#[trigger] self@[v as int].deps[j] as int],
    {
        let node = &self.nodes[v];
        assert(node@ == self@[v as int]);
        let mut j: usize = 0;
        while j < node.deps.len()
            invariant
                node@ == self@[v as int],
                deps_in_range(self@),
                v < self@.len(),
                placed@.len() == self@.len(),
                j <= node.deps@.len(),
                forall|i: int| 0 <= i < j ==> placed@[#[trigger] self@[v as int].deps[i] as int],
            decreases node.deps.len() - j,
        {
            let d = node.deps[j];
            assert(d == self@[v as int].deps[j as int]);
            if !placed[d] {
                return Some(j);
            }
            j = j + 1;
        }
        None
    }
}

} // verus!
