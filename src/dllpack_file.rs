use vstd::prelude::*;
use crate::dependency::{clone_opt_string, Dependency, DependencyModel};
use crate::urls::{normalize_url, url_serialization};

verus! {

/// The only version of the manifest format that is accepted.
pub open spec fn supported_spec_version() -> Seq<char> {
    "1.0.0"@
}

/// How to obtain the binary for one platform, and what it depends on.
#[derive(Debug, Clone)]
pub struct PlatformManifest {
    pub url: String,
    pub name: Option<String>,
    pub dependencies: Vec<Dependency>,
}

pub struct PlatformManifestModel {
    pub url: Seq<char>,
    pub name: Option<Seq<char>>,
    pub dependencies: Seq<DependencyModel>,
}

impl View for PlatformManifest {
    type V = PlatformManifestModel;

    open spec fn view(&self) -> PlatformManifestModel {
        PlatformManifestModel {
            url: self.url@,
            name: self.name.deep_view(),
            dependencies: self.dependencies@.map_values(|d: Dependency| d@),
        }
    }
}

/// The platform manifests of a package, keyed by platform identifier.
#[derive(Debug, Clone)]
pub struct Manifest {
    pub platforms: Vec<(String, PlatformManifest)>,
}

pub open spec fn entry_view(e: (String, PlatformManifest)) -> (Seq<char>, PlatformManifestModel) {
    (e.0@, e.1@)
}

impl View for Manifest {
    type V = Seq<(Seq<char>, PlatformManifestModel)>;

    open spec fn view(&self) -> Seq<(Seq<char>, PlatformManifestModel)> {
        self.platforms@.map_values(|e: (String, PlatformManifest)| entry_view(e))
    }
}

impl Manifest {
    /// Each platform is listed once.
    pub open spec fn wf(&self) -> bool {
        keys_distinct(self@)
    }
}

/// The top level of a dllpack document.
#[derive(Debug, Clone)]
pub struct DllPackFile {
    pub spec_version: String,
    pub manifest: Manifest,
}

pub struct DllPackFileModel {
    pub spec_version: Seq<char>,
    pub platforms: Seq<(Seq<char>, PlatformManifestModel)>,
}

impl View for DllPackFile {
    type V = DllPackFileModel;

    open spec fn view(&self) -> DllPackFileModel {
        DllPackFileModel { spec_version: self.spec_version@, platforms: self.manifest@ }
    }
}

/// Why a document is not an acceptable manifest.
#[derive(Debug)]
pub enum ManifestError {
    /// A URL field that is not an absolute URL.
    InvalidUrl(String),
    /// A platform listed twice.
    DuplicatePlatform(String),
    /// A `spec-version` other than the supported one.
    UnsupportedSpecVersion(String),
}

pub open spec fn url_valid(u: Seq<char>) -> bool {
    url_serialization(u) is Some
}

pub open spec fn normal_url(u: Seq<char>) -> Seq<char> {
    match url_serialization(u) {
        Some(v) => v,
        None => u,
    }
}

pub open spec fn dep_urls_valid(ds: Seq<DependencyModel>) -> bool {
    forall|i: int| 0 <= i < ds.len() ==> url_valid(#[trigger] ds[i].url())
}

pub open spec fn normal_dep(d: DependencyModel) -> DependencyModel {
    match d {
        DependencyModel::RawLib { url, name } => DependencyModel::RawLib {
            url: normal_url(url),
            name,
        },
        DependencyModel::DllPack { url } => DependencyModel::DllPack { url: normal_url(url) },
    }
}

pub open spec fn platform_urls_valid(p: PlatformManifestModel) -> bool {
    url_valid(p.url) && dep_urls_valid(p.dependencies)
}

pub open spec fn normal_platform(p: PlatformManifestModel) -> PlatformManifestModel {
    PlatformManifestModel {
        url: normal_url(p.url),
        name: p.name,
        dependencies: p.dependencies.map_values(|d: DependencyModel| normal_dep(d)),
    }
}

pub open spec fn urls_valid(ps: Seq<(Seq<char>, PlatformManifestModel)>) -> bool {
    forall|i: int| 0 <= i < ps.len() ==> platform_urls_valid(#[trigger] ps[i].1)
}

pub open spec fn keys_distinct(ps: Seq<(Seq<char>, PlatformManifestModel)>) -> bool {
    forall|i: int, j: int| 0 <= i < j < ps.len() ==> #[trigger] ps[i].0 != #[trigger] ps[j].0
}

/// Every URL of the document is already in the parser's normal form.
pub open spec fn urls_normal(ps: Seq<(Seq<char>, PlatformManifestModel)>) -> bool {
    forall|i: int| 0 <= i < ps.len() ==> normal_platform(#[trigger] ps[i].1) == ps[i].1
}

/// The document with each URL replaced by its normal form.
pub open spec fn normal_platforms(ps: Seq<(Seq<char>, PlatformManifestModel)>) -> Seq<
    (Seq<char>, PlatformManifestModel),
> {
    ps.map_values(|e: (Seq<char>, PlatformManifestModel)| (e.0, normal_platform(e.1)))
}

/// A document that the parser accepts.
pub open spec fn acceptable(f: DllPackFileModel) -> bool {
    &&& urls_valid(f.platforms)
    &&& keys_distinct(f.platforms)
    &&& f.spec_version == supported_spec_version()
}

/// Some URL of the document is `u`.
pub open spec fn mentions_url(ps: Seq<(Seq<char>, PlatformManifestModel)>, u: Seq<char>) -> bool {
    exists|i: int|
        0 <= i < ps.len() && (#[trigger] ps[i].1.url == u || exists|j: int|
            0 <= j < ps[i].1.dependencies.len() && #[trigger] ps[i].1.dependencies[j].url() == u)
}

fn normalized_dependency(d: &Dependency) -> (r: Result<Dependency, ManifestError>)
    ensures
        match r {
            Ok(n) => url_valid(d@.url()) && n@ == normal_dep(d@),
            Err(ManifestError::InvalidUrl(u)) => !url_valid(d@.url()) && u@ == d@.url(),
            Err(_) => false,
        },
{
    match d {
        Dependency::RawLib { url, name } => match normalize_url(url.as_str()) {
            Some(u) => Ok(Dependency::RawLib { url: u, name: clone_opt_string(name) }),
            None => Err(ManifestError::InvalidUrl(url.clone())),
        },
        Dependency::DllPack { url } => match normalize_url(url.as_str()) {
            Some(u) => Ok(Dependency::DllPack { url: u }),
            None => Err(ManifestError::InvalidUrl(url.clone())),
        },
    }
}

fn normalized_platform(p: &PlatformManifest) -> (r: Result<PlatformManifest, ManifestError>)
    ensures
        match r {
            Ok(n) => platform_urls_valid(p@) && n@ == normal_platform(p@),
            Err(ManifestError::InvalidUrl(u)) => !platform_urls_valid(p@) && (u@ == p@.url
                || exists|j: int|
                0 <= j < p@.dependencies.len() && #[trigger] p@.dependencies[j].url() == u@)
                && !url_valid(u@),
            Err(_) => false,
        },
{
    let url = match normalize_url(p.url.as_str()) {
        Some(u) => u,
        None => {
            return Err(ManifestError::InvalidUrl(p.url.clone()));
        },
    };
    let mut deps: Vec<Dependency> = Vec::new();
    let mut i: usize = 0;
    while i < p.dependencies.len()
        invariant
            i <= p.dependencies.len(),
            deps@.len() == i,
            forall|k: int| 0 <= k < i ==> url_valid(#[trigger] p@.dependencies[k].url()),
            forall|k: int| 0 <= k < i ==> #[trigger] deps@[k]@ == normal_dep(p@.dependencies[k]),
        decreases p.dependencies.len() - i,
    {
        match normalized_dependency(&p.dependencies[i]) {
            Ok(d) => deps.push(d),
            Err(e) => {
                assert(p@.dependencies[i as int] == p.dependencies@[i as int]@);
                return Err(e);
            },
        }
        i = i + 1;
    }
    let r = PlatformManifest { url, name: clone_opt_string(&p.name), dependencies: deps };
    assert(r@.dependencies =~= p@.dependencies.map_values(|d: DependencyModel| normal_dep(d)));
    Ok(r)
}

impl DllPackFile {
    pub open spec fn wf(&self) -> bool {
        self.manifest.wf()
    }

    /// Checks a parsed document and brings its URLs to normal form.
    ///
    /// The URLs are checked first, in document order, then that no platform
    /// is listed twice, then the spec version.
    pub fn validate(&self) -> (r: Result<DllPackFile, ManifestError>)
        ensures
            r is Ok <==> acceptable(self@),
            r matches Ok(g) ==> g.wf(),
            r matches Ok(g) ==> g@.spec_version == self@.spec_version && g@.platforms
                == normal_platforms(self@.platforms),
            self@.spec_version != supported_spec_version() ==> r is Err,
            acceptable(self@) && urls_normal(self@.platforms) ==> (r matches Ok(g) && g@ == self@),
            r matches Err(ManifestError::InvalidUrl(u)) ==> !urls_valid(self@.platforms)
                && !url_valid(u@) && mentions_url(self@.platforms, u@),
            r matches Err(ManifestError::DuplicatePlatform(_)) ==> urls_valid(self@.platforms),
            r matches Err(ManifestError::DuplicatePlatform(_)) ==> !keys_distinct(self@.platforms),
            r matches Err(ManifestError::DuplicatePlatform(k)) ==> exists|i: int, j: int|
                0 <= i < j < self@.platforms.len() && #[trigger] self@.platforms[i].0 == k@
                    && #[trigger] self@.platforms[j].0 == k@,
            (r matches Err(ManifestError::UnsupportedSpecVersion(_))) <==> urls_valid(
                self@.platforms,
            ) && keys_distinct(self@.platforms) && self@.spec_version != supported_spec_version(),
            r matches Err(ManifestError::UnsupportedSpecVersion(v)) ==> v@ == self@.spec_version,
    {
        let ps = &self.manifest.platforms;
        let mut out: Vec<(String, PlatformManifest)> = Vec::new();
        let mut i: usize = 0;
        while i < ps.len()
            invariant
                i <= ps.len(),
                ps@ == self.manifest.platforms@,
                ps@.len() == self@.platforms.len(),
                out@.len() == i,
                forall|k: int| 0 <= k < i ==> platform_urls_valid(#[trigger] self@.platforms[k].1),
                forall|k: int|
                    0 <= k < i ==> #[trigger] entry_view(out@[k]) == (
                        self@.platforms[k].0,
                        normal_platform(self@.platforms[k].1),
                    ),
            decreases ps.len() - i,
        {
            let entry = &ps[i];
            assert(self@.platforms == self.manifest@);
            assert(self.manifest@[i as int] == entry_view(ps@[i as int]));
            assert(entry_view(*entry) == self@.platforms[i as int]);
            match normalized_platform(&entry.1) {
                Ok(p) => out.push((entry.0.clone(), p)),
                Err(e) => {
                    proof {
                        if let ManifestError::InvalidUrl(u) = &e {
                            assert(mentions_url(self@.platforms, u@)) by {
                                assert(self@.platforms[i as int].1 == entry.1@);
                            }
                        }
                    }
                    return Err(e);
                },
            }
            i = i + 1;
        }
        let mut a: usize = 0;
        while a < ps.len()
            invariant
                a <= ps.len(),
                urls_valid(self@.platforms),
                out@.len() == ps@.len(),
                forall|k: int|
                    0 <= k < out@.len() ==> #[trigger] entry_view(out@[k]) == (
                        self@.platforms[k].0,
                        normal_platform(self@.platforms[k].1),
                    ),
                ps@ == self.manifest.platforms@,
                ps@.len() == self@.platforms.len(),
                forall|x: int, y: int|
                    0 <= x < a && x < y < ps@.len() ==> #[trigger] self@.platforms[x].0
                        != #[trigger] self@.platforms[y].0,
            decreases ps.len() - a,
        {
            let mut b: usize = a + 1;
            while b < ps.len()
                invariant
                    a < ps.len(),
                    a + 1 <= b <= ps.len(),
                    urls_valid(self@.platforms),
                    out@.len() == ps@.len(),
                    forall|k: int|
                        0 <= k < out@.len() ==> #[trigger] entry_view(out@[k]) == (
                            self@.platforms[k].0,
                            normal_platform(self@.platforms[k].1),
                        ),
                    ps@ == self.manifest.platforms@,
                    ps@.len() == self@.platforms.len(),
                    forall|x: int, y: int|
                        0 <= x < a && x < y < ps@.len() ==> #[trigger] self@.platforms[x].0
                            != #[trigger] self@.platforms[y].0,
                    forall|y: int| a < y < b ==> self@.platforms[a as int].0 != #[trigger] self@.platforms[y].0,
                decreases ps.len() - b,
            {
                assert(entry_view(ps@[a as int]) == self@.platforms[a as int]);
                assert(entry_view(ps@[b as int]) == self@.platforms[b as int]);
                if ps[a].0 == ps[b].0 {
                    assert(self@.platforms[a as int].0 == self@.platforms[b as int].0);
                    let k = ps[a].0.clone();
                    assert(self@.platforms[a as int].0 == k@ && self@.platforms[b as int].0 == k@);
                    return Err(ManifestError::DuplicatePlatform(k));
                }
                b = b + 1;
            }
            a = a + 1;
        }
        let supported = "1.0.0".to_owned();
        if !(self.spec_version == supported) {
            return Err(ManifestError::UnsupportedSpecVersion(self.spec_version.clone()));
        }
        let r = DllPackFile {
            spec_version: self.spec_version.clone(),
            manifest: Manifest { platforms: out },
        };
        assert(r@.platforms =~= normal_platforms(self@.platforms));
        assert forall|i: int, j: int| 0 <= i < j < r@.platforms.len() implies #[trigger] r@.platforms[i].0
            != #[trigger] r@.platforms[j].0 by {
            assert(r@.platforms[i].0 == self@.platforms[i].0);
            assert(r@.platforms[j].0 == self@.platforms[j].0);
        }
        proof {
            if urls_normal(self@.platforms) {
                assert(r@.platforms =~= self@.platforms);
            }
        }
        Ok(r)
    }
}

} // verus!
