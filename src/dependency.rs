use vstd::prelude::*;

verus! {

/// A dependency of a platform binary.
#[derive(Debug, Clone)]
pub enum Dependency {
    /// A binary downloaded as it is; `name` defaults to the last segment of
    /// the URL's path.
    RawLib { url: String, name: Option<String> },
    /// Another dllpack manifest, resolved recursively.
    DllPack { url: String },
}

/// What a `Dependency` holds, as plain sequences.
pub enum DependencyModel {
    RawLib { url: Seq<char>, name: Option<Seq<char>> },
    DllPack { url: Seq<char> },
}

impl View for Dependency {
    type V = DependencyModel;

    open spec fn view(&self) -> DependencyModel {
        match self {
            Dependency::RawLib { url, name } => DependencyModel::RawLib {
                url: url@,
                name: name.deep_view(),
            },
            Dependency::DllPack { url } => DependencyModel::DllPack { url: url@ },
        }
    }
}

impl DependencyModel {
    pub open spec fn url(self) -> Seq<char> {
        match self {
            DependencyModel::RawLib { url, .. } => url,
            DependencyModel::DllPack { url } => url,
        }
    }
}

/// A copy of an optional string.
pub fn clone_opt_string(s: &Option<String>) -> (r: Option<String>)
    ensures
        r.deep_view() == s.deep_view(),
{
    match s {
        Some(v) => Some(v.clone()),
        None => None,
    }
}

} // verus!
