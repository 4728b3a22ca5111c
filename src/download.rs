use vstd::prelude::*;
use vstd::utf8::encode_utf8;
use crate::error::Error;
use crate::resolve::ResolveError;
use crate::urls::{
    last_path_segment, last_segment, last_slash, lemma_last_slash_bounds, lemma_last_slash_is,
    path_of_url, url_path,
};

verus! {

/// Bytes that percent-encoding leaves as they are.
pub open spec fn unreserved(b: u8) -> bool {
    (48 <= b <= 57) || (65 <= b <= 90) || (97 <= b <= 122) || b == 45 || b == 46 || b == 95
        || b == 126
}

/// Upper-case hexadecimal digit of `d < 16`.
pub open spec fn hex_digit(d: u8) -> char {
    if d < 10 {
        ((48 + d) as u8) as char
    } else {
        ((55 + d) as u8) as char
    }
}

pub open spec fn encode_byte(b: u8) -> Seq<char> {
    if unreserved(b) {
        seq![b as char]
    } else {
        seq!['%', hex_digit(b / 16), hex_digit(b % 16)]
    }
}

/// Percent-encoding of a byte string: each byte outside the unreserved set
/// becomes `%` and two upper-case hexadecimal digits.
pub open spec fn percent_encoded(bs: Seq<u8>) -> Seq<char>
    decreases bs.len(),
{
    if bs.len() == 0 {
        Seq::empty()
    } else {
        encode_byte(bs[0]) + percent_encoded(bs.drop_first())
    }
}

/// The URL-safe form of `s` used as one path component.
pub open spec fn encoded(s: Seq<char>) -> Seq<char> {
    percent_encoded(encode_utf8(s))
}

/// Relies on `urlencoding::encode`: percent-encodes every byte of the UTF-8
/// form of `s` except ASCII alphanumerics and `-`, `.`, `_`, `~`, with
/// upper-case hexadecimal digits.
#[verifier::external_body]
fn url_encode(s: &str) -> (r: String)
    ensures
        r@ == encoded(s@),
{
    urlencoding::encode(s).into_owned()
}

/// `dir` followed by the component `name`, with one `/` between them.
pub open spec fn join_path(dir: Seq<char>, name: Seq<char>) -> Seq<char> {
    if dir.len() == 0 || dir.last() == '/' {
        dir + name
    } else {
        dir + seq!['/'] + name
    }
}

/// Everything before the last `/` of `p`; empty when `p` has none.
pub open spec fn parent_path(p: Seq<char>) -> Seq<char> {
    match last_slash(p) {
        Some(k) => p.subrange(0, k),
        None => Seq::empty(),
    }
}

/// Where the manifest at `url` is kept under the working directory `dir`.
pub open spec fn manifest_path(dir: Seq<char>, url: Seq<char>) -> Seq<char> {
    join_path(join_path(dir, "_manifests"@), encoded(url))
}

/// The directory that holds the binary downloaded from `url`.
pub open spec fn binary_dir(dir: Seq<char>, url: Seq<char>) -> Seq<char> {
    join_path(dir, encoded(url))
}

/// The file name of the compiled-module side cache for binary `name`.
pub open spec fn module_cache_name(name: Seq<char>) -> Seq<char> {
    "module-cache-"@ + name + ".bin"@
}

/// The file name of a binary: the given name, else the last segment of the
/// URL's path.
pub open spec fn file_name(url: Seq<char>, name: Option<Seq<char>>) -> Option<Seq<char>> {
    match name {
        Some(n) => Some(n),
        None => match url_path(url) {
            Some(p) => last_segment(p),
            None => None,
        },
    }
}

/// Joins `name` onto `dir` as `join_path` describes.
pub fn join(dir: &str, name: &str) -> (r: String)
    ensures
        r@ == join_path(dir@, name@),
{
    let n = dir.unicode_len();
    let mut r = dir.to_owned();
    if n > 0 && dir.get_char(n - 1) != '/' {
        let sep = "/";
        proof {
            reveal_strlit("/");
        }
        r.append(sep);
    }
    r.append(name);
    proof {
        reveal_strlit("/");
    }
    r
}

/// Where the manifest at a URL comes from and where it is kept on disk.
#[derive(Debug, Clone)]
pub struct ManifestInfo {
    pub url: String,
    pub path: String,
}

impl ManifestInfo {
    pub fn new(url: String, path: String) -> (r: Self)
        ensures
            r.url == url,
            r.path == path,
    {
        ManifestInfo { url, path }
    }

    /// The info of the manifest at `url` under the working directory `dir_path`.
    pub fn from_input(url: &str, dir_path: &str) -> (r: Self)
        ensures
            r.url@ == url@,
            r.path@ == manifest_path(dir_path@, url@),
    {
        let e_url = url_encode(url);
        let manifests = join(dir_path, "_manifests");
        let path = join(manifests.as_str(), e_url.as_str());
        Self::new(url.to_owned(), path)
    }
}

/// Where a binary comes from and where it is kept on disk.
#[derive(Debug, Clone)]
pub struct DllInfo {
    pub url: String,
    pub name: String,
    pub path: String,
    pub cache_dir: Option<String>,
}

impl DllInfo {
    pub fn new(url: String, name: String, path: String, cache_dir: Option<String>) -> (r: Self)
        ensures
            r.url == url,
            r.name == name,
            r.path == path,
            r.cache_dir == cache_dir,
    {
        DllInfo { url, name, path, cache_dir }
    }

    /// The info of the binary at `url`, named `name` or else after the last
    /// segment of the URL's path, kept under the working directory `dir_path`.
    pub fn from_input(url: &str, name: Option<&str>, dir_path: &str) -> (r: Result<Self, ResolveError>)
        ensures
            r is Ok <==> file_name(url@, name.deep_view()) is Some,
            r matches Ok(info) ==> {
                let n = file_name(url@, name.deep_view())->Some_0;
                &&& info.url@ == url@
                &&& info.name@ == n
                &&& info.cache_dir.deep_view() == Some(binary_dir(dir_path@, url@))
                &&& info.path@ == join_path(binary_dir(dir_path@, url@), n)
            },
            r matches Err(e) ==> e matches ResolveError::MissingFileName(u) && u@ == url@,
    {
        let file: String = match name {
            Some(n) => n.to_owned(),
            None => match path_of_url(url) {
                Some(p) => match last_path_segment(p.as_str()) {
                    Some(seg) => seg,
                    None => {
                        return Err(ResolveError::MissingFileName(url.to_owned()));
                    },
                },
                None => {
                    return Err(ResolveError::MissingFileName(url.to_owned()));
                },
            },
        };
        let e_url = url_encode(url);
        let cache_dir = join(dir_path, e_url.as_str());
        let path = join(cache_dir.as_str(), file.as_str());
        Ok(Self::new(url.to_owned(), file, path, Some(cache_dir)))
    }

    /// Where the compiled form of this WebAssembly binary is cached: beside
    /// the binary, as `module-cache-<name>.bin`.
    pub fn wasm_module_cache_path(&self) -> (r: String)
        ensures
            r@ == join_path(parent_path(self.path@), module_cache_name(self.name@)),
    {
        let dir = parent_dir(self.path.as_str());
        let mut file = "module-cache-".to_owned();
        file.append(self.name.as_str());
        file.append(".bin");
        join(dir.as_str(), file.as_str())
    }
}

/// The part of `p` before its last `/`, as `parent_path` describes it.
pub fn parent_dir(p: &str) -> (r: String)
    ensures
        r@ == parent_path(p@),
{
    let n = p.unicode_len();
    let mut k: usize = n;
    while k > 0
        invariant
            n == p@.len(),
            k <= n,
            forall|j: int| k <= j < n ==> p@[j] != '/',
        decreases k,
    {
        if p.get_char(k - 1) == '/' {
            proof {
                lemma_last_slash_is(p@, k - 1);
            }
            return p.substring_char(0, k - 1).to_owned();
        }
        k = k - 1;
    }
    proof {
        lemma_last_slash_bounds(p@);
    }
    String::new()
}

/// The outcome of a download that answered with HTTP `status`: success for
/// `200..=299`, else `DownloadHttp` naming the URL and the status.
pub fn check_status(url: &str, status: u16) -> (r: Result<(), Error>)
    ensures
        r is Ok <==> 200 <= status <= 299,
        r matches Err(e) ==> e matches Error::DownloadHttp { url: u, status: s } && u@ == url@
            && s == status,
{
    if 200 <= status && status <= 299 {
        Ok(())
    } else {
        Err(Error::DownloadHttp { url: url.to_owned(), status })
    }
}

} // verus!
