use vstd::prelude::*;
use crate::download::DllInfo;
use crate::error::Error;
use crate::resolve::ResolveError;
use crate::text::{contains_str, has_infix};

verus! {

/// The platform that a failed native lookup falls back to.
pub open spec fn fallback_platform_spec() -> Seq<char> {
    "wasm32-wasip1"@
}

/// Whether `platform` names a WebAssembly target.
pub fn is_wasm(platform: &str) -> (r: bool)
    ensures
        r == has_infix(platform@, "wasm"@),
{
    contains_str(platform, "wasm")
}

/// Whether `platform` names a WASI target.
pub fn is_wasi(platform: &str) -> (r: bool)
    ensures
        r == has_infix(platform@, "wasi"@),
{
    contains_str(platform, "wasi")
}

/// The platform tried after the host platform is not supported by a manifest.
pub fn fallback_platform() -> (r: &'static str)
    ensures
        r@ == fallback_platform_spec(),
{
    "wasm32-wasip1"
}

/// The engine that loads a package.
#[derive(Debug, Clone, Copy, PartialEq, Eq)]
pub enum Backend {
    /// The platform's dynamic linker.
    Native,
    /// The WebAssembly engine.
    Wasm,
}

/// The backend for `platform`: WebAssembly when its name contains `wasm`.
pub fn backend_for(platform: &str) -> (r: Backend)
    ensures
        r is Wasm <==> has_infix(platform@, "wasm"@),
{
    if is_wasm(platform) {
        Backend::Wasm
    } else {
        Backend::Native
    }
}

/// The errors after which loading is tried again with the fallback platform.
pub open spec fn falls_back(e: Error) -> bool {
    e matches Error::Resolve(ResolveError::PlatformNotSupported(_))
}

/// Whether loading for the host platform failed in a way that the fallback
/// platform may mend.
pub fn should_fall_back(e: &Error) -> (r: bool)
    ensures
        r == falls_back(*e),
{
    match e {
        Error::Resolve(ResolveError::PlatformNotSupported(_)) => true,
        _ => false,
    }
}

/// Runs `attempt` for the host platform and, when the package does not
/// support that platform, once more for the fallback platform. Any other
/// outcome of the first attempt is the result.
pub fn with_fallback<T, F>(host_platform: &str, attempt: &F) -> (r: Result<T, Error>) where
    F: Fn(&str) -> Result<T, Error>,

    requires
        forall|p: &str| #[trigger] attempt.requires((p,)),
    ensures
        exists|first: Result<T, Error>|
            #[trigger] attempt.ensures((host_platform,), first) && if first matches Err(e) && falls_back(
                e,
            ) {
                exists|p: &str| p@ == fallback_platform_spec() && #[trigger] attempt.ensures((p,), r)
            } else {
                r == first
            },
{
    let first = attempt(host_platform);
    match first {
        Err(e) => {
            if should_fall_back(&e) {
                let p = fallback_platform();
                attempt(p)
            } else {
                Err(e)
            }
        },
        Ok(v) => Ok(v),
    }
}

/// A WebAssembly primary cannot link against other modules: it is loaded
/// only when it has no dependencies.
pub fn check_wasm_dependencies(deps: &Vec<DllInfo>) -> (r: Result<(), Error>)
    ensures
        r is Ok <==> deps@.len() == 0,
        r matches Err(e) ==> e is WasmWithDependencies,
{
    if deps.len() == 0 {
        Ok(())
    } else {
        Err(Error::WasmWithDependencies)
    }
}

} // verus!
