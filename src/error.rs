use vstd::prelude::*;
use crate::dllpack_file::ManifestError;
use crate::resolve::ResolveError;

verus! {

/// Every way in which fetching, resolving or loading a package can fail.
#[derive(Debug)]
pub enum Error {
    /// A document that is not valid JSON of the manifest schema.
    Parse(String),
    /// A manifest that the schema admits but the format does not.
    Manifest(ManifestError),
    /// The resolver could not produce a load plan.
    Resolve(ResolveError),
    /// A download answered with a status outside `200..=299`.
    DownloadHttp { url: String, status: u16 },
    /// A network or file system failure.
    DownloadIo(String),
    /// A symbol that the loaded image does not export.
    SymbolNotFound(String),
    /// A function bound to one backend called on a library of the other.
    BackendMismatch,
    /// A WebAssembly primary whose manifest declares dependencies.
    WasmWithDependencies,
    /// The dynamic linker could not open a binary.
    Link(String),
    /// A failure raised by the WebAssembly engine: compiling, instantiating
    /// or running a call.
    WasmTrap(String),
}

} // verus!
