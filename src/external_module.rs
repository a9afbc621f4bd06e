use vstd::prelude::*;
use vstd::string::StringExecFns;

verus! {

/// How a bundled module reaches a dependency that stays outside the bundle.
#[derive(Clone, Copy, Debug, PartialEq, Eq, Structural)]
pub enum CachedExternalType {
    CommonJs,
    EcmaScriptViaRequire,
    EcmaScriptViaImport,
}

/// The short name of each way.
pub open spec fn external_type_label(t: CachedExternalType) -> Seq<char> {
    match t {
        CachedExternalType::CommonJs => "cjs"@,
        CachedExternalType::EcmaScriptViaRequire => "esm_require"@,
        CachedExternalType::EcmaScriptViaImport => "esm_import"@,
    }
}

impl CachedExternalType {
    /// The short name: `cjs`, `esm_require` or `esm_import`.
    pub fn to_string(&self) -> (r: String)
        ensures
            r@ == external_type_label(*self),
    {
        match self {
            CachedExternalType::CommonJs => String::from_str("cjs"),
            CachedExternalType::EcmaScriptViaRequire => String::from_str("esm_require"),
            CachedExternalType::EcmaScriptViaImport => String::from_str("esm_import"),
        }
    }
}

/// A module that stands for an external dependency: the request that names
/// it and how it is loaded.
pub struct CachedExternalModule {
    pub request: String,
    pub external_type: CachedExternalType,
}

impl CachedExternalModule {
    pub fn new(request: String, external_type: CachedExternalType) -> (r: CachedExternalModule)
        ensures
            r.request == request,
            r.external_type == external_type,
    {
        CachedExternalModule { request, external_type }
    }
}

} // verus!
