use hash_watcher::{CachedExternalModule, CachedExternalType};

#[test]
fn external_type_labels() {
    assert_eq!(CachedExternalType::CommonJs.to_string(), "cjs");
    assert_eq!(CachedExternalType::EcmaScriptViaRequire.to_string(), "esm_require");
    assert_eq!(CachedExternalType::EcmaScriptViaImport.to_string(), "esm_import");
}

#[test]
fn external_module_keeps_its_fields() {
    let m = CachedExternalModule::new("react".to_string(), CachedExternalType::EcmaScriptViaImport);
    assert_eq!(m.request, "react");
    assert_eq!(m.external_type, CachedExternalType::EcmaScriptViaImport);
}
