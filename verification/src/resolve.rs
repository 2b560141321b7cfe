//! The resolver boundary: oxc_resolver maps (directory, specifier) pairs to
//! concrete file paths.  What it returns depends on the file system, so the
//! wrappers promise nothing of the outcome; the runtime states what holds
//! whatever comes back.

use vstd::prelude::*;

verus! {

/// oxc_resolver's resolver type, opaque to the proofs.
#[verifier::external_type_specification]
#[verifier::external_body]
#[verifier::reject_recursive_types(Fs)]
pub struct ExResolverGeneric<Fs>(oxc_resolver::ResolverGeneric<Fs>);

/// The operating-system file system oxc_resolver runs on.
#[verifier::external_type_specification]
#[verifier::external_body]
pub struct ExFileSystemOs(oxc_resolver::FileSystemOs);

/// Relies on std::path::Path::is_file: whether `p` names an existing
/// regular file.  The answer depends on the file system, so nothing is
/// promised of it.
#[verifier::external_body]
pub(crate) fn path_is_file(p: &String) -> bool {
    std::path::Path::new(p.as_str()).is_file()
}

/// Relies on oxc_resolver::Resolver::new: a resolver configured with the
/// recognized script extensions, the `module` and `require` condition
/// names, and the optional tsconfig path for alias resolution.
#[verifier::external_body]
pub(crate) fn resolver_new(tsconfig: Option<String>) -> (r: oxc_resolver::Resolver) {
    let tsconfig = tsconfig.map(|p| oxc_resolver::TsconfigDiscovery::Manual(
        oxc_resolver::TsconfigOptions {
            config_file: std::path::PathBuf::from(p),
            references: oxc_resolver::TsconfigReferences::Auto,
        },
    ));
    oxc_resolver::Resolver::new(oxc_resolver::ResolveOptions {
        extensions: oxc_span::VALID_EXTENSIONS.iter().map(|ext| format!(".{ext}")).collect(),
        condition_names: vec!["module".into(), "require".into()],
        tsconfig,
        ..oxc_resolver::ResolveOptions::default()
    })
}

/// Relies on oxc_resolver's resolve: maps the directory and specifier to
/// the resolved file's absolute path, `None` when resolution fails.  Which
/// path comes back depends on the file system, so nothing more is promised
/// of the outcome.
#[verifier::external_body]
pub(crate) fn resolver_resolve(r: &oxc_resolver::Resolver, dir: &String, specifier: &String) -> (res:
    Option<String>) {
    r.resolve(std::path::Path::new(dir.as_str()), specifier.as_str()).ok().map(
        |resolution| resolution.path().to_string_lossy().into_owned(),
    )
}

} // verus!
