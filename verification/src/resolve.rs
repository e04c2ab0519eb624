//! Specifier resolution: the one capability the walker consumes from the
//! module-resolution crate.

use vstd::prelude::*;
use node_resolve::Resolver;

verus! {

/// Relies on node_resolve::Resolver::resolve, configured with the tracked
/// source extensions and the `source` package-entry field: it maps a
/// specifier and a base directory to the canonical path of an existing file,
/// or fails. The outcome depends on what is on disk, so nothing relates two
/// calls on equal arguments; callers treat every outcome as possible.
/// A result that is not valid UTF-8 counts as a failure.
#[verifier::external_body]
pub(crate) fn resolve_import(specifier: &String, base_dir: &String) -> (r: Option<String>)
{
    let resolver = Resolver::new()
        .with_extensions([".ts", ".tsx", ".js", ".jsx", ".json"])
        .with_main_fields(["source"])
        .with_basedir(std::path::PathBuf::from(base_dir));
    match resolver.resolve(specifier) {
        Ok(p) => p.to_str().map(|s| s.to_string()),
        Err(_) => None,
    }
}

} // verus!
