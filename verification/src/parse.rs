//! Source-kind classification and the parser boundary.
//!
//! The recognized script extensions are parsed directly; the container
//! extensions are pre-processed by an external fragment loader.  Parsing
//! itself is oxc's: the trusted wrapper below names its results, which are
//! functions of the source text and the extension alone.

use vstd::prelude::*;
use crate::record::ParseOutput;

verus! {

/// Is `e` one of the recognized script extensions?
pub open spec fn spec_is_script_ext(e: Seq<char>) -> bool {
    ||| e == "js"@
    ||| e == "mjs"@
    ||| e == "cjs"@
    ||| e == "jsx"@
    ||| e == "ts"@
    ||| e == "mts"@
    ||| e == "cts"@
    ||| e == "tsx"@
}

/// Is `e` one of the container extensions a fragment loader handles?
pub open spec fn spec_is_container_ext(e: Seq<char>) -> bool {
    ||| e == "vue"@
    ||| e == "astro"@
    ||| e == "svelte"@
}

/// Whether `e` is a recognized script extension.
pub fn is_script_ext(e: &str) -> (r: bool)
    ensures
        r == spec_is_script_ext(e@),
{
    let s = e.to_owned();
    ||| s == "js".to_owned()
    ||| s == "mjs".to_owned()
    ||| s == "cjs".to_owned()
    ||| s == "jsx".to_owned()
    ||| s == "ts".to_owned()
    ||| s == "mts".to_owned()
    ||| s == "cts".to_owned()
    ||| s == "tsx".to_owned()
}

/// Whether `e` is a container extension handled by a fragment loader.
pub fn is_container_ext(e: &str) -> (r: bool)
    ensures
        r == spec_is_container_ext(e@),
{
    let s = e.to_owned();
    ||| s == "vue".to_owned()
    ||| s == "astro".to_owned()
    ||| s == "svelte".to_owned()
}

/// The distinct import specifiers oxc's parser finds in a source text of the
/// given extension, in the order the module record's requested-modules map
/// yields them — deterministic for a given source, as the map's hasher is
/// unseeded.
pub uninterp spec fn requested_modules_of(text: Seq<char>, ext: Seq<char>) -> Seq<Seq<char>>;

/// The locally exported binding names oxc's parser finds.
pub uninterp spec fn exported_bindings_of(text: Seq<char>, ext: Seq<char>) -> Seq<Seq<char>>;

/// The specifier of each `export * from X` entry oxc's parser finds.
pub uninterp spec fn star_export_requests_of(text: Seq<char>, ext: Seq<char>) -> Seq<Seq<char>>;

/// The syntax errors oxc's parser reports, rendered as strings.
pub uninterp spec fn parse_errors_of(text: Seq<char>, ext: Seq<char>) -> Seq<Seq<char>>;

/// Relies on oxc_parser::Parser::parse and the module record it returns:
/// the record's requested modules, exported bindings and star-export
/// entries, and the parser's diagnostics, are functions of the source text
/// and the source type (here derived from the extension) alone.  Parsing
/// proceeds past syntax errors, so a best-effort record comes back even for
/// invalid sources.
#[verifier::external_body]
pub(crate) fn parse_source(text: &String, ext: &String) -> (r: ParseOutput)
    ensures
        crate::record::spec_views(r.requested@) == requested_modules_of(text@, ext@),
        crate::record::spec_views(r.exported@) == exported_bindings_of(text@, ext@),
        crate::record::spec_views(r.star_requests@) == star_export_requests_of(text@, ext@),
        crate::record::spec_views(r.errors@) == parse_errors_of(text@, ext@),
{
    let alloc = oxc_allocator::Allocator::default();
    let st = oxc_span::SourceType::from_extension(ext.as_str()).unwrap_or_default();
    let ret = oxc_parser::Parser::new(&alloc, text.as_str(), st).parse();
    let rec = &ret.module_record;
    ParseOutput {
        requested: rec.requested_modules.keys().map(|k| k.to_string()).collect(),
        exported: rec.exported_bindings.keys().map(|k| k.to_string()).collect(),
        star_requests: rec.star_export_entries.iter().filter_map(|e| e.module_request.as_ref()).map(|n| n.name.to_string()).collect(),
        errors: ret.diagnostics.iter().map(|d| format!("{d}")).collect(),
    }
}

} // verus!
