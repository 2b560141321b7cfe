//! The data model of a run: module records, module states, cache states.

use vstd::prelude::*;

verus! {

/// Per-file summary used for cross-file resolution: what the file imports,
/// what it exports, and what it re-exports.  The two trailing maps are
/// append-only and filled while the owning path is processed.
pub struct ModuleRecord {
    /// The distinct import specifiers the module requests.
    pub requested_modules: Vec<String>,
    /// The names of the module's locally exported bindings.
    pub exported_bindings: Vec<String>,
    /// The specifier of each `export * from X` entry.
    pub star_export_requests: Vec<String>,
    /// Append-only map from a requested specifier to the path id of its
    /// resolved dependency; only dependencies whose state is `Resolved` are
    /// entered.
    pub loaded_modules: Vec<(String, usize)>,
    /// Append-only map from a remote path id to the binding names
    /// re-exported from it via `export *`.
    pub star_export_bindings: Vec<(usize, Vec<String>)>,
}

/// The terminal state of one canonical path.  Exactly one such state exists
/// per path once a run completes, and it is never overwritten.
#[derive(Clone, Copy, PartialEq, Eq, Structural, Debug)]
pub enum ModuleState {
    /// The path was parsed; its module record stands at this index of the
    /// runtime's record arena.
    Resolved(usize),
    /// Unsupported extension, read failure, or empty fragment list.
    Ignored,
}

/// Per-path cache-state entry, the stampede guard: `PendingStore(n)` counts
/// outstanding "I intend to build this" claims; `PendingStore(0)` is
/// `ReadyToConstruct`.
#[derive(Clone, Copy, PartialEq, Eq, Structural, Debug)]
pub enum CacheStateEntry {
    /// No build of this path is pending.
    ReadyToConstruct,
    /// `n` claims to build this path are outstanding.
    PendingStore(usize),
}

/// What the parser hands back for one source fragment, as plain values.
pub struct ParseOutput {
    /// The requested import specifiers, in the parser's order.
    pub requested: Vec<String>,
    /// The names of the locally exported bindings.
    pub exported: Vec<String>,
    /// The specifier of each `export * from X` entry that has one.
    pub star_requests: Vec<String>,
    /// The syntax errors, rendered as strings.
    pub errors: Vec<String>,
}

/// The views of a string sequence.
pub open spec fn spec_views(v: Seq<String>) -> Seq<Seq<char>> {
    v.map_values(|s: String| s@)
}

/// The names a star-export table holds, in order.
pub open spec fn spec_star_tail(t: Seq<(usize, Vec<String>)>) -> Seq<Seq<char>>
    decreases t.len(),
{
    if t.len() == 0 {
        Seq::empty()
    } else {
        spec_views(t[0].1@) + spec_star_tail(t.drop_first())
    }
}

/// The binding names a module contributes through `export *`: its own
/// exported bindings plus everything its star-export table already holds.
pub open spec fn spec_star_names(r: ModuleRecord) -> Seq<Seq<char>> {
    spec_views(r.exported_bindings@) + spec_star_tail(r.star_export_bindings@)
}

/// The path id the loaded-modules map assigns to `specifier`, if any: the
/// first entry whose key is `specifier`.
pub open spec fn spec_lookup_loaded(l: Seq<(String, usize)>, specifier: Seq<char>) -> Option<usize>
    decreases l.len(),
{
    if l.len() == 0 {
        None
    } else if l[0].0@ == specifier {
        Some(l[0].1)
    } else {
        spec_lookup_loaded(l.drop_first(), specifier)
    }
}

/// The sub-sequence of `resolved` whose target path, under the module map
/// `map`, holds a `Resolved` state: exactly the pairs that enter a record's
/// loaded-modules map, in order.
pub open spec fn spec_attached(
    map: Seq<Option<ModuleState>>,
    resolved: Seq<(String, usize)>,
) -> Seq<(String, usize)>
    decreases resolved.len(),
{
    if resolved.len() == 0 {
        Seq::empty()
    } else {
        (if map[resolved[0].1 as int] matches Some(ModuleState::Resolved(_)) {
            seq![resolved[0]]
        } else {
            Seq::empty()
        }) + spec_attached(map, resolved.drop_first())
    }
}

/// Does the star-export table hold an entry for `tid` that contains every
/// name of `names`?
pub open spec fn spec_table_has_all(
    t: Seq<(usize, Vec<String>)>,
    tid: usize,
    names: Seq<Seq<char>>,
) -> bool {
    exists|m: int|
        0 <= m < t.len() && t[m].0 == tid && (forall|x: Seq<char>|
            names.contains(x) ==> spec_views(t[m].1@).contains(x))
}

} // verus!
