//! The runtime: the state machine at the heart of the graph build.
//!
//! One `Runtime` is one run over one set of entry paths.  The caller drives
//! it: `step` consumes an event (the start signal, a file read result, a
//! fragment list, one specifier resolution) and answers with the next
//! action to perform (read a file, load fragments, resolve a specifier, or
//! done).  Everything between two actions — the cache-state protocol, the
//! module map, record construction, star-export propagation, edge
//! emission — happens inside `step` and is verified.
//!
//! The module map assigns at most one terminal state per canonical path and
//! never overwrites a written state; the cache-state table only transitions
//! `ReadyToConstruct -> PendingStore(n) -> ... -> ReadyToConstruct`, so a
//! path that is its own transitive dependency is seen as a cache hit on its
//! second visit instead of being rebuilt.

use vstd::prelude::*;
use crate::record::{CacheStateEntry, ModuleRecord, ModuleState};
use crate::record::{
    spec_attached,
    spec_lookup_loaded,
    spec_star_names,
    spec_star_tail,
    spec_table_has_all,
    spec_views,
};
use crate::paths::{
    clone_strings,
    dedup_strings,
    extension_of,
    parent_of,
    seq_contains_str,
    spec_extension,
    spec_parent,
    spec_strip_prefix,
    strip_dir_prefix,
};
use crate::parse::{
    exported_bindings_of,
    is_container_ext,
    is_script_ext,
    parse_errors_of,
    parse_source,
    requested_modules_of,
    spec_is_container_ext,
    spec_is_script_ext,
    star_export_requests_of,
};

verus! {

/// What the machine is waiting on.
#[derive(Clone, Copy, PartialEq, Eq, Structural, Debug)]
pub enum Pending {
    /// Nothing: the machine is free to pop the next task.
    Idle,
    /// The caller is reading the current path's file.
    AwaitingRead,
    /// The caller is running the fragment loader on the current path.
    AwaitingFragments,
    /// The caller is resolving the current specifier of the current path.
    AwaitingResolve,
}

/// One unit of outstanding work on the machine's stack.
pub enum Task {
    /// Process a path: claim it, classify it by extension, read it.
    Visit { path_id: usize },
    /// Parse one further source fragment of an already-claimed path.
    Parse { path_id: usize, text: String, ext: String },
    /// Attach resolved dependencies to a record, fold its star exports and
    /// emit its edges.
    Attach { path_id: usize, rec: usize, resolved: Vec<(String, usize)> },
}

/// What the caller must do next.
pub enum Action {
    /// Read the file at `path` and answer with `FileRead`.
    Read { path: String },
    /// Run the fragment loader on the container file at `path`, whose
    /// content is `text`, and answer with `FragmentsLoaded`.
    LoadFragments { path: String, ext: String, text: String },
    /// Resolve `specifier` against the directory `dir` and answer with
    /// `SpecifierResolved`.
    Resolve { dir: String, specifier: String },
    /// The run is complete.
    Done,
}

/// What the caller hands back to the machine.
pub enum Event {
    /// Begin the run over the entry paths.
    Start,
    /// The result of reading the requested file: its content, or an error
    /// message.
    FileRead { result: Result<String, String> },
    /// The fragments the loader extracted: one (text, extension) pair each.
    FragmentsLoaded { fragments: Vec<(String, String)> },
    /// The result of one specifier resolution: the resolved path, or `None`
    /// when resolution failed.
    SpecifierResolved { path: Option<String> },
}

/// The number of outstanding claims a cache-state entry records.
pub open spec fn spec_claims(e: CacheStateEntry) -> usize {
    match e {
        CacheStateEntry::ReadyToConstruct => 0,
        CacheStateEntry::PendingStore(n) => n,
    }
}

/// The concurrent, cache-coherent recursive resolver/builder.
pub struct Runtime {
    /// Working directory; edge entries report source paths relative to it.
    pub cwd: String,
    /// The distinct entry paths of the run.
    pub paths: Vec<String>,
    /// Whether import specifiers are resolved across modules.
    pub cross_module: bool,
    /// Canonical path of each path id, in order of interning.
    pub path_names: Vec<String>,
    /// The module map: the terminal state of each path id, written at most
    /// once and never overwritten.
    pub module_map: Vec<Option<ModuleState>>,
    /// The cache-state table: one entry per path id.
    pub cache_state: Vec<CacheStateEntry>,
    /// The arena of module records; `ModuleState::Resolved` points into it.
    pub records: Vec<ModuleRecord>,
    /// The stack of outstanding work.
    pub tasks: Vec<Task>,
    /// What the machine is waiting on.
    pub pending: Pending,
    /// The path id being processed while waiting.
    pub cur_path: usize,
    /// The extension of the path being processed.
    pub cur_ext: String,
    /// The record index the current resolution round fills.
    pub cur_rec: usize,
    /// The directory specifiers of the current path resolve against.
    pub cur_dir: String,
    /// The distinct specifiers of the current resolution round.
    pub cur_specs: Vec<String>,
    /// How many of `cur_specs` are answered already.
    pub cur_next: usize,
    /// The resolutions gathered so far: (specifier, target path id).
    pub cur_resolved: Vec<(String, usize)>,
    /// The emitted stream entries: edges and diagnostics, in order.
    pub outputs: Vec<(String, Vec<String>)>,
}

impl Runtime {
    /// The three per-path tables cover exactly the interned paths.
    pub open spec fn sizes_ok(self) -> bool {
        &&& self.module_map@.len() == self.path_names@.len()
        &&& self.cache_state@.len() == self.path_names@.len()
    }

    /// Interned paths are pairwise distinct.
    pub open spec fn paths_distinct(self) -> bool {
        forall|i: int, j: int|
            0 <= i < j < self.path_names@.len() ==> self.path_names@[i]@ != self.path_names@[j]@
    }

    /// Every `Resolved` state points into the record arena.
    pub open spec fn map_refs_ok(self) -> bool {
        forall|i: int|
            0 <= i < self.module_map@.len() ==> (#[trigger] self.module_map@[i] matches Some(
                ModuleState::Resolved(r),
            ) ==> r < self.records@.len())
    }

    /// No claim is outstanding on any path.
    pub open spec fn all_ready(self) -> bool {
        forall|i: int|
            0 <= i < self.cache_state@.len() ==> self.cache_state@[i]
                == CacheStateEntry::ReadyToConstruct
    }

    /// Exactly one claim is outstanding, on path `p`.
    pub open spec fn one_claim(self, p: int) -> bool {
        &&& self.cache_state@[p] == CacheStateEntry::PendingStore(1usize)
        &&& forall|i: int|
            0 <= i < self.cache_state@.len() && i != p ==> self.cache_state@[i]
                == CacheStateEntry::ReadyToConstruct
    }

    /// Well-formedness of one task.
    pub open spec fn task_wf(self, t: Task) -> bool {
        match t {
            Task::Visit { path_id } => path_id < self.path_names@.len(),
            Task::Parse { path_id, .. } => path_id < self.path_names@.len(),
            Task::Attach { path_id, rec, resolved } => {
                &&& path_id < self.path_names@.len()
                &&& rec < self.records@.len()
                &&& forall|k: int|
                    0 <= k < resolved@.len() ==> (#[trigger] resolved@[k]).1
                        < self.path_names@.len()
            },
        }
    }

    /// Well-formedness of the whole task stack.
    pub open spec fn tasks_ok(self) -> bool {
        forall|k: int| 0 <= k < self.tasks@.len() ==> self.task_wf(#[trigger] self.tasks@[k])
    }

    /// Consistency of the waiting state with the rest of the machine: a
    /// held claim exists exactly while the current path's file or fragments
    /// are out for loading, and no state is written for that path yet.
    pub open spec fn pending_ok(self) -> bool {
        match self.pending {
            Pending::Idle => self.all_ready(),
            Pending::AwaitingRead => {
                &&& self.cur_path < self.path_names@.len()
                &&& self.module_map@[self.cur_path as int] is None
                &&& if self.cross_module {
                    self.one_claim(self.cur_path as int)
                } else {
                    self.all_ready()
                }
            },
            Pending::AwaitingFragments => {
                &&& self.cur_path < self.path_names@.len()
                &&& self.module_map@[self.cur_path as int] is None
                &&& if self.cross_module {
                    self.one_claim(self.cur_path as int)
                } else {
                    self.all_ready()
                }
            },
            Pending::AwaitingResolve => {
                &&& self.all_ready()
                &&& self.cur_path < self.path_names@.len()
                &&& self.cur_rec < self.records@.len()
                &&& self.cur_next < self.cur_specs@.len()
                &&& forall|k: int|
                    0 <= k < self.cur_resolved@.len() ==> (#[trigger] self.cur_resolved@[k]).1
                        < self.path_names@.len()
            },
        }
    }

    /// Path `i` is accounted for: its terminal state is written, or a
    /// visit of it is still queued, or it is the path whose file or
    /// fragments are out for loading, or it sits in the current resolution
    /// round's answers, whose visits are queued when the round completes.
    pub open spec fn covered(self, i: int) -> bool {
        ||| self.module_map@[i] is Some
        ||| exists|k: int|
            0 <= k < self.tasks@.len() && self.tasks@[k] == (Task::Visit { path_id: i as usize })
        ||| ((self.pending == Pending::AwaitingRead || self.pending == Pending::AwaitingFragments)
            && self.cur_path == i)
        ||| (self.pending == Pending::AwaitingResolve && exists|k: int|
            0 <= k < self.cur_resolved@.len() && (#[trigger] self.cur_resolved@[k]).1 == i)
    }

    /// Every interned path is accounted for; with an empty task stack and
    /// nothing pending, every interned path therefore has a terminal state.
    pub open spec fn coverage_ok(self) -> bool {
        forall|i: int| 0 <= i < self.path_names@.len() ==> self.covered(i)
    }

    /// The machine's invariant.
    pub open spec fn inv(self) -> bool {
        &&& self.sizes_ok()
        &&& self.paths_distinct()
        &&& self.map_refs_ok()
        &&& self.tasks_ok()
        &&& self.pending_ok()
        &&& self.coverage_ok()
    }

    /// The id of `p` in the interner, interning it if new.  A new path gets
    /// an empty module-map slot and a ready cache-state entry.
    pub fn intern_path(&mut self, p: &String) -> (id: usize)
        requires
            old(self).sizes_ok(),
            old(self).paths_distinct(),
        ensures
            final(self).sizes_ok(),
            final(self).paths_distinct(),
            id < final(self).path_names@.len(),
            final(self).path_names@[id as int]@ == p@,
            old(self).path_names@.len() <= final(self).path_names@.len(),
            forall|i: int|
                0 <= i < old(self).path_names@.len() ==> final(self).path_names@[i] == old(self).path_names@[i],
            seq_contains_str(old(self).path_names@, p@) ==> *final(self) == *old(self),
            !seq_contains_str(old(self).path_names@, p@) ==> {
                &&& id == old(self).path_names@.len()
                &&& final(self).path_names@ == old(self).path_names@.push(*p)
                &&& final(self).module_map@ == old(self).module_map@.push(None)
                &&& final(self).cache_state@ == old(self).cache_state@.push(
                    CacheStateEntry::ReadyToConstruct,
                )
            },
            (*final(self) == Runtime {
                path_names: final(self).path_names,
                module_map: final(self).module_map,
                cache_state: final(self).cache_state,
                ..*old(self)
            }),
    {
        let n = self.path_names.len();
        let mut i: usize = 0;
        while i < n
            invariant
                i <= n,
                n == self.path_names@.len(),
                *self == *old(self),
                self.sizes_ok(),
                self.paths_distinct(),
                forall|j: int| 0 <= j < i ==> self.path_names@[j]@ != p@,
            decreases n - i,
        {
            if self.path_names[i] == *p {
                return i;
            }
            i = i + 1;
        }
        self.path_names.push(p.clone());
        self.module_map.push(None);
        self.cache_state.push(CacheStateEntry::ReadyToConstruct);
        n
    }

    /// Writes the terminal state of path `id`, unless one is already
    /// written: a module-map entry, once written, is never overwritten.
    pub fn insert_module_state(&mut self, id: usize, st: ModuleState)
        requires
            id < old(self).module_map@.len(),
        ensures
            old(self).module_map@[id as int] is None ==> final(self).module_map@ == old(self).module_map@.update(id as int, Some(st)),
            old(self).module_map@[id as int] is Some ==> final(self).module_map@ == old(self).module_map@,
            (*final(self) == Runtime { module_map: final(self).module_map, ..*old(self) }),
    {
        if self.module_map[id].is_none() {
            self.module_map.set(id, Some(st));
        }
    }

    /// Looks up or lazily creates the claim entry of path `id` and claims
    /// the intent to build it, unless the module map already has a state
    /// for `id` — then it reports a cache hit and changes nothing.
    pub fn init_cache_state(&mut self, id: usize) -> (hit: bool)
        requires
            old(self).sizes_ok(),
            id < old(self).path_names@.len(),
            spec_claims(old(self).cache_state@[id as int]) < usize::MAX,
        ensures
            hit == (old(self).module_map@[id as int] is Some),
            hit ==> *final(self) == *old(self),
            !hit ==> final(self).cache_state@ == old(self).cache_state@.update(
                id as int,
                CacheStateEntry::PendingStore(
                    (spec_claims(old(self).cache_state@[id as int]) + 1) as usize,
                ),
            ),
            (*final(self) == Runtime { cache_state: final(self).cache_state, ..*old(self) }),
    {
        if self.module_map[id].is_some() {
            return true;
        }
        let i = match self.cache_state[id] {
            CacheStateEntry::ReadyToConstruct => 0,
            CacheStateEntry::PendingStore(n) => n,
        };
        self.cache_state.set(id, CacheStateEntry::PendingStore(i + 1));
        false
    }

    /// Releases one claim on path `id`: the counter decrements, and at zero
    /// the entry flips back to `ReadyToConstruct`.  A ready entry stays as
    /// it is.
    pub fn update_cache_state(&mut self, id: usize)
        requires
            id < old(self).cache_state@.len(),
        ensures
            final(self).cache_state@.len() == old(self).cache_state@.len(),
            final(self).cache_state@ == old(self).cache_state@.update(
                id as int,
                (match old(self).cache_state@[id as int] {
                    CacheStateEntry::ReadyToConstruct => CacheStateEntry::ReadyToConstruct,
                    CacheStateEntry::PendingStore(n) => if n <= 1 {
                        CacheStateEntry::ReadyToConstruct
                    } else {
                        CacheStateEntry::PendingStore((n - 1) as usize)
                    },
                }),
            ),
            (*final(self) == Runtime { cache_state: final(self).cache_state, ..*old(self) }),
    {
        let e = self.cache_state[id];
        match e {
            CacheStateEntry::ReadyToConstruct => {
                proof {
                    assert(self.cache_state@ =~= old(self).cache_state@.update(
                        id as int,
                        old(self).cache_state@[id as int],
                    ));
                }
            },
            CacheStateEntry::PendingStore(n) => {
                if n <= 1 {
                    self.cache_state.set(id, CacheStateEntry::ReadyToConstruct);
                } else {
                    self.cache_state.set(id, CacheStateEntry::PendingStore(n - 1));
                }
            },
        }
    }

    /// Marks path `id` `Ignored` — for paths that cannot or should not be
    /// parsed — and releases the claim on it.
    pub fn ignore_path(&mut self, id: usize)
        requires
            old(self).sizes_ok(),
            id < old(self).path_names@.len(),
        ensures
            old(self).module_map@[id as int] is None ==> final(self).module_map@ == old(self).module_map@.update(id as int, Some(ModuleState::Ignored)),
            old(self).module_map@[id as int] is Some ==> final(self).module_map@ == old(self).module_map@,
            final(self).cache_state@ == old(self).cache_state@.update(
                id as int,
                (match old(self).cache_state@[id as int] {
                    CacheStateEntry::ReadyToConstruct => CacheStateEntry::ReadyToConstruct,
                    CacheStateEntry::PendingStore(n) => if n <= 1 {
                        CacheStateEntry::ReadyToConstruct
                    } else {
                        CacheStateEntry::PendingStore((n - 1) as usize)
                    },
                }),
            ),
            (*final(self) == Runtime {
                module_map: final(self).module_map,
                cache_state: final(self).cache_state,
                ..*old(self)
            }),
    {
        self.insert_module_state(id, ModuleState::Ignored);
        self.update_cache_state(id);
    }
}

/// The value of `specifier` in a loaded-modules map: the first entry whose
/// key equals it.
pub fn lookup_loaded(l: &Vec<(String, usize)>, specifier: &String) -> (r: Option<usize>)
    ensures
        r == spec_lookup_loaded(l@, specifier@),
{
    let mut i: usize = 0;
    proof {
        assert(l@.skip(0) =~= l@);
    }
    while i < l.len()
        invariant
            i <= l@.len(),
            spec_lookup_loaded(l@, specifier@) == spec_lookup_loaded(
                l@.skip(i as int),
                specifier@,
            ),
        decreases l@.len() - i,
    {
        proof {
            assert(l@.skip(i as int)[0] == l@[i as int]);
            assert(l@.skip(i as int).drop_first() =~= l@.skip(i as int + 1));
        }
        if l[i].0 == *specifier {
            return Some(l[i].1);
        }
        i = i + 1;
    }
    None
}

/// The index of the table entry for `tid`, if any.
fn find_table_index(t: &Vec<(usize, Vec<String>)>, tid: usize) -> (r: Option<usize>)
    ensures
        match r {
            Some(m) => m < t@.len() && t@[m as int].0 == tid,
            None => forall|m: int| 0 <= m < t@.len() ==> t@[m].0 != tid,
        },
{
    let mut i: usize = 0;
    while i < t.len()
        invariant
            i <= t@.len(),
            forall|m: int| 0 <= m < i ==> t@[m].0 != tid,
        decreases t@.len() - i,
    {
        if t[i].0 == tid {
            return Some(i);
        }
        i = i + 1;
    }
    None
}

/// A copy of a loaded-modules map: the same entries in the same order.
fn clone_pairs(v: &Vec<(String, usize)>) -> (r: Vec<(String, usize)>)
    ensures
        r@ == v@,
{
    let mut r: Vec<(String, usize)> = Vec::new();
    let mut i: usize = 0;
    while i < v.len()
        invariant
            i <= v@.len(),
            r@ =~= v@.subrange(0, i as int),
        decreases v@.len() - i,
    {
        r.push((v[i].0.clone(), v[i].1));
        i = i + 1;
    }
    proof {
        assert(r@ =~= v@);
    }
    r
}

/// A copy of a star-export table, entry for entry.
fn clone_table(v: &Vec<(usize, Vec<String>)>) -> (r: Vec<(usize, Vec<String>)>)
    ensures
        r@.len() == v@.len(),
        forall|m: int| 0 <= m < v@.len() ==> (#[trigger] r@[m]).0 == v@[m].0 && r@[m].1@ == v@[m].1@,
{
    let mut r: Vec<(usize, Vec<String>)> = Vec::new();
    let mut i: usize = 0;
    while i < v.len()
        invariant
            i <= v@.len(),
            r@.len() == i,
            forall|m: int| 0 <= m < i ==> (#[trigger] r@[m]).0 == v@[m].0 && r@[m].1@ == v@[m].1@,
        decreases v@.len() - i,
    {
        r.push((v[i].0, clone_strings(&v[i].1)));
        i = i + 1;
    }
    r
}

proof fn lemma_attached_push(
    map: Seq<Option<ModuleState>>,
    s: Seq<(String, usize)>,
    x: (String, usize),
)
    ensures
        spec_attached(map, s.push(x)) == spec_attached(map, s) + (
        if map[x.1 as int] matches Some(ModuleState::Resolved(_)) {
            seq![x]
        } else {
            Seq::<(String, usize)>::empty()
        }),
    decreases s.len(),
{
    let tail = (if map[x.1 as int] matches Some(ModuleState::Resolved(_)) {
        seq![x]
    } else {
        Seq::<(String, usize)>::empty()
    });
    if s.len() == 0 {
        assert(s.push(x)[0] == x);
        assert(s.push(x).drop_first() =~= Seq::<(String, usize)>::empty());
        let e = Seq::<(String, usize)>::empty();
        assert(spec_attached(map, s.push(x).drop_first()) == e);
        assert(spec_attached(map, s.push(x)) == tail + e);
        assert(tail + e =~= tail);
        assert(spec_attached(map, s) == e);
        assert(e + tail =~= tail);
    } else {
        assert(s.push(x)[0] == s[0]);
        assert(s.push(x).drop_first() =~= s.drop_first().push(x));
        lemma_attached_push(map, s.drop_first(), x);
        assert(spec_attached(map, s.push(x)) =~= spec_attached(map, s) + tail);
    }
}

proof fn lemma_star_tail_push(t: Seq<(usize, Vec<String>)>, x: (usize, Vec<String>))
    ensures
        spec_star_tail(t.push(x)) == spec_star_tail(t) + spec_views(x.1@),
    decreases t.len(),
{
    if t.len() == 0 {
        assert(t.push(x)[0] == x);
        assert(t.push(x).drop_first() =~= Seq::<(usize, Vec<String>)>::empty());
        let e = Seq::<Seq<char>>::empty();
        assert(spec_star_tail(t.push(x).drop_first()) == e);
        assert(spec_star_tail(t.push(x)) == spec_views(x.1@) + e);
        assert(spec_views(x.1@) + e =~~= spec_views(x.1@));
        assert(spec_star_tail(t) == e);
        assert(e + spec_views(x.1@) =~~= spec_views(x.1@));
    } else {
        assert(t.push(x)[0] == t[0]);
        assert(t.push(x).drop_first() =~= t.drop_first().push(x));
        lemma_star_tail_push(t.drop_first(), x);
        let a = spec_views(t[0].1@);
        let b = spec_star_tail(t.drop_first());
        let c = spec_views(x.1@);
        assert(spec_star_tail(t.push(x)) == a + (b + c));
        assert(spec_star_tail(t) + c == (a + b) + c);
        assert(a + (b + c) =~~= (a + b) + c);
    }
}

/// The binding names `r` contributes through `export *`: its exported
/// bindings followed by everything its star-export table holds.
pub fn star_names_of(r: &ModuleRecord) -> (names: Vec<String>)
    ensures
        spec_views(names@) == spec_star_names(*r),
{
    let mut names = clone_strings(&r.exported_bindings);
    proof {
        assert(r.star_export_bindings@.subrange(0, 0) =~= Seq::<(usize, Vec<String>)>::empty());
        assert(spec_views(names@) =~~= spec_views(r.exported_bindings@) + spec_star_tail(
            r.star_export_bindings@.subrange(0, 0),
        ));
    }
    let n = r.star_export_bindings.len();
    let mut i: usize = 0;
    while i < n
        invariant
            i <= n,
            n == r.star_export_bindings@.len(),
            spec_views(names@) == spec_views(r.exported_bindings@) + spec_star_tail(
                r.star_export_bindings@.subrange(0, i as int),
            ),
        decreases n - i,
    {
        let m = r.star_export_bindings[i].1.len();
        let mut j: usize = 0;
        while j < m
            invariant
                j <= m,
                i < n,
                n == r.star_export_bindings@.len(),
                m == r.star_export_bindings@[i as int].1@.len(),
                spec_views(names@) == spec_views(r.exported_bindings@) + spec_star_tail(
                    r.star_export_bindings@.subrange(0, i as int),
                ) + spec_views(r.star_export_bindings@[i as int].1@.subrange(0, j as int)),
            decreases m - j,
        {
            let ghost pre = names@;
            names.push(r.star_export_bindings[i].1[j].clone());
            proof {
                assert(spec_views(names@) =~~= spec_views(pre).push(
                    r.star_export_bindings@[i as int].1@[j as int]@,
                ));
                assert(r.star_export_bindings@[i as int].1@.subrange(0, j + 1)
                    =~= r.star_export_bindings@[i as int].1@.subrange(0, j as int).push(
                    r.star_export_bindings@[i as int].1@[j as int],
                ));
                assert(spec_views(names@) =~~= spec_views(r.exported_bindings@) + spec_star_tail(
                    r.star_export_bindings@.subrange(0, i as int),
                ) + spec_views(r.star_export_bindings@[i as int].1@.subrange(0, j + 1)));
            }
            j = j + 1;
        }
        proof {
            assert(r.star_export_bindings@[i as int].1@.subrange(0, m as int)
                =~= r.star_export_bindings@[i as int].1@);
            assert(r.star_export_bindings@.subrange(0, i + 1) =~= r.star_export_bindings@.subrange(
                0,
                i as int,
            ).push(r.star_export_bindings@[i as int]));
            lemma_star_tail_push(
                r.star_export_bindings@.subrange(0, i as int),
                r.star_export_bindings@[i as int],
            );
            assert(spec_views(names@) =~~= spec_views(r.exported_bindings@) + spec_star_tail(
                r.star_export_bindings@.subrange(0, i + 1),
            ));
        }
        i = i + 1;
    }
    proof {
        assert(r.star_export_bindings@.subrange(0, n as int) =~= r.star_export_bindings@);
    }
    names
}

/// The star-export property of the first `j` requests carries over from a
/// table `tprev` to a table `tcur` that extends it: entry `m` keeps its key
/// and only gains names, every other entry stays, and entry `m` covers the
/// star names of the module `ridx` that request `j` resolved to.
proof fn lemma_star_prop_preserved(
    base: Runtime,
    loaded: Seq<(String, usize)>,
    reqs: Seq<String>,
    tprev: Seq<(usize, Vec<String>)>,
    tcur: Seq<(usize, Vec<String>)>,
    j: int,
    tid: usize,
    ridx: usize,
    m: int,
)
    requires
        0 <= j < reqs.len(),
        forall|j2: int|
            0 <= j2 < j ==> (match spec_lookup_loaded(loaded, (#[trigger] reqs[j2])@) {
                Some(t2) => t2 < base.module_map@.len() ==> (base.module_map@[t2 as int] matches Some(
                    ModuleState::Resolved(r2),
                ) ==> spec_table_has_all(tprev, t2, spec_star_names(base.records@[r2 as int]))),
                None => true,
            }),
        spec_lookup_loaded(loaded, reqs[j]@) == Some(tid),
        tid < base.module_map@.len(),
        base.module_map@[tid as int] == Some(ModuleState::Resolved(ridx)),
        0 <= m < tcur.len(),
        tcur[m].0 == tid,
        forall|x: Seq<char>|
            spec_star_names(base.records@[ridx as int]).contains(x) ==> spec_views(
                tcur[m].1@,
            ).contains(x),
        tcur.len() >= tprev.len(),
        forall|m2: int| 0 <= m2 < tprev.len() && m2 != m ==> tcur[m2] == tprev[m2],
        m < tprev.len() ==> tcur[m].0 == tprev[m].0,
        m < tprev.len() ==> forall|x: Seq<char>|
            spec_views(tprev[m].1@).contains(x) ==> spec_views(tcur[m].1@).contains(x),
    ensures
        forall|j2: int|
            0 <= j2 < j + 1 ==> (match spec_lookup_loaded(loaded, (#[trigger] reqs[j2])@) {
                Some(t2) => t2 < base.module_map@.len() ==> (base.module_map@[t2 as int] matches Some(
                    ModuleState::Resolved(r2),
                ) ==> spec_table_has_all(tcur, t2, spec_star_names(base.records@[r2 as int]))),
                None => true,
            }),
{
    assert forall|j2: int| 0 <= j2 < j + 1 implies (match spec_lookup_loaded(
        loaded,
        (#[trigger] reqs[j2])@,
    ) {
        Some(t2) => t2 < base.module_map@.len() ==> (base.module_map@[t2 as int] matches Some(
            ModuleState::Resolved(r2),
        ) ==> spec_table_has_all(tcur, t2, spec_star_names(base.records@[r2 as int]))),
        None => true,
    }) by {
        if j2 == j {
            assert(spec_table_has_all(tcur, tid, spec_star_names(base.records@[ridx as int])));
        } else {
            match spec_lookup_loaded(loaded, reqs[j2]@) {
                Some(t2) => {
                    if t2 < base.module_map@.len() {
                        match base.module_map@[t2 as int] {
                            Some(ModuleState::Resolved(r2)) => {
                                let ns = spec_star_names(base.records@[r2 as int]);
                                assert(spec_table_has_all(tprev, t2, ns));
                                let m2 = choose|m2: int|
                                    0 <= m2 < tprev.len() && tprev[m2].0 == t2 && (forall|
                                        x: Seq<char>,
                                    |
                                        ns.contains(x) ==> spec_views(tprev[m2].1@).contains(x));
                                if m2 == m {
                                    assert(tcur[m].0 == t2);
                                    assert(forall|x: Seq<char>|
                                        ns.contains(x) ==> spec_views(tcur[m].1@).contains(x));
                                    assert(spec_table_has_all(tcur, t2, ns));
                                } else {
                                    assert(tcur[m2] == tprev[m2]);
                                    assert(spec_table_has_all(tcur, t2, ns));
                                }
                            },
                            _ => {},
                        }
                    }
                },
                None => {},
            }
        }
    }
}

/// Coverage of path `q` carries from state `a` to state `b` when the
/// module map is monotone at `q` and `a`'s tasks stand unmoved at the front
/// of `b`'s; a path `a` covered through its waiting state must be covered
/// in `b` by the caller's own argument.
proof fn lemma_covered_frame(a: Runtime, b: Runtime, q: int)
    requires
        0 <= q < a.path_names@.len(),
        a.covered(q),
        q < b.module_map@.len(),
        a.module_map@[q] is Some ==> b.module_map@[q] == a.module_map@[q],
        a.tasks@.len() <= b.tasks@.len(),
        forall|k: int| 0 <= k < a.tasks@.len() ==> b.tasks@[k] == a.tasks@[k],
        ((a.pending == Pending::AwaitingRead || a.pending == Pending::AwaitingFragments)
            && a.cur_path == q) ==> b.covered(q),
        (a.pending == Pending::AwaitingResolve && (exists|k: int|
            0 <= k < a.cur_resolved@.len() && (#[trigger] a.cur_resolved@[k]).1 == q))
            ==> b.covered(q),
    ensures
        b.covered(q),
{
    if a.module_map@[q] is Some {
    } else if exists|k: int|
        0 <= k < a.tasks@.len() && a.tasks@[k] == (Task::Visit { path_id: q as usize }) {
        let k = choose|k: int|
            0 <= k < a.tasks@.len() && a.tasks@[k] == (Task::Visit { path_id: q as usize });
        assert(b.tasks@[k] == a.tasks@[k]);
    }
}

/// Coverage of path `q` survives popping a task that is not a visit of `q`,
/// while the machine stays idle and the module map stands.
proof fn lemma_covered_after_pop(a: Runtime, b: Runtime, t: Task, q: int)
    requires
        0 <= q < a.path_names@.len(),
        a.covered(q),
        a.pending == Pending::Idle,
        b.pending == Pending::Idle,
        b.module_map@ == a.module_map@,
        a.tasks@.len() > 0,
        t == a.tasks@.last(),
        b.tasks@ == a.tasks@.drop_last(),
        t != (Task::Visit { path_id: q as usize }),
    ensures
        b.covered(q),
{
    if a.module_map@[q] is Some {
    } else {
        let k = choose|k: int|
            0 <= k < a.tasks@.len() && a.tasks@[k] == (Task::Visit { path_id: q as usize });
        assert(k < a.tasks@.len() - 1);
        assert(b.tasks@[k] == a.tasks@[k]);
    }
}

impl Runtime {
    /// Attaches the resolved dependencies of path `id` to record `rec`,
    /// folds the record's `export *` entries, and emits one edge entry
    /// (source path, one string per dependency) when the record loaded
    /// anything.  A resolved specifier enters the record's loaded-modules
    /// map exactly when its target's state is `Resolved`; a star-export
    /// request found there has the remote module's exported and
    /// star-re-exported names folded into the record's star-export table.
    pub fn attach_and_finish(&mut self, id: usize, rec: usize, resolved: &Vec<(String, usize)>)
        requires
            old(self).sizes_ok(),
            old(self).paths_distinct(),
            old(self).map_refs_ok(),
            id < old(self).path_names@.len(),
            rec < old(self).records@.len(),
            forall|k: int|
                0 <= k < resolved@.len() ==> (#[trigger] resolved@[k]).1 < old(self).path_names@.len(),
            forall|m: int|
                0 <= m < old(self).records@[rec as int].loaded_modules@.len() ==> (
                #[trigger] old(self).records@[rec as int].loaded_modules@[m]).1 < old(self).path_names@.len(),
        ensures
            final(self).sizes_ok(),
            final(self).paths_distinct(),
            final(self).map_refs_ok(),
            (*final(self) == Runtime {
                records: final(self).records,
                outputs: final(self).outputs,
                ..*old(self)
            }),
            final(self).records@.len() == old(self).records@.len(),
            forall|i: int|
                0 <= i < old(self).records@.len() && i != rec ==> final(self).records@[i] == old(self).records@[i],
            final(self).records@[rec as int].requested_modules@ == old(self).records@[rec as int].requested_modules@,
            final(self).records@[rec as int].exported_bindings@ == old(self).records@[rec as int].exported_bindings@,
            final(self).records@[rec as int].star_export_requests@ == old(self).records@[rec as int].star_export_requests@,
            forall|m: int|
                0 <= m < final(self).records@[rec as int].loaded_modules@.len() ==> (
                #[trigger] final(self).records@[rec as int].loaded_modules@[m]).1 < old(self).path_names@.len(),
            // every resolved specifier whose target is `Resolved` is attached
            forall|k: int|
                (0 <= k < resolved@.len() && (old(self).module_map@[(
                #[trigger] resolved@[k]).1 as int] matches Some(ModuleState::Resolved(_))))
                    ==> exists|m: int|
                    0 <= m < final(self).records@[rec as int].loaded_modules@.len() && (
                    #[trigger] final(self).records@[rec as int].loaded_modules@[m]).0@
                        == resolved@[k].0@ && final(self).records@[rec as int].loaded_modules@[m].1
                        == resolved@[k].1,
            // the final loaded-modules map is exactly the old entries plus,
            // in order, the resolved pairs whose target state is `Resolved`
            final(self).records@[rec as int].loaded_modules@ == old(self).records@[rec as int].loaded_modules@ + spec_attached(
                old(self).module_map@,
                resolved@,
            ),
            // star exports: a request found in the loaded-modules map has the
            // remote module's star names folded into the table under its path id
            forall|j: int|
                0 <= j < old(self).records@[rec as int].star_export_requests@.len() ==> (
                match spec_lookup_loaded(
                    final(self).records@[rec as int].loaded_modules@,
                    (#[trigger] old(self).records@[rec as int].star_export_requests@[j])@,
                ) {
                    Some(tid) => tid < old(self).module_map@.len() ==> (old(self).module_map@[tid as int] matches Some(ModuleState::Resolved(ridx))
                        ==> spec_table_has_all(
                        final(self).records@[rec as int].star_export_bindings@,
                        tid,
                        spec_star_names(old(self).records@[ridx as int]),
                    )),
                    None => true,
                }),
            // one edge entry when anything loaded, nothing otherwise
            final(self).records@[rec as int].loaded_modules@.len() > 0 ==> {
                &&& final(self).outputs@.len() == old(self).outputs@.len() + 1
                &&& forall|i: int|
                    0 <= i < old(self).outputs@.len() ==> final(self).outputs@[i] == old(self).outputs@[i]
                &&& final(self).outputs@.last().0@ == spec_strip_prefix(
                    old(self).path_names@[id as int]@,
                    old(self).cwd@,
                )
                &&& spec_views(final(self).outputs@.last().1@) == final(self).records@[rec as int]
                    .loaded_modules@.map_values(
                    (|e: (String, usize)| old(self).path_names@[e.1 as int]@),
                )
            },
            final(self).records@[rec as int].loaded_modules@.len() == 0 ==> final(self).outputs
                == old(self).outputs,
    {
        let ghost base = *self;
        // step 8 (tail end): attach each resolved dependency whose state is
        // `Resolved` to this record's loaded-modules map
        let mut loaded = clone_pairs(&self.records[rec].loaded_modules);
        let mut k: usize = 0;
        while k < resolved.len()
            invariant
                *self == base,
                base.sizes_ok(),
                base.map_refs_ok(),
                rec < base.records@.len(),
                k <= resolved@.len(),
                forall|k2: int|
                    0 <= k2 < resolved@.len() ==> (#[trigger] resolved@[k2]).1
                        < base.path_names@.len(),
                loaded@ == base.records@[rec as int].loaded_modules@ + spec_attached(
                    base.module_map@,
                    resolved@.subrange(0, k as int),
                ),
                forall|m: int|
                    0 <= m < loaded@.len() ==> (#[trigger] loaded@[m]).1 < base.path_names@.len(),
                forall|k2: int|
                    (0 <= k2 < k && (base.module_map@[(#[trigger] resolved@[k2]).1 as int] matches Some(
                        ModuleState::Resolved(_),
                    ))) ==> exists|m: int|
                        0 <= m < loaded@.len() && (#[trigger] loaded@[m]).0@ == resolved@[k2].0@
                            && loaded@[m].1 == resolved@[k2].1,
            decreases resolved@.len() - k,
        {
            let tid = resolved[k].1;
            let is_res = match self.module_map[tid] {
                Some(ModuleState::Resolved(_)) => true,
                _ => false,
            };
            let ghost pre = loaded@;
            if is_res {
                loaded.push((resolved[k].0.clone(), tid));
            }
            proof {
                lemma_attached_push(
                    base.module_map@,
                    resolved@.subrange(0, k as int),
                    resolved@[k as int],
                );
                assert(resolved@.subrange(0, k + 1) =~= resolved@.subrange(0, k as int).push(
                    resolved@[k as int],
                ));
                if is_res {
                    assert(loaded@[pre.len() as int].0 == resolved@[k as int].0);
                    assert(loaded@ =~= base.records@[rec as int].loaded_modules@ + spec_attached(
                        base.module_map@,
                        resolved@.subrange(0, k + 1),
                    ));
                } else {
                    assert(loaded@ =~= base.records@[rec as int].loaded_modules@ + spec_attached(
                        base.module_map@,
                        resolved@.subrange(0, k + 1),
                    ));
                }
                assert forall|k2: int|
                    (0 <= k2 < k + 1 && (base.module_map@[(
                    #[trigger] resolved@[k2]).1 as int] matches Some(
                        ModuleState::Resolved(_),
                    ))) implies exists|m: int|
                    0 <= m < loaded@.len() && (#[trigger] loaded@[m]).0@ == resolved@[k2].0@
                        && loaded@[m].1 == resolved@[k2].1 by {
                    if k2 == k {
                        assert(is_res);
                        assert(loaded@[pre.len() as int].0@ == resolved@[k as int].0@);
                        assert(loaded@[pre.len() as int].1 == resolved@[k as int].1);
                    } else {
                        let m0 = choose|m: int|
                            0 <= m < pre.len() && (#[trigger] pre[m]).0@ == resolved@[k2].0@
                                && pre[m].1 == resolved@[k2].1;
                        assert(loaded@[m0] == pre[m0]);
                    }
                }
            }
            k = k + 1;
        }
        proof {
            assert(resolved@.subrange(0, resolved@.len() as int) =~= resolved@);
        }
        // step 10: resolve `export * from X` entries through the
        // loaded-modules map and fold the remote names in
        let reqs = clone_strings(&self.records[rec].star_export_requests);
        let mut table = clone_table(&self.records[rec].star_export_bindings);
        let mut j: usize = 0;
        while j < reqs.len()
            invariant
                *self == base,
                base.sizes_ok(),
                base.map_refs_ok(),
                rec < base.records@.len(),
                j <= reqs@.len(),
                reqs@ == base.records@[rec as int].star_export_requests@,
                forall|j2: int|
                    0 <= j2 < j ==> (match spec_lookup_loaded(loaded@, (#[trigger] reqs@[j2])@) {
                        Some(tid) => tid < base.module_map@.len() ==> (
                        base.module_map@[tid as int] matches Some(ModuleState::Resolved(ridx))
                            ==> spec_table_has_all(
                            table@,
                            tid,
                            spec_star_names(base.records@[ridx as int]),
                        )),
                        None => true,
                    }),
            decreases reqs@.len() - j,
        {
            let found = lookup_loaded(&loaded, &reqs[j]);
            match found {
                None => {},
                Some(tid) => {
                    if tid < self.module_map.len() {
                        match self.module_map[tid] {
                            Some(ModuleState::Resolved(ridx)) => {
                                let names = star_names_of(&self.records[ridx]);
                                let ghost tprev = table@;
                                match find_table_index(&table, tid) {
                                    Some(m) => {
                                        let mut cur = clone_strings(&table[m].1);
                                        let ghost cur0 = cur@;
                                        let mut q: usize = 0;
                                        while q < names.len()
                                            invariant
                                                q <= names@.len(),
                                                cur@ =~= cur0 + names@.subrange(0, q as int),
                                            decreases names@.len() - q,
                                        {
                                            cur.push(names[q].clone());
                                            proof {
                                                assert(names@.subrange(0, q + 1) =~= names@.subrange(
                                                    0,
                                                    q as int,
                                                ).push(names@[q as int]));
                                            }
                                            q = q + 1;
                                        }
                                        proof {
                                            assert(names@.subrange(0, names@.len() as int)
                                                =~= names@);
                                            assert(cur@ =~= cur0 + names@);
                                        }
                                        table.set(m, (tid, cur));
                                        proof {
                                            assert forall|x: Seq<char>|
                                                spec_views(names@).contains(x) implies spec_views(
                                                table@[m as int].1@,
                                            ).contains(x) by {
                                                let ix = choose|ix: int|
                                                    0 <= ix < names@.len() && names@[ix]@ == x;
                                                assert(spec_views(table@[m as int].1@)[cur0.len()
                                                    + ix] == x);
                                            }
                                            assert forall|x: Seq<char>|
                                                spec_views(cur0).contains(x) implies spec_views(
                                                table@[m as int].1@,
                                            ).contains(x) by {
                                                let ix = choose|ix: int|
                                                    0 <= ix < cur0.len() && cur0[ix]@ == x;
                                                assert(spec_views(table@[m as int].1@)[ix] == x);
                                            }
                                            lemma_star_prop_preserved(
                                                base,
                                                loaded@,
                                                reqs@,
                                                tprev,
                                                table@,
                                                j as int,
                                                tid,
                                                ridx,
                                                m as int,
                                            );
                                        }
                                    },
                                    None => {
                                        table.push((tid, names));
                                        proof {
                                            assert(table@[tprev.len() as int].0 == tid);
                                            assert(spec_views(table@[tprev.len() as int].1@)
                                                == spec_star_names(base.records@[ridx as int]));
                                            lemma_star_prop_preserved(
                                                base,
                                                loaded@,
                                                reqs@,
                                                tprev,
                                                table@,
                                                j as int,
                                                tid,
                                                ridx,
                                                tprev.len() as int,
                                            );
                                        }
                                    },
                                }
                            },
                            _ => {},
                        }
                    }
                },
            }
            j = j + 1;
        }
        // step 11: collect one lightweight edge per loaded dependency
        let mut msgs: Vec<String> = Vec::new();
        let mut e: usize = 0;
        while e < loaded.len()
            invariant
                *self == base,
                e <= loaded@.len(),
                forall|m: int|
                    0 <= m < loaded@.len() ==> (#[trigger] loaded@[m]).1 < base.path_names@.len(),
                msgs@.len() == e,
                forall|m: int|
                    0 <= m < e ==> (#[trigger] msgs@[m])@ == base.path_names@[loaded@[m].1 as int]@,
            decreases loaded@.len() - e,
        {
            msgs.push(self.path_names[loaded[e].1].clone());
            e = e + 1;
        }
        let ghost loaded_snap = loaded@;
        let ghost table_snap = table@;
        let newrec = ModuleRecord {
            requested_modules: clone_strings(&self.records[rec].requested_modules),
            exported_bindings: clone_strings(&self.records[rec].exported_bindings),
            star_export_requests: reqs,
            loaded_modules: loaded,
            star_export_bindings: table,
        };
        self.records.set(rec, newrec);
        if msgs.len() > 0 {
            let src = strip_dir_prefix(self.path_names[id].as_str(), self.cwd.as_str());
            let ghost outs = self.outputs@;
            self.outputs.push((src, msgs));
            proof {
                assert(self.outputs@.last().0@ == spec_strip_prefix(
                    base.path_names@[id as int]@,
                    base.cwd@,
                ));
                assert(spec_views(self.outputs@.last().1@) =~~= loaded_snap.map_values(
                    |en: (String, usize)| base.path_names@[en.1 as int]@,
                ));
            }
        }
    }

    /// Every record's loaded-modules entries point at interned paths.
    pub open spec fn records_ok(self) -> bool {
        forall|r: int, m: int|
            0 <= r < self.records@.len() && 0 <= m
                < self.records@[r].loaded_modules@.len() ==> (
            #[trigger] self.records@[r].loaded_modules@[m]).1 < self.path_names@.len()
    }

    /// Law: at most one module state exists per canonical path.  Two ids
    /// carrying the same path name are the same id, so they share one
    /// module-map slot; and a written slot is never overwritten, by the
    /// contract of `insert_module_state` and of `step`.
    pub proof fn lemma_one_state_per_path(self, i: int, j: int)
        requires
            self.paths_distinct(),
            0 <= i < self.path_names@.len(),
            0 <= j < self.path_names@.len(),
            self.path_names@[i]@ == self.path_names@[j]@,
        ensures
            i == j,
    {
    }

    /// Parses one source fragment of path `id`, emits its syntax errors as a
    /// diagnostic entry, and builds its module record.  For the first
    /// fragment the record's `Resolved` state is inserted into the module
    /// map and the claim on the path released — before any dependency is
    /// resolved, so a dependent can consume the record at once.  With
    /// cross-module resolution on and at least one specifier requested, the
    /// machine then awaits resolution of the distinct specifiers; a module
    /// with no import statements finishes at once with an empty
    /// loaded-modules map and no edge entry.
    pub fn begin_fragment(&mut self, id: usize, text: &String, ext: &String, first: bool)
        requires
            old(self).sizes_ok(),
            old(self).paths_distinct(),
            old(self).map_refs_ok(),
            old(self).records_ok(),
            id < old(self).path_names@.len(),
            first ==> old(self).module_map@[id as int] is None,
        ensures
            final(self).sizes_ok(),
            final(self).paths_distinct(),
            final(self).map_refs_ok(),
            final(self).records_ok(),
            (*final(self) == Runtime {
                module_map: final(self).module_map,
                cache_state: final(self).cache_state,
                records: final(self).records,
                outputs: final(self).outputs,
                pending: final(self).pending,
                cur_path: final(self).cur_path,
                cur_rec: final(self).cur_rec,
                cur_dir: final(self).cur_dir,
                cur_specs: final(self).cur_specs,
                cur_next: final(self).cur_next,
                cur_resolved: final(self).cur_resolved,
                ..*old(self)
            }),
            final(self).records@.len() == old(self).records@.len() + 1,
            forall|i: int|
                0 <= i < old(self).records@.len() ==> final(self).records@[i] == old(self).records@[i],
            // the new record, built from the parse results alone
            spec_views(final(self).records@.last().exported_bindings@) == exported_bindings_of(
                text@,
                ext@,
            ),
            spec_views(final(self).records@.last().star_export_requests@)
                == star_export_requests_of(text@, ext@),
            forall|i: int, j: int|
                0 <= i < j < final(self).records@.last().requested_modules@.len() ==> final(self).records@.last().requested_modules@[i]@ != final(self).records@.last().requested_modules@[j]@,
            forall|i: int|
                0 <= i < requested_modules_of(text@, ext@).len() ==> seq_contains_str(
                    final(self).records@.last().requested_modules@,
                    requested_modules_of(text@, ext@)[i],
                ),
            forall|i: int|
                0 <= i < final(self).records@.last().requested_modules@.len()
                    ==> requested_modules_of(text@, ext@).contains(
                    final(self).records@.last().requested_modules@[i]@,
                ),
            final(self).records@.last().loaded_modules@.len() == 0,
            // syntax errors surface as one diagnostic entry, full path
            parse_errors_of(text@, ext@).len() > 0 ==> {
                &&& final(self).outputs@.len() == old(self).outputs@.len() + 1
                &&& forall|i: int|
                    0 <= i < old(self).outputs@.len() ==> final(self).outputs@[i] == old(self).outputs@[i]
                &&& final(self).outputs@.last().0@ == old(self).path_names@[id as int]@
                &&& spec_views(final(self).outputs@.last().1@) == parse_errors_of(text@, ext@)
            },
            parse_errors_of(text@, ext@).len() == 0 ==> final(self).outputs == old(self).outputs,
            // first fragment: `Resolved` state inserted, claim released
            first ==> final(self).module_map@ == old(self).module_map@.update(
                id as int,
                Some(ModuleState::Resolved(old(self).records@.len() as usize)),
            ),
            !first ==> final(self).module_map@ == old(self).module_map@,
            first ==> final(self).cache_state@ == old(self).cache_state@.update(
                id as int,
                (match old(self).cache_state@[id as int] {
                    CacheStateEntry::ReadyToConstruct => CacheStateEntry::ReadyToConstruct,
                    CacheStateEntry::PendingStore(n) => if n <= 1 {
                        CacheStateEntry::ReadyToConstruct
                    } else {
                        CacheStateEntry::PendingStore((n - 1) as usize)
                    },
                }),
            ),
            !first ==> final(self).cache_state@ == old(self).cache_state@,
            // what the machine does next
            (old(self).cross_module && requested_modules_of(text@, ext@).len() > 0) ==> {
                &&& final(self).pending == Pending::AwaitingResolve
                &&& final(self).cur_path == id
                &&& final(self).cur_rec == old(self).records@.len()
                &&& final(self).cur_dir@ == spec_parent(old(self).path_names@[id as int]@)
                &&& final(self).cur_next == 0
                &&& final(self).cur_resolved@.len() == 0
                &&& final(self).cur_specs@.len() > 0
                &&& final(self).cur_specs@ == final(self).records@.last().requested_modules@
            },
            !(old(self).cross_module && requested_modules_of(text@, ext@).len() > 0) ==> final(self).pending == Pending::Idle,
    {
        let out = parse_source(text, ext);
        if out.errors.len() > 0 {
            let p = self.path_names[id].clone();
            self.outputs.push((p, out.errors));
        }
        let specs = dedup_strings(&out.requested);
        let specs_copy = clone_strings(&specs);
        proof {
            assert(spec_views(out.requested@) == requested_modules_of(text@, ext@));
            assert(out.requested@.len() == requested_modules_of(text@, ext@).len());
            assert forall|i: int| 0 <= i < specs@.len() implies requested_modules_of(
                text@,
                ext@,
            ).contains(specs@[i]@) by {
                assert(seq_contains_str(out.requested@, specs@[i]@));
                let j = choose|j: int|
                    0 <= j < out.requested@.len() && out.requested@[j]@ == specs@[i]@;
                assert(requested_modules_of(text@, ext@)[j] == spec_views(out.requested@)[j]);
            };
            assert forall|i: int|
                0 <= i < requested_modules_of(text@, ext@).len() implies seq_contains_str(
                specs@,
                requested_modules_of(text@, ext@)[i],
            ) by {
                assert(out.requested@[i]@ == spec_views(out.requested@)[i]);
                assert(seq_contains_str(specs@, out.requested@[i]@));
            };
            if requested_modules_of(text@, ext@).len() > 0 {
                assert(seq_contains_str(specs@, out.requested@[0]@));
                assert(specs@.len() > 0);
            } else {
                if specs@.len() > 0 {
                    assert(requested_modules_of(text@, ext@).contains(specs@[0]@));
                }
                assert(specs@.len() == 0);
            }
        }
        let newrec = ModuleRecord {
            requested_modules: specs_copy,
            exported_bindings: out.exported,
            star_export_requests: out.star_requests,
            loaded_modules: Vec::new(),
            star_export_bindings: Vec::new(),
        };
        let rec = self.records.len();
        self.records.push(newrec);
        if first {
            self.insert_module_state(id, ModuleState::Resolved(rec));
            self.update_cache_state(id);
        }
        if self.cross_module && specs.len() > 0 {
            self.cur_path = id;
            self.cur_rec = rec;
            self.cur_dir = parent_of(self.path_names[id].as_str());
            self.cur_specs = specs;
            self.cur_next = 0;
            self.cur_resolved = Vec::new();
            self.pending = Pending::AwaitingResolve;
        } else if self.cross_module {
            let empty: Vec<(String, usize)> = Vec::new();
            self.attach_and_finish(id, rec, &empty);
            self.pending = Pending::Idle;
        } else {
            self.pending = Pending::Idle;
        }
    }

    /// Is the file named `name` of a supported source kind: does its
    /// extension name a recognized script kind or a container a fragment
    /// loader handles?
    pub open spec fn spec_supported_ext(name: Seq<char>) -> bool {
        match spec_extension(name) {
            Some(e) => spec_is_script_ext(e) || spec_is_container_ext(e),
            None => false,
        }
    }

    /// Processes one visit of `path_id` — the opening of the
    /// resolver/builder.  A path whose state is already written is a cache
    /// hit: nothing changes and nothing is emitted.  Otherwise the intent
    /// to build is claimed, and the path is classified by extension: one
    /// without an extension, or whose extension is neither a recognized
    /// script kind nor a container kind, is marked `Ignored` silently — no
    /// diagnostic, no edge, the claim released; a supported one leaves the
    /// claim held and asks the caller to read the file.
    pub fn visit_path(&mut self, path_id: usize) -> (a: Option<Action>)
        requires
            old(self).sizes_ok(),
            old(self).paths_distinct(),
            old(self).map_refs_ok(),
            old(self).all_ready(),
            path_id < old(self).path_names@.len(),
        ensures
            final(self).sizes_ok(),
            final(self).paths_distinct(),
            final(self).map_refs_ok(),
            (*final(self) == Runtime {
                module_map: final(self).module_map,
                cache_state: final(self).cache_state,
                pending: final(self).pending,
                cur_path: final(self).cur_path,
                cur_ext: final(self).cur_ext,
                ..*old(self)
            }),
            // a written state is a cache hit: nothing happens
            old(self).module_map@[path_id as int] is Some ==> *final(self) == *old(self) && a
                is None,
            // unsupported source kind: `Ignored`, silently, claim released
            (old(self).module_map@[path_id as int] is None && !Self::spec_supported_ext(
                old(self).path_names@[path_id as int]@,
            )) ==> {
                &&& final(self).module_map@ == old(self).module_map@.update(
                    path_id as int,
                    Some(ModuleState::Ignored),
                )
                &&& final(self).cache_state@ == old(self).cache_state@
                &&& final(self).pending == old(self).pending
                &&& a is None
            },
            // supported source kind: claim held, file read requested
            (old(self).module_map@[path_id as int] is None && Self::spec_supported_ext(
                old(self).path_names@[path_id as int]@,
            )) ==> {
                &&& final(self).module_map@ == old(self).module_map@
                &&& final(self).pending == Pending::AwaitingRead
                &&& final(self).cur_path == path_id
                &&& Some(final(self).cur_ext@) == spec_extension(
                    old(self).path_names@[path_id as int]@,
                )
                &&& (old(self).cross_module ==> final(self).one_claim(path_id as int))
                &&& (!old(self).cross_module ==> final(self).all_ready())
                &&& (a matches Some(act) && (act matches Action::Read { path } && path@ == old(self).path_names@[path_id as int]@))
            },
    {
        if self.module_map[path_id].is_some() {
            return None;
        }
        if self.cross_module {
            let hit = self.init_cache_state(path_id);
            proof {
                assert(!hit);
            }
        }
        let pname = self.path_names[path_id].clone();
        match extension_of(pname.as_str()) {
            None => {
                self.ignore_path(path_id);
                proof {
                    assert(final(self).cache_state@ =~= old(self).cache_state@);
                }
                None
            },
            Some(e) => {
                if is_script_ext(e.as_str()) || is_container_ext(e.as_str()) {
                    self.cur_path = path_id;
                    self.cur_ext = e;
                    self.pending = Pending::AwaitingRead;
                    Some(Action::Read { path: pname })
                } else {
                    self.ignore_path(path_id);
                    proof {
                        assert(final(self).cache_state@ =~= old(self).cache_state@);
                    }
                    None
                }
            },
        }
    }

    /// A fresh runtime for one run: the working directory, the distinct
    /// entry paths, and whether cross-module resolution is enabled.
    pub fn new(cwd: String, entry_paths: &Vec<String>, cross_module: bool) -> (r: Runtime)
        ensures
            r.inv(),
            r.records_ok(),
            r.cwd == cwd,
            r.cross_module == cross_module,
            r.pending == Pending::Idle,
            r.path_names@.len() == 0,
            r.records@.len() == 0,
            r.tasks@.len() == 0,
            r.outputs@.len() == 0,
            forall|i: int, j: int| 0 <= i < j < r.paths@.len() ==> r.paths@[i]@ != r.paths@[j]@,
            forall|i: int|
                0 <= i < entry_paths@.len() ==> seq_contains_str(
                    r.paths@,
                    (#[trigger] entry_paths@[i])@,
                ),
            forall|i: int|
                0 <= i < r.paths@.len() ==> seq_contains_str(
                    entry_paths@,
                    (#[trigger] r.paths@[i])@,
                ),
    {
        Runtime {
            cwd,
            paths: dedup_strings(entry_paths),
            cross_module,
            path_names: Vec::new(),
            module_map: Vec::new(),
            cache_state: Vec::new(),
            records: Vec::new(),
            tasks: Vec::new(),
            pending: Pending::Idle,
            cur_path: 0,
            cur_ext: String::new(),
            cur_rec: 0,
            cur_dir: String::new(),
            cur_specs: Vec::new(),
            cur_next: 0,
            cur_resolved: Vec::new(),
            outputs: Vec::new(),
        }
    }

    /// Consumes one event and answers with the next action.  The module
    /// map only grows and no written state is ever overwritten; interned
    /// paths and emitted stream entries are append-only.  The per-event
    /// clauses pin each outcome: what `Start` seeds, what a read's success
    /// or failure leaves behind, and what each resolution answer records.
    /// When `Done` comes back, every interned path holds exactly one
    /// terminal state.
    #[verifier::rlimit(100)]
    pub fn step(&mut self, event: Event) -> (a: Action)
        requires
            old(self).inv(),
            old(self).records_ok(),
            match old(self).pending {
                Pending::Idle => event is Start,
                Pending::AwaitingRead => event is FileRead,
                Pending::AwaitingFragments => event is FragmentsLoaded,
                Pending::AwaitingResolve => event is SpecifierResolved,
            },
        ensures
            final(self).inv(),
            final(self).records_ok(),
            final(self).cwd == old(self).cwd,
            final(self).paths == old(self).paths,
            final(self).cross_module == old(self).cross_module,
            old(self).module_map@.len() <= final(self).module_map@.len(),
            forall|i: int|
                0 <= i < old(self).module_map@.len() && old(self).module_map@[i] is Some ==> final(self).module_map@[i] == old(self).module_map@[i],
            old(self).path_names@.len() <= final(self).path_names@.len(),
            forall|i: int|
                0 <= i < old(self).path_names@.len() ==> final(self).path_names@[i] == old(self).path_names@[i],
            old(self).outputs@.len() <= final(self).outputs@.len(),
            forall|i: int|
                0 <= i < old(self).outputs@.len() ==> final(self).outputs@[i] == old(self).outputs@[i],
            a is Read ==> final(self).pending == Pending::AwaitingRead,
            a is LoadFragments ==> final(self).pending == Pending::AwaitingFragments,
            a is Resolve ==> final(self).pending == Pending::AwaitingResolve,
            a is Done ==> final(self).pending == Pending::Idle && final(self).tasks@.len() == 0,
            // the run completes only once every interned path holds a state
            a is Done ==> forall|i: int|
                0 <= i < final(self).path_names@.len() ==> final(self).module_map@[i] is Some,
            // `Start` interns every entry path
            event is Start ==> forall|i: int|
                0 <= i < final(self).paths@.len() ==> seq_contains_str(
                    final(self).path_names@,
                    (#[trigger] final(self).paths@[i])@,
                ),
            // a container file's content goes out to the fragment loader
            (old(self).pending == Pending::AwaitingRead && spec_is_container_ext(
                old(self).cur_ext@,
            )) ==> (event matches Event::FileRead { result: Result::Ok(text) } ==> {
                &&& (a matches Action::LoadFragments { path, ext, text: t } && path@ == old(self).path_names@[old(self).cur_path as int]@ && ext == old(self).cur_ext && t == text)
                &&& (*final(self) == Runtime { pending: Pending::AwaitingFragments, ..*old(self) })
            }),
            // a script file's content is parsed: a record built from the
            // parse results alone, its `Resolved` state written before any
            // dependency is resolved, its syntax errors emitted as one
            // diagnostic entry naming the path
            (old(self).pending == Pending::AwaitingRead && !spec_is_container_ext(
                old(self).cur_ext@,
            )) ==> (event matches Event::FileRead { result: Result::Ok(text) } ==> {
                &&& final(self).records@.len() > old(self).records@.len()
                &&& spec_views(
                    final(self).records@[old(self).records@.len() as int].exported_bindings@,
                ) == exported_bindings_of(text@, old(self).cur_ext@)
                &&& spec_views(
                    final(self).records@[old(self).records@.len() as int].star_export_requests@,
                ) == star_export_requests_of(text@, old(self).cur_ext@)
                &&& (forall|i: int|
                    0 <= i < requested_modules_of(text@, old(self).cur_ext@).len()
                        ==> seq_contains_str(
                        final(self).records@[old(self).records@.len() as int].requested_modules@,
                        requested_modules_of(text@, old(self).cur_ext@)[i],
                    ))
                &&& (forall|i: int|
                    0 <= i < final(self).records@[old(self).records@.len() as int].requested_modules@.len()
                        ==> requested_modules_of(text@, old(self).cur_ext@).contains(
                        final(self).records@[old(self).records@.len() as int].requested_modules@[i]@,
                    ))
                &&& final(self).module_map@[old(self).cur_path as int] == Some(
                    ModuleState::Resolved(old(self).records@.len() as usize),
                )
                &&& (parse_errors_of(text@, old(self).cur_ext@).len() > 0 ==> {
                    &&& final(self).outputs@.len() > old(self).outputs@.len()
                    &&& final(self).outputs@[old(self).outputs@.len() as int].0@ == old(self).path_names@[old(self).cur_path as int]@
                    &&& spec_views(final(self).outputs@[old(self).outputs@.len() as int].1@)
                        == parse_errors_of(text@, old(self).cur_ext@)
                })
            }),
            // a failed read degrades the path to `Ignored` with exactly one
            // diagnostic naming the path and the error
            old(self).pending == Pending::AwaitingRead ==> (event matches Event::FileRead {
                result: Result::Err(msg),
            } ==> {
                &&& final(self).module_map@[old(self).cur_path as int] == Some(
                    ModuleState::Ignored,
                )
                &&& final(self).outputs@.len() > old(self).outputs@.len()
                &&& final(self).outputs@[old(self).outputs@.len() as int].0@ == old(self).path_names@[old(self).cur_path as int]@
                &&& spec_views(final(self).outputs@[old(self).outputs@.len() as int].1@) == seq![
                    msg@,
                ]
            }),
            // an empty fragment list degrades the path to `Ignored`
            old(self).pending == Pending::AwaitingFragments ==> (event matches Event::FragmentsLoaded {
                fragments,
            } ==> (fragments@.len() == 0 ==> final(self).module_map@[old(self).cur_path as int]
                == Some(ModuleState::Ignored))),
            // a failed resolution is dropped silently: no path is interned
            event matches Event::SpecifierResolved { path: None } ==> final(self).path_names
                == old(self).path_names,
            // within a resolution round, each answer is recorded: the
            // resolved pair appended, a failed one dropped
            (old(self).pending == Pending::AwaitingResolve && old(self).cur_next + 1 < old(self).cur_specs@.len()) ==> (event matches Event::SpecifierResolved { path: p2 } ==> {
                &&& a is Resolve
                &&& final(self).cur_next == old(self).cur_next + 1
                &&& final(self).cur_specs == old(self).cur_specs
                &&& (p2 is None ==> final(self).cur_resolved == old(self).cur_resolved)
                &&& (p2 matches Some(p) ==> {
                    &&& final(self).cur_resolved@.len() == old(self).cur_resolved@.len() + 1
                    &&& (forall|k: int|
                        0 <= k < old(self).cur_resolved@.len() ==> final(self).cur_resolved@[k]
                            == old(self).cur_resolved@[k])
                    &&& final(self).cur_resolved@.last().0@ == old(self).cur_specs@[old(self).cur_next as int]@
                    &&& final(self).cur_resolved@.last().1 < final(self).path_names@.len()
                    &&& final(self).path_names@[final(self).cur_resolved@.last().1 as int]@ == p@
                })
            }),
    {
        match event {
            Event::Start => {
                let n = self.paths.len();
                let mut i: usize = n;
                while i > 0
                    invariant
                        i <= n,
                        n == self.paths@.len(),
                        self.inv(),
                        self.records_ok(),
                        self.pending == old(self).pending,
                        self.pending == Pending::Idle,
                        self.cwd == old(self).cwd,
                        self.paths == old(self).paths,
                        self.cross_module == old(self).cross_module,
                        self.records == old(self).records,
                        self.outputs == old(self).outputs,
                        old(self).module_map@.len() <= self.module_map@.len(),
                        forall|k: int|
                            0 <= k < old(self).module_map@.len() && old(self).module_map@[k] is Some
                                ==> self.module_map@[k] == old(self).module_map@[k],
                        old(self).path_names@.len() <= self.path_names@.len(),
                        forall|k: int|
                            0 <= k < old(self).path_names@.len() ==> self.path_names@[k] == old(self).path_names@[k],
                        forall|j: int|
                            i <= j < n ==> seq_contains_str(
                                self.path_names@,
                                (#[trigger] self.paths@[j])@,
                            ),
                    decreases i,
                {
                    i = i - 1;
                    let p = self.paths[i].clone();
                    let ghost pre = *self;
                    let id = self.intern_path(&p);
                    let ghost mid1 = *self;
                    self.tasks.push(Task::Visit { path_id: id });
                    proof {
                        assert(self.tasks@ == mid1.tasks@.push(Task::Visit { path_id: id }));
                        assert(self.tasks@[self.tasks@.len() - 1] == (Task::Visit {
                            path_id: id,
                        }));
                        assert forall|q: int| 0 <= q < self.path_names@.len() implies self.covered(
                            q,
                        ) by {
                            if q == id as int {
                                assert(self.tasks@[self.tasks@.len() - 1] == (Task::Visit {
                                    path_id: q as usize,
                                }));
                            } else {
                                assert(q < pre.path_names@.len());
                                assert(pre.covered(q));
                                lemma_covered_frame(pre, *self, q);
                            }
                        }
                        assert forall|j: int| i <= j < n implies seq_contains_str(
                            self.path_names@,
                            (#[trigger] self.paths@[j])@,
                        ) by {
                            if j == i {
                                assert(self.path_names@[id as int]@ == self.paths@[j]@);
                            } else {
                                let w = choose|w: int|
                                    0 <= w < pre.path_names@.len() && pre.path_names@[w]@
                                        == pre.paths@[j]@;
                                assert(self.path_names@[w]@ == self.paths@[j]@);
                            }
                        }
                    }
                }
            },
            Event::FileRead { result } => {
                proof {
                    assert(old(self).pending == Pending::AwaitingRead);
                }
                let id = self.cur_path;
                match result {
                    Result::Err(msg) => {
                        self.ignore_path(id);
                        let p = self.path_names[id].clone();
                        let ghost mv = msg@;
                        let mut v: Vec<String> = Vec::new();
                        v.push(msg);
                        self.outputs.push((p, v));
                        self.pending = Pending::Idle;
                        proof {
                            assert(spec_views(self.outputs@.last().1@) =~= seq![mv]);
                            assert forall|q: int|
                                0 <= q < self.path_names@.len() implies self.covered(q) by {
                                if q == id as int {
                                } else {
                                    lemma_covered_frame(*old(self), *self, q);
                                }
                            }
                        }
                    },
                    Result::Ok(text) => {
                        let ext = self.cur_ext.clone();
                        if is_container_ext(ext.as_str()) {
                            self.pending = Pending::AwaitingFragments;
                            let p = self.path_names[id].clone();
                            proof {
                                assert forall|q: int|
                                    0 <= q < self.path_names@.len() implies self.covered(q) by {
                                    if q == id as int {
                                    } else {
                                        lemma_covered_frame(*old(self), *self, q);
                                    }
                                }
                            }
                            return Action::LoadFragments { path: p, ext, text };
                        } else {
                            self.begin_fragment(id, &text, &ext, true);
                            proof {
                                assert forall|q: int|
                                    0 <= q < self.path_names@.len() implies self.covered(q) by {
                                    if q == id as int {
                                    } else {
                                        lemma_covered_frame(*old(self), *self, q);
                                    }
                                }
                            }
                        }
                    },
                }
            },
            Event::FragmentsLoaded { fragments } => {
                proof {
                    assert(old(self).pending == Pending::AwaitingFragments);
                }
                let id = self.cur_path;
                if fragments.len() == 0 {
                    self.ignore_path(id);
                    self.pending = Pending::Idle;
                    proof {
                        assert forall|q: int|
                            0 <= q < self.path_names@.len() implies self.covered(q) by {
                            if q == id as int {
                            } else {
                                lemma_covered_frame(*old(self), *self, q);
                            }
                        }
                    }
                } else {
                    let mut i: usize = fragments.len();
                    #[verifier::loop_isolation(false)]
                    while i > 1
                        invariant
                            1 <= i <= fragments@.len(),
                            (*self == Runtime { tasks: self.tasks, ..*old(self) }),
                            self.sizes_ok(),
                            self.paths_distinct(),
                            self.map_refs_ok(),
                            self.records_ok(),
                            self.tasks_ok(),
                            self.pending_ok(),
                            self.coverage_ok(),
                            old(self).tasks@.len() <= self.tasks@.len(),
                            forall|k: int|
                                0 <= k < old(self).tasks@.len() ==> self.tasks@[k] == old(self).tasks@[k],
                            id == old(self).cur_path,
                            id < self.path_names@.len(),
                        decreases i,
                    {
                        i = i - 1;
                        let ghost pre = *self;
                        self.tasks.push(
                            Task::Parse {
                                path_id: id,
                                text: fragments[i].0.clone(),
                                ext: fragments[i].1.clone(),
                            },
                        );
                        proof {
                            assert forall|q: int|
                                0 <= q < self.path_names@.len() implies self.covered(q) by {
                                if pre.cur_path == q && (pre.pending == Pending::AwaitingRead
                                    || pre.pending == Pending::AwaitingFragments) {
                                    assert(self.covered(q));
                                } else {
                                    lemma_covered_frame(pre, *self, q);
                                }
                            }
                        }
                    }
                    self.begin_fragment(id, &fragments[0].0, &fragments[0].1, true);
                    proof {
                        assert forall|q: int|
                            0 <= q < self.path_names@.len() implies self.covered(q) by {
                            if q == id as int {
                            } else {
                                lemma_covered_frame(*old(self), *self, q);
                            }
                        }
                    }
                }
            },
            Event::SpecifierResolved { path } => {
                proof {
                    assert(old(self).pending == Pending::AwaitingResolve);
                    assert(old(self).cur_next < old(self).cur_specs@.len());
                }
                match path {
                    Some(p) => {
                        let tid = self.intern_path(&p);
                        let s = self.cur_specs[self.cur_next].clone();
                        self.cur_resolved.push((s, tid));
                        proof {
                            assert(self.cur_resolved@.last().1 == tid);
                        }
                    },
                    None => {},
                }
                let limit = self.cur_specs.len();
                proof {
                    assert(self.cur_next == old(self).cur_next);
                    assert(self.cur_specs == old(self).cur_specs);
                    assert(self.cur_next < limit);
                }
                self.cur_next = self.cur_next + 1;
                proof {
                    assert forall|q: int| 0 <= q < self.path_names@.len() implies self.covered(
                        q,
                    ) by {
                        if exists|k: int|
                            0 <= k < self.cur_resolved@.len() && (
                            #[trigger] self.cur_resolved@[k]).1 == q {
                            assert(self.pending == Pending::AwaitingResolve);
                            assert(self.covered(q));
                        } else if q < old(self).path_names@.len() {
                            if old(self).module_map@[q] is Some {
                                assert(self.module_map@[q] == old(self).module_map@[q]);
                            } else {
                                assert(old(self).covered(q));
                                if exists|k: int|
                                    0 <= k < old(self).cur_resolved@.len() && (
                                    #[trigger] old(self).cur_resolved@[k]).1 == q {
                                    let k = choose|k: int|
                                        0 <= k < old(self).cur_resolved@.len() && (
                                        #[trigger] old(self).cur_resolved@[k]).1 == q;
                                    assert(self.cur_resolved@[k] == old(self).cur_resolved@[k]);
                                    assert(false);
                                } else {
                                    let k = choose|k: int|
                                        0 <= k < old(self).tasks@.len() && old(self).tasks@[k] == (
                                        Task::Visit { path_id: q as usize });
                                    assert(self.tasks@[k] == old(self).tasks@[k]);
                                    assert(self.covered(q));
                                }
                            }
                        } else {
                            // only a resolved target is interned anew, and it
                            // stands in the round's answers
                            assert(self.path_names@.len() == old(self).path_names@.len() + 1);
                            assert(q == old(self).path_names@.len());
                            assert(self.cur_resolved@.last().1 as int == q);
                            assert(false);
                        }
                    }
                }
                if self.cur_next < self.cur_specs.len() {
                    let d = self.cur_dir.clone();
                    let sp = self.cur_specs[self.cur_next].clone();
                    return Action::Resolve { dir: d, specifier: sp };
                }
                let resolved = clone_pairs(&self.cur_resolved);
                let rid = self.cur_path;
                let rrec = self.cur_rec;
                let ghost prepush = *self;
                self.tasks.push(Task::Attach { path_id: rid, rec: rrec, resolved });
                proof {
                    assert forall|q: int| 0 <= q < self.path_names@.len() implies self.covered(
                        q,
                    ) by {
                        if exists|k: int|
                            0 <= k < prepush.cur_resolved@.len() && (
                            #[trigger] prepush.cur_resolved@[k]).1 == q {
                            let k = choose|k: int|
                                0 <= k < prepush.cur_resolved@.len() && (
                                #[trigger] prepush.cur_resolved@[k]).1 == q;
                            assert(self.cur_resolved@[k] == prepush.cur_resolved@[k]);
                            assert(self.covered(q));
                        } else {
                            lemma_covered_frame(prepush, *self, q);
                        }
                    }
                }
                let mut i: usize = self.cur_resolved.len();
                #[verifier::loop_isolation(false)]
                while i > 0
                    invariant
                        i <= self.cur_resolved@.len(),
                        self.path_names == prepush.path_names,
                        self.cur_resolved == prepush.cur_resolved,
                        self.sizes_ok(),
                        self.paths_distinct(),
                        self.map_refs_ok(),
                        self.records_ok(),
                        self.tasks_ok(),
                        self.all_ready(),
                        self.coverage_ok(),
                        self.pending == Pending::AwaitingResolve,
                        forall|k: int|
                            0 <= k < self.cur_resolved@.len() ==> (
                            #[trigger] self.cur_resolved@[k]).1 < self.path_names@.len(),
                        forall|k2: int|
                            i <= k2 < self.cur_resolved@.len() ==> exists|t2: int|
                                0 <= t2 < self.tasks@.len() && self.tasks@[t2] == (Task::Visit {
                                    path_id: (#[trigger] self.cur_resolved@[k2]).1,
                                }),
                        self.cwd == old(self).cwd,
                        self.paths == old(self).paths,
                        self.cross_module == old(self).cross_module,
                        self.outputs == old(self).outputs,
                        old(self).module_map@.len() <= self.module_map@.len(),
                        forall|k: int|
                            0 <= k < old(self).module_map@.len() && old(self).module_map@[k] is Some
                                ==> self.module_map@[k] == old(self).module_map@[k],
                        old(self).path_names@.len() <= self.path_names@.len(),
                        forall|k: int|
                            0 <= k < old(self).path_names@.len() ==> self.path_names@[k] == old(self).path_names@[k],
                    decreases i,
                {
                    i = i - 1;
                    let tid = self.cur_resolved[i].1;
                    let ghost pre = *self;
                    self.tasks.push(Task::Visit { path_id: tid });
                    proof {
                        assert(self.tasks@[self.tasks@.len() - 1] == (Task::Visit {
                            path_id: tid,
                        }));
                        assert forall|q: int| 0 <= q < self.path_names@.len() implies self.covered(
                            q,
                        ) by {
                            if exists|k: int|
                                0 <= k < pre.cur_resolved@.len() && (
                                #[trigger] pre.cur_resolved@[k]).1 == q {
                                let k = choose|k: int|
                                    0 <= k < pre.cur_resolved@.len() && (
                                    #[trigger] pre.cur_resolved@[k]).1 == q;
                                assert(self.cur_resolved@[k] == pre.cur_resolved@[k]);
                                assert(self.covered(q));
                            } else {
                                lemma_covered_frame(pre, *self, q);
                            }
                        }
                        assert forall|k2: int|
                            i <= k2 < self.cur_resolved@.len() implies exists|t2: int|
                                0 <= t2 < self.tasks@.len() && self.tasks@[t2] == (Task::Visit {
                                    path_id: (#[trigger] self.cur_resolved@[k2]).1,
                                }) by {
                            if k2 == i {
                                assert(self.tasks@[self.tasks@.len() - 1] == (Task::Visit {
                                    path_id: self.cur_resolved@[k2].1,
                                }));
                            } else {
                                let t0 = choose|t0: int|
                                    0 <= t0 < pre.tasks@.len() && pre.tasks@[t0] == (Task::Visit {
                                        path_id: (#[trigger] pre.cur_resolved@[k2]).1,
                                    });
                                assert(self.tasks@[t0] == pre.tasks@[t0]);
                            }
                        }
                    }
                }
                let ghost done_round = *self;
                self.pending = Pending::Idle;
                proof {
                    assert forall|q: int| 0 <= q < self.path_names@.len() implies self.covered(
                        q,
                    ) by {
                        if self.module_map@[q] is Some {
                        } else if exists|k: int|
                            0 <= k < self.tasks@.len() && self.tasks@[k] == (Task::Visit {
                                path_id: q as usize,
                            }) {
                        } else {
                            assert(done_round.covered(q));
                            let k2 = choose|k2: int|
                                0 <= k2 < done_round.cur_resolved@.len() && (
                                #[trigger] done_round.cur_resolved@[k2]).1 == q;
                            assert(self.cur_resolved@[k2] == done_round.cur_resolved@[k2]);
                            let t2 = choose|t2: int|
                                0 <= t2 < self.tasks@.len() && self.tasks@[t2] == (Task::Visit {
                                    path_id: (self.cur_resolved@[k2]).1,
                                });
                            assert(self.tasks@[t2] == (Task::Visit { path_id: q as usize }));
                            assert(exists|k: int|
                                0 <= k < self.tasks@.len() && self.tasks@[k] == (Task::Visit {
                                    path_id: q as usize,
                                }));
                        }
                    }
                }
            },
        }
        self.drain()
    }

    /// Works through the task stack until the caller is needed: pops and
    /// processes visits, fragment parses and attachments, and answers with
    /// the next file read, the next specifier resolution, or `Done`.  No
    /// path is interned here, written module states and emitted entries
    /// stand, and every record keeps its parsed fields.  `Done` comes back
    /// only with an empty stack, and then every interned path holds a
    /// terminal state.
    #[verifier::rlimit(60)]
    fn drain(&mut self) -> (a: Action)
        requires
            old(self).inv(),
            old(self).records_ok(),
            old(self).pending == Pending::Idle || old(self).pending == Pending::AwaitingResolve,
        ensures
            final(self).inv(),
            final(self).records_ok(),
            final(self).cwd == old(self).cwd,
            final(self).paths == old(self).paths,
            final(self).cross_module == old(self).cross_module,
            final(self).path_names == old(self).path_names,
            final(self).module_map@.len() == old(self).module_map@.len(),
            forall|k: int|
                0 <= k < old(self).module_map@.len() && old(self).module_map@[k] is Some ==> final(self).module_map@[k] == old(self).module_map@[k],
            old(self).outputs@.len() <= final(self).outputs@.len(),
            forall|k: int|
                0 <= k < old(self).outputs@.len() ==> final(self).outputs@[k] == old(self).outputs@[k],
            old(self).records@.len() <= final(self).records@.len(),
            forall|r: int|
                0 <= r < old(self).records@.len() ==> {
                    &&& (#[trigger] final(self).records@[r]).requested_modules@ == old(self).records@[r].requested_modules@
                    &&& final(self).records@[r].exported_bindings@ == old(self).records@[r].exported_bindings@
                    &&& final(self).records@[r].star_export_requests@ == old(self).records@[r].star_export_requests@
                },
            !(a is LoadFragments),
            a is Read ==> final(self).pending == Pending::AwaitingRead,
            a is Resolve ==> final(self).pending == Pending::AwaitingResolve,
            a is Done ==> final(self).pending == Pending::Idle && final(self).tasks@.len() == 0,
            a is Done ==> forall|i: int|
                0 <= i < final(self).path_names@.len() ==> final(self).module_map@[i] is Some,
    {
        #[verifier::loop_isolation(false)]
        loop
            invariant
                self.sizes_ok(),
                self.paths_distinct(),
                self.map_refs_ok(),
                self.records_ok(),
                self.tasks_ok(),
                self.pending_ok(),
                self.coverage_ok(),
                self.pending == Pending::Idle || self.pending == Pending::AwaitingResolve,
                self.cwd == old(self).cwd,
                self.paths == old(self).paths,
                self.cross_module == old(self).cross_module,
                self.path_names == old(self).path_names,
                forall|k: int|
                    0 <= k < old(self).module_map@.len() && old(self).module_map@[k] is Some
                        ==> self.module_map@[k] == old(self).module_map@[k],
                old(self).outputs@.len() <= self.outputs@.len(),
                forall|k: int|
                    0 <= k < old(self).outputs@.len() ==> self.outputs@[k] == old(self).outputs@[k],
                old(self).records@.len() <= self.records@.len(),
                forall|r: int|
                    0 <= r < old(self).records@.len() ==> {
                        &&& (#[trigger] self.records@[r]).requested_modules@
                            == old(self).records@[r].requested_modules@
                        &&& self.records@[r].exported_bindings@
                            == old(self).records@[r].exported_bindings@
                        &&& self.records@[r].star_export_requests@
                            == old(self).records@[r].star_export_requests@
                    },
            decreases self.tasks@.len(),
        {
            match self.pending {
                Pending::AwaitingResolve => {
                    let d = self.cur_dir.clone();
                    let sp = self.cur_specs[self.cur_next].clone();
                    return Action::Resolve { dir: d, specifier: sp };
                },
                _ => {},
            }
            if self.tasks.len() == 0 {
                proof {
                    assert forall|q: int|
                        0 <= q < self.path_names@.len() implies self.module_map@[q] is Some by {
                        assert(self.covered(q));
                    }
                }
                return Action::Done;
            }
            let ghost prev = *self;
            let popped = self.tasks.pop();
            let ghost ap = *self;
            match popped {
                None => {
                    proof {
                        assert(false);
                    }
                    return Action::Done;
                },
                Some(t) => {
                    proof {
                        assert(ap.tasks@ =~= prev.tasks@.drop_last());
                        assert(t == prev.tasks@.last());
                    }
                    match t {
                        Task::Visit { path_id } => {
                            proof {
                                assert(t == (Task::Visit { path_id: path_id }));
                            }
                            let plen = self.path_names.len();
                            let ghost before = *self;
                            match self.visit_path(path_id) {
                                Some(act) => {
                                    proof {
                                        assert forall|q: int|
                                            0 <= q < self.path_names@.len() implies self.covered(
                                            q,
                                        ) by {
                                            if q == path_id as int {
                                                if before.module_map@[path_id as int] is Some {
                                                    assert(self.module_map@[q] is Some);
                                                } else {
                                                    assert(self.pending == Pending::AwaitingRead
                                                        && self.cur_path == path_id);
                                                }
                                            } else {
                                                assert(q < plen as int);
                                                assert(t != (Task::Visit {
                                                    path_id: q as usize,
                                                }));
                                                lemma_covered_after_pop(prev, before, t, q);
                                                lemma_covered_frame(before, *self, q);
                                            }
                                        }
                                    }
                                    return act;
                                },
                                None => {
                                    proof {
                                        assert forall|q: int|
                                            0 <= q < self.path_names@.len() implies self.covered(
                                            q,
                                        ) by {
                                            if q == path_id as int {
                                                assert(self.module_map@[q] is Some);
                                            } else {
                                                assert(q < plen as int);
                                                assert(t != (Task::Visit {
                                                    path_id: q as usize,
                                                }));
                                                lemma_covered_after_pop(prev, before, t, q);
                                                lemma_covered_frame(before, *self, q);
                                            }
                                        }
                                    }
                                },
                            }
                        },
                        Task::Parse { path_id, text, ext } => {
                            let ghost before = *self;
                            self.begin_fragment(path_id, &text, &ext, false);
                            proof {
                                assert(t is Parse);
                                assert forall|q: int|
                                    0 <= q < self.path_names@.len() implies self.covered(q) by {
                                    lemma_covered_after_pop(prev, before, t, q);
                                    lemma_covered_frame(before, *self, q);
                                }
                            }
                        },
                        Task::Attach { path_id, rec, resolved } => {
                            let ghost before = *self;
                            self.attach_and_finish(path_id, rec, &resolved);
                            proof {
                                assert(t is Attach);
                                assert forall|q: int|
                                    0 <= q < self.path_names@.len() implies self.covered(q) by {
                                    lemma_covered_after_pop(prev, before, t, q);
                                    lemma_covered_frame(before, *self, q);
                                }
                                assert forall|r: int| 0 <= r < old(self).records@.len() implies {
                                    &&& (#[trigger] self.records@[r]).requested_modules@
                                        == old(self).records@[r].requested_modules@
                                    &&& self.records@[r].exported_bindings@
                                        == old(self).records@[r].exported_bindings@
                                    &&& self.records@[r].star_export_requests@
                                        == old(self).records@[r].star_export_requests@
                                } by {
                                    if r == rec as int {
                                        assert(self.records@[r].requested_modules@
                                            == before.records@[r].requested_modules@);
                                    } else {
                                        assert(self.records@[r] == before.records@[r]);
                                    }
                                }
                            }
                        },
                    }
                },
            }
        }
    }
}

} // verus!
