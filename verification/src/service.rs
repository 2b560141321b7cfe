//! The analysis service: run configuration and the entry points that drive
//! the runtime over a set of entry paths.

use vstd::prelude::*;
use crate::paths::{is_relative, join_path, seq_contains_str, spec_joined};
use crate::record::ModuleState;
use crate::resolve::{path_is_file, resolver_new, resolver_resolve};
use crate::runtime::{Action, Event, Pending, Runtime};

verus! {

/// Configuration of one graph-build run.
pub struct AnalyzeServiceOptions {
    /// Current working directory.
    pub cwd: String,
    /// All entry paths to analyze.
    pub paths: Vec<String>,
    /// TypeScript `tsconfig.json` path for reading path aliases and project
    /// references.
    pub tsconfig: Option<String>,
    /// Whether import specifiers are resolved across modules; disabled means
    /// each file is parsed standalone with no dependency graph.
    pub cross_module: bool,
}

impl AnalyzeServiceOptions {
    /// Options for `paths` under the working directory `cwd`, with no
    /// tsconfig and cross-module resolution disabled.
    pub fn new(cwd: String, paths: Vec<String>) -> (r: Self)
        ensures
            r.cwd == cwd,
            r.paths == paths,
            r.tsconfig is None,
            !r.cross_module,
    {
        AnalyzeServiceOptions { cwd, paths, tsconfig: None, cross_module: false }
    }

    /// Sets the tsconfig path; a relative one is taken relative to the
    /// working directory.
    pub fn with_tsconfig(self, tsconfig: String) -> (r: Self)
        ensures
            r.cwd == self.cwd,
            r.paths == self.paths,
            r.cross_module == self.cross_module,
            r.tsconfig matches Some(t) && t@ == (if tsconfig@.len() == 0 || tsconfig@[0] != '/' {
                spec_joined(self.cwd@, tsconfig@)
            } else {
                tsconfig@
            }),
    {
        let t = if is_relative(tsconfig.as_str()) {
            join_path(self.cwd.as_str(), tsconfig.as_str())
        } else {
            tsconfig
        };
        AnalyzeServiceOptions {
            cwd: self.cwd,
            paths: self.paths,
            tsconfig: Some(t),
            cross_module: self.cross_module,
        }
    }

    /// Sets whether cross-module resolution is enabled.
    pub fn with_cross_module(self, cross_module: bool) -> (r: Self)
        ensures
            r.cwd == self.cwd,
            r.paths == self.paths,
            r.tsconfig == self.tsconfig,
            r.cross_module == cross_module,
    {
        AnalyzeServiceOptions {
            cwd: self.cwd,
            paths: self.paths,
            tsconfig: self.tsconfig,
            cross_module,
        }
    }

    /// The working directory.
    pub fn cwd(&self) -> (r: &String)
        ensures
            r == self.cwd,
    {
        &self.cwd
    }
}

/// The number of `Some` entries of a module map.
pub open spec fn spec_state_count(m: Seq<Option<ModuleState>>) -> nat
    decreases m.len(),
{
    if m.len() == 0 {
        0
    } else {
        spec_state_count(m.drop_last()) + if m.last() is Some {
            1nat
        } else {
            0nat
        }
    }
}

/// The analysis service: one runtime plus the external resolver it answers
/// specifier resolutions with.
pub struct AnalyzeService {
    /// The runtime state machine of this run.
    pub runtime: Runtime,
    /// The specifier resolver, present when cross-module resolution is on.
    pub resolver: Option<oxc_resolver::Resolver>,
}

impl AnalyzeService {
    /// A service for the given options.  With cross-module resolution on, a
    /// resolver is configured with the options' tsconfig — or, absent one,
    /// with `tsconfig.json` under the working directory — whenever that
    /// path names an existing file.
    pub fn new(options: AnalyzeServiceOptions) -> (r: Self)
        ensures
            r.runtime.inv(),
            r.runtime.records_ok(),
            r.resolver is Some <==> options.cross_module,
            r.runtime.cwd == options.cwd,
            r.runtime.cross_module == options.cross_module,
            r.runtime.pending == Pending::Idle,
            r.runtime.path_names@.len() == 0,
            r.runtime.records@.len() == 0,
            r.runtime.tasks@.len() == 0,
            r.runtime.outputs@.len() == 0,
            forall|i: int, j: int|
                0 <= i < j < r.runtime.paths@.len() ==> r.runtime.paths@[i]@
                    != r.runtime.paths@[j]@,
            forall|i: int|
                0 <= i < options.paths@.len() ==> seq_contains_str(
                    r.runtime.paths@,
                    (#[trigger] options.paths@[i])@,
                ),
            forall|i: int|
                0 <= i < r.runtime.paths@.len() ==> seq_contains_str(
                    options.paths@,
                    (#[trigger] r.runtime.paths@[i])@,
                ),
    {
        let resolver = if options.cross_module {
            let t = match &options.tsconfig {
                Some(t) => t.clone(),
                None => join_path(options.cwd.as_str(), "tsconfig.json"),
            };
            let tsconfig = if path_is_file(&t) {
                Some(t)
            } else {
                None
            };
            Some(resolver_new(tsconfig))
        } else {
            None
        };
        let runtime = Runtime::new(options.cwd, &options.paths, options.cross_module);
        AnalyzeService { runtime, resolver }
    }

    /// Hands the machine one event and answers its specifier resolutions
    /// through the resolver; what comes back is the next action that needs
    /// the caller: a file read, a fragment load, or `Done`.
    pub fn advance(&mut self, event: Event) -> (a: Action)
        requires
            old(self).runtime.inv(),
            old(self).runtime.records_ok(),
            match old(self).runtime.pending {
                Pending::Idle => event is Start,
                Pending::AwaitingRead => event is FileRead,
                Pending::AwaitingFragments => event is FragmentsLoaded,
                Pending::AwaitingResolve => event is SpecifierResolved,
            },
        ensures
            final(self).runtime.inv(),
            final(self).runtime.records_ok(),
            final(self).runtime.cwd == old(self).runtime.cwd,
            final(self).runtime.cross_module == old(self).runtime.cross_module,
            old(self).runtime.module_map@.len() <= final(self).runtime.module_map@.len(),
            forall|i: int|
                0 <= i < old(self).runtime.module_map@.len() && old(
                    self,
                ).runtime.module_map@[i] is Some ==> final(self).runtime.module_map@[i] == old(
                    self,
                ).runtime.module_map@[i],
            old(self).runtime.outputs@.len() <= final(self).runtime.outputs@.len(),
            forall|i: int|
                0 <= i < old(self).runtime.outputs@.len() ==> final(self).runtime.outputs@[i]
                    == old(self).runtime.outputs@[i],
            a is Read ==> final(self).runtime.pending == Pending::AwaitingRead,
            a is LoadFragments ==> final(self).runtime.pending == Pending::AwaitingFragments,
            a is Resolve ==> final(self).runtime.pending == Pending::AwaitingResolve,
            a is Done ==> final(self).runtime.pending == Pending::Idle,
            // when the run completes, every interned path holds a state
            a is Done ==> forall|i: int|
                0 <= i < final(self).runtime.path_names@.len() ==> final(self).runtime.module_map@[i] is Some,
    {
        self.runtime.step(event)
    }

    /// Answers one `Resolve` action: resolves the specifier against the
    /// directory through the resolver — a missing resolver resolves nothing
    /// — and hands the outcome back to the machine.  Whatever the resolver
    /// returned, the machine's invariants are kept: a failed resolution is
    /// dropped silently.
    pub fn answer_resolve(&mut self, dir: &String, specifier: &String) -> (a: Action)
        requires
            old(self).runtime.inv(),
            old(self).runtime.records_ok(),
            old(self).runtime.pending == Pending::AwaitingResolve,
        ensures
            final(self).runtime.inv(),
            final(self).runtime.records_ok(),
            final(self).runtime.cwd == old(self).runtime.cwd,
            final(self).runtime.cross_module == old(self).runtime.cross_module,
            old(self).runtime.module_map@.len() <= final(self).runtime.module_map@.len(),
            forall|i: int|
                0 <= i < old(self).runtime.module_map@.len() && old(
                    self,
                ).runtime.module_map@[i] is Some ==> final(self).runtime.module_map@[i] == old(
                    self,
                ).runtime.module_map@[i],
            old(self).runtime.outputs@.len() <= final(self).runtime.outputs@.len(),
            forall|i: int|
                0 <= i < old(self).runtime.outputs@.len() ==> final(self).runtime.outputs@[i]
                    == old(self).runtime.outputs@[i],
            a is Read ==> final(self).runtime.pending == Pending::AwaitingRead,
            a is LoadFragments ==> final(self).runtime.pending == Pending::AwaitingFragments,
            a is Resolve ==> final(self).runtime.pending == Pending::AwaitingResolve,
            a is Done ==> final(self).runtime.pending == Pending::Idle,
            a is Done ==> forall|i: int|
                0 <= i < final(self).runtime.path_names@.len() ==> final(self).runtime.module_map@[i] is Some,
            // within a round, whatever the resolver returned is recorded: a
            // failure changes nothing, a success appends one pair for the
            // answered specifier, keyed by an interned path
            old(self).runtime.cur_next + 1 < old(self).runtime.cur_specs@.len() ==> {
                &&& a is Resolve
                &&& final(self).runtime.cur_next == old(self).runtime.cur_next + 1
                &&& final(self).runtime.cur_specs == old(self).runtime.cur_specs
                &&& (final(self).runtime.cur_resolved == old(self).runtime.cur_resolved || {
                    &&& final(self).runtime.cur_resolved@.len() == old(
                        self,
                    ).runtime.cur_resolved@.len() + 1
                    &&& (forall|k: int|
                        0 <= k < old(self).runtime.cur_resolved@.len() ==> final(self).runtime.cur_resolved@[k] == old(self).runtime.cur_resolved@[k])
                    &&& final(self).runtime.cur_resolved@.last().0@ == old(
                        self,
                    ).runtime.cur_specs@[old(self).runtime.cur_next as int]@
                    &&& final(self).runtime.cur_resolved@.last().1 < final(self).runtime.path_names@.len()
                })
            },
    {
        let res = match &self.resolver {
            Some(r) => resolver_resolve(r, dir, specifier),
            None => None,
        };
        self.runtime.step(Event::SpecifierResolved { path: res })
    }

    /// How many dependencies the run discovered: the module states written
    /// beyond the entry paths themselves.
    pub fn number_of_dependencies(&self) -> (n: usize)
        requires
            spec_state_count(self.runtime.module_map@) >= self.runtime.paths@.len(),
        ensures
            n == spec_state_count(self.runtime.module_map@) - self.runtime.paths@.len(),
    {
        let total = self.runtime.module_map.len();
        let mut count: usize = 0;
        let mut i: usize = 0;
        while i < total
            invariant
                i <= total,
                total == self.runtime.module_map@.len(),
                count <= i,
                count == spec_state_count(self.runtime.module_map@.subrange(0, i as int)),
            decreases total - i,
        {
            proof {
                assert(self.runtime.module_map@.subrange(0, i + 1).drop_last()
                    =~= self.runtime.module_map@.subrange(0, i as int));
                assert(self.runtime.module_map@.subrange(0, i + 1).last()
                    == self.runtime.module_map@[i as int]);
            }
            if self.runtime.module_map[i].is_some() {
                count = count + 1;
            }
            i = i + 1;
        }
        proof {
            assert(self.runtime.module_map@.subrange(0, total as int)
                =~= self.runtime.module_map@);
        }
        count - self.runtime.paths.len()
    }

    /// The run's output stream in the collector's protocol: every emitted
    /// entry wrapped in `Some`, closed by exactly one `None` sentinel.
    pub fn finish_stream(&self) -> (stream: Vec<Option<(String, Vec<String>)>>)
        ensures
            stream@.len() == self.runtime.outputs@.len() + 1,
            forall|i: int|
                0 <= i < self.runtime.outputs@.len() ==> ((#[trigger] stream@[i]) matches Some(e)
                    && e.0 == self.runtime.outputs@[i].0 && e.1@ == self.runtime.outputs@[i].1@),
            stream@.last() is None,
    {
        let mut stream: Vec<Option<(String, Vec<String>)>> = Vec::new();
        let n = self.runtime.outputs.len();
        let mut i: usize = 0;
        while i < n
            invariant
                i <= n,
                n == self.runtime.outputs@.len(),
                stream@.len() == i,
                forall|k: int|
                    0 <= k < i ==> ((#[trigger] stream@[k]) matches Some(e) && e.0
                        == self.runtime.outputs@[k].0 && e.1@ == self.runtime.outputs@[k].1@),
            decreases n - i,
        {
            stream.push(
                Some(
                    (
                        self.runtime.outputs[i].0.clone(),
                        crate::paths::clone_strings(&self.runtime.outputs[i].1),
                    ),
                ),
            );
            i = i + 1;
        }
        stream.push(None);
        stream
    }
}

} // verus!
