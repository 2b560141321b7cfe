//! Collects the edges and diagnostics that the runtime emits.
//!
//! The output protocol is a stream of `Some((path, strings))` entries — each
//! string list is either a set of resolved dependency paths or a set of
//! diagnostic messages for that source path — closed by a single `None`
//! sentinel.  The collector flattens the entries before the first `None`
//! into `(source, string)` pairs.

use vstd::prelude::*;

verus! {

/// A lightweight message a worker emits for one resolved dependency.
pub struct Message {
    /// The dependency path the message reports.
    pub file_path: String,
}

/// One entry of the output stream: a source path together with either its
/// resolved dependency paths or its diagnostic messages.
pub type CollectorTuple = (String, Vec<String>);

/// The `(source, string)` pairs contributed by one stream entry.
pub open spec fn spec_entry_pairs(entry: (String, Vec<String>)) -> Seq<(Seq<char>, Seq<char>)> {
    entry.1@.map_values(|d: String| (entry.0@, d@))
}

/// What a stream contributes to the collected pair list: one
/// `(source, string)` pair per string of each entry before the first `None`.
pub open spec fn spec_collected(stream: Seq<Option<(String, Vec<String>)>>) -> Seq<
    (Seq<char>, Seq<char>),
>
    decreases stream.len(),
{
    if stream.len() == 0 {
        Seq::empty()
    } else {
        match stream[0] {
            None => Seq::empty(),
            Some(entry) => spec_entry_pairs(entry) + spec_collected(stream.drop_first()),
        }
    }
}

/// The views of a collected pair list.
pub open spec fn spec_dep_views(v: Seq<(String, String)>) -> Seq<(Seq<char>, Seq<char>)> {
    v.map_values(|p: (String, String)| (p.0@, p.1@))
}

proof fn lemma_collected_push_some(s: Seq<Option<(String, Vec<String>)>>, e: (String, Vec<String>))
    requires
        forall|k: int| 0 <= k < s.len() ==> s[k] is Some,
    ensures
        spec_collected(s.push(Some(e))) == spec_collected(s) + spec_entry_pairs(e),
    decreases s.len(),
{
    if s.len() == 0 {
        let t = s.push(Some(e));
        assert(t[0] == Some(e));
        assert(t.drop_first() =~= Seq::<Option<(String, Vec<String>)>>::empty());
        assert(spec_collected(t) == spec_entry_pairs(e) + spec_collected(t.drop_first()));
        assert(spec_collected(t) =~~= spec_entry_pairs(e));
        assert(spec_collected(s) + spec_entry_pairs(e) =~~= spec_entry_pairs(e));
    } else {
        assert(s[0] is Some);
        assert(s.push(Some(e))[0] == s[0]);
        assert(s.push(Some(e)).drop_first() =~= s.drop_first().push(Some(e)));
        lemma_collected_push_some(s.drop_first(), e);
        assert(spec_collected(s.push(Some(e))) =~~= spec_collected(s) + spec_entry_pairs(e));
    }
}

proof fn lemma_collected_stop(s: Seq<Option<(String, Vec<String>)>>, i: int)
    requires
        0 <= i < s.len(),
        s[i] is None,
        forall|k: int| 0 <= k < i ==> s[k] is Some,
    ensures
        spec_collected(s) == spec_collected(s.subrange(0, i)),
    decreases i,
{
    if i == 0 {
        assert(spec_collected(s.subrange(0, 0)) =~= Seq::<(Seq<char>, Seq<char>)>::empty());
    } else {
        assert(s[0] is Some);
        assert(s.drop_first()[i - 1] is None);
        lemma_collected_stop(s.drop_first(), i - 1);
        assert(s.subrange(0, i).drop_first() =~= s.drop_first().subrange(0, i - 1));
        assert(spec_collected(s) =~= spec_collected(s.subrange(0, i)));
    }
}

/// Accumulates the `(source, dependency-or-diagnostic)` pairs of a run.
pub struct CollectorService {
    /// The accumulated pairs, in stream order.
    pub deps: Vec<(String, String)>,
}

impl Default for CollectorService {
    /// A collector with nothing accumulated yet.
    fn default() -> (r: Self)
        ensures
            r.deps@.len() == 0,
    {
        CollectorService { deps: Vec::new() }
    }
}

impl CollectorService {
    /// Drains `stream`, flattening every entry before the first `None`
    /// sentinel into `(source, string)` pairs appended to `deps`.
    pub fn start(&mut self, stream: &Vec<Option<CollectorTuple>>)
        ensures
            spec_dep_views(final(self).deps@) == spec_dep_views(old(self).deps@)
                + spec_collected(stream@),
    {
        let ghost base = spec_dep_views(self.deps@);
        let mut i: usize = 0;
        let mut done = false;
        while !done && i < stream.len()
            invariant
                i <= stream@.len(),
                !done ==> forall|k: int| 0 <= k < i ==> stream@[k] is Some,
                !done ==> spec_dep_views(self.deps@) == base + spec_collected(
                    stream@.subrange(0, i as int),
                ),
                done ==> spec_dep_views(self.deps@) == base + spec_collected(stream@),
            decreases stream@.len() - i + (if done {
                0int
            } else {
                1int
            }),
        {
            match &stream[i] {
                None => {
                    proof {
                        lemma_collected_stop(stream@, i as int);
                    }
                    done = true;
                },
                Some(entry) => {
                    let ghost pre = self.deps@;
                    let mut j: usize = 0;
                    while j < entry.1.len()
                        invariant
                            j <= entry.1@.len(),
                            spec_dep_views(self.deps@) =~= spec_dep_views(pre) + entry.1@.subrange(
                                0,
                                j as int,
                            ).map_values(|d: String| (entry.0@, d@)),
                        decreases entry.1@.len() - j,
                    {
                        let ghost before = self.deps@;
                        self.deps.push((entry.0.clone(), entry.1[j].clone()));
                        proof {
                            assert(entry.1@.subrange(0, j + 1) =~= entry.1@.subrange(
                                0,
                                j as int,
                            ).push(entry.1@[j as int]));
                            assert(spec_dep_views(self.deps@) =~= spec_dep_views(before).push(
                                (entry.0@, entry.1@[j as int]@),
                            ));
                        }
                        j = j + 1;
                    }
                    proof {
                        assert(entry.1@.subrange(0, entry.1@.len() as int) =~= entry.1@);
                        lemma_collected_push_some(stream@.subrange(0, i as int), *entry);
                        assert(stream@.subrange(0, i as int).push(Some(*entry)) =~= stream@.subrange(
                            0,
                            i as int + 1,
                        ));
                        assert(spec_dep_views(self.deps@) =~= base + spec_collected(
                            stream@.subrange(0, i as int + 1),
                        ));
                    }
                    i = i + 1;
                },
            }
        }
        proof {
            if !done {
                assert(stream@.subrange(0, stream@.len() as int) =~= stream@);
            }
        }
    }

    /// Wraps the messages of one source path as a stream entry: the path with
    /// one string per message.
    pub fn wrap_messages(path: &String, messages: &Vec<Message>) -> (r: CollectorTuple)
        ensures
            r.0@ == path@,
            r.1@.map_values(|d: String| d@) == messages@.map_values(|m: Message| m.file_path@),
    {
        let mut diagnostics: Vec<String> = Vec::new();
        let mut k: usize = 0;
        while k < messages.len()
            invariant
                k <= messages@.len(),
                diagnostics@.len() == k,
                forall|a: int| 0 <= a < k ==> diagnostics@[a]@ == messages@[a].file_path@,
            decreases messages@.len() - k,
        {
            diagnostics.push(messages[k].file_path.clone());
            k = k + 1;
        }
        proof {
            assert(diagnostics@.map_values(|d: String| d@) =~~= messages@.map_values(
                |m: Message| m.file_path@,
            ));
        }
        (path.clone(), diagnostics)
    }
}

} // verus!
