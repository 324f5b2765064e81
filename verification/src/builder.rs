//! The queue-driven crawl that builds and extends the dependency
//! graph. The builder owns the work queue and hands canonical
//! specifiers out one at a time; the caller loads and compiles each
//! one (the only I/O of the crawl) and hands the record back.
//!
//! Invariant: a canonical specifier is enqueued at most once (`seen`
//! is the dedup test), so the crawl terminates even on cyclic imports.

use vstd::prelude::*;
use queues::IsQueue;
use queues::Queue;
use crate::errors::HostError;
use crate::graph::holds_key;
use crate::graph::DependencyGraph;
use crate::graph::ModuleDependency;
use crate::resolver::resolve;
use crate::resolver::resolve_spec;
use crate::resolver::views;

verus! {

#[verifier::external_type_specification]
#[verifier::external_body]
#[verifier::reject_recursive_types(T)]
pub struct ExQueue<T: Clone>(Queue<T>);

/// The elements a FIFO queue of the `queues` crate holds, oldest
/// first.
pub uninterp spec fn queue_elems(q: Queue<String>) -> Seq<Seq<char>>;

/// Relies on `queues::Queue::new`: the new queue is empty.
#[verifier::external_body]
fn fifo_new() -> (q: Queue<String>)
    ensures
        queue_elems(q) == Seq::<Seq<char>>::empty(),
{
    Queue::new()
}

/// Relies on `queues::IsQueue::add` for `Queue`: appends the value at
/// the back and always succeeds.
#[verifier::external_body]
fn fifo_add(q: &mut Queue<String>, val: String)
    ensures
        queue_elems(*final(q)) == queue_elems(*old(q)).push(val@),
{
    let _ = q.add(val);
}

/// Relies on `queues::IsQueue::remove` for `Queue`: takes the oldest
/// element off the front; an empty queue reports an error and is left
/// unchanged.
#[verifier::external_body]
fn fifo_remove(q: &mut Queue<String>) -> (r: Option<String>)
    ensures
        match r {
            Some(v) => queue_elems(*old(q)).len() > 0 && v@ == queue_elems(*old(q))[0]
                && queue_elems(*final(q)) == queue_elems(*old(q)).drop_first(),
            None => queue_elems(*old(q)).len() == 0 && queue_elems(*final(q)) == queue_elems(
                *old(q),
            ),
        },
{
    q.remove().ok()
}

/// The canonical keys of `rec`'s static imports from position `j` on
/// that are not yet in `seen`, each taken the first time it appears.
pub open spec fn fresh_deps(rec: ModuleDependency, j: int, seen: Seq<Seq<char>>) -> Seq<Seq<char>>
    decreases rec.deps@.len() - j,
{
    if j < 0 || j >= rec.deps@.len() {
        Seq::empty()
    } else {
        let k = rec.dep_key(j);
        if seen.contains(k) {
            fresh_deps(rec, j + 1, seen)
        } else {
            seq![k] + fresh_deps(rec, j + 1, seen.push(k))
        }
    }
}

/// Pushing onto a sequence keeps everything it already held.
proof fn lemma_seen_grows(s: Seq<Seq<char>>, x: Seq<char>, y: Seq<char>)
    ensures
        s.contains(y) ==> s.push(x).contains(y),
{
    if s.contains(y) {
        let i = choose|i: int| 0 <= i < s.len() && s[i] == y;
        assert(s.push(x)[i] == y);
    }
}

/// The crawl state: the graph built so far, the FIFO of canonical
/// specifiers waiting to be loaded, at most one specifier handed out
/// for loading, and every specifier ever enqueued.
pub struct GraphBuilder {
    /// The graph built so far.
    pub graph: DependencyGraph,
    /// Canonical specifiers waiting to be loaded, oldest first.
    pub queue: Queue<String>,
    /// The specifier handed out by `next_load` and not yet provided.
    pub loading: Option<String>,
    /// Every canonical specifier ever enqueued; the dedup test.
    pub seen: Vec<String>,
}

impl GraphBuilder {
    /// The canonical specifiers waiting to be loaded.
    pub open spec fn pending(&self) -> Seq<Seq<char>> {
        queue_elems(self.queue)
    }

    /// The view of the specifier being loaded, if any.
    pub open spec fn loading_key(&self) -> Option<Seq<char>> {
        match self.loading {
            Option::Some(s) => Option::Some(s@),
            Option::None => Option::None,
        }
    }

    /// Whether `k` counts as enqueued-before: a graph key, pending, or
    /// being loaded.
    pub open spec fn spec_seen(&self, k: Seq<char>) -> bool {
        ||| self.graph.contains_key(k)
        ||| self.pending().contains(k)
        ||| self.loading_key() == Option::Some(k)
    }

    /// The crawl invariant: unique graph keys; pending specifiers
    /// distinct and disjoint from the graph and from the one being
    /// loaded, which is itself not yet a graph key; and `seen` holds
    /// exactly the specifiers enqueued so far.
    pub open spec fn wf(&self) -> bool {
        &&& self.graph.wf()
        &&& (forall|i: int, j: int|
            0 <= i < j < self.pending().len() ==> self.pending()[i] != self.pending()[j])
        &&& (forall|i: int|
            0 <= i < self.pending().len() ==> !self.graph.contains_key(self.pending()[i]))
        &&& (forall|i: int|
            0 <= i < self.pending().len() ==> self.loading_key() != Option::Some(
                self.pending()[i],
            ))
        &&& (match self.loading_key() {
            Option::Some(k) => !self.graph.contains_key(k),
            Option::None => true,
        })
        &&& (forall|i: int, j: int|
            0 <= i < j < views(self.seen@).len() ==> views(self.seen@)[i] != views(self.seen@)[j])
        &&& (forall|k: Seq<char>| #[trigger] views(self.seen@).contains(k) <==> self.spec_seen(k))
        &&& (forall|i: int, j: int|
            0 <= i < self.graph.records@.len() && 0 <= j < self.graph.records@[i].deps@.len()
                ==> views(self.seen@).contains(#[trigger] self.graph.records@[i].dep_key(j)))
    }

    /// Starts a crawl on an empty graph from `entry` against `base`:
    /// the one resolved entry specifier is pending.
    pub fn from(entry: &String, base: &String, base_is_file: bool) -> (b: GraphBuilder)
        ensures
            b.wf(),
            b.graph.keys() == Seq::<Seq<char>>::empty(),
            b.pending() =~= seq![resolve_spec(entry@, base@, base_is_file)],
            b.loading_key() is None,
    {
        let mut b = GraphBuilder {
            graph: DependencyGraph::new(),
            queue: fifo_new(),
            loading: None,
            seen: Vec::new(),
        };
        let url = resolve(entry, base, base_is_file);
        let ghost k = url@;
        fifo_add(&mut b.queue, url.clone());
        b.seen.push(url);
        proof {
            assert(b.pending() =~= seq![k]);
            assert(views(b.seen@) =~= seq![k]);
            assert(b.graph.records@.len() == 0);
            assert forall|x: Seq<char>| #[trigger]
                views(b.seen@).contains(x) implies b.spec_seen(x) by {
                assert(views(b.seen@)[0] == k);
                assert(b.pending()[0] == k);
            }
            assert forall|x: Seq<char>| b.spec_seen(x) implies views(b.seen@).contains(x) by {
                if b.pending().contains(x) {
                    assert(views(b.seen@)[0] == k);
                }
            }
        }
        b
    }

    /// Resumes a crawl on an already-built graph, with nothing pending:
    /// the dynamic import gateway extends a finished graph this way.
    /// The graph must be closed under static imports, as a drained
    /// crawl leaves it.
    pub fn resume(graph: DependencyGraph) -> (b: GraphBuilder)
        requires
            graph.wf(),
            graph.import_closed(),
        ensures
            b.wf(),
            b.graph == graph,
            b.pending() == Seq::<Seq<char>>::empty(),
            b.loading_key() is None,
    {
        let mut seen: Vec<String> = Vec::new();
        let n = graph.len();
        let mut i: usize = 0;
        while i < n
            invariant
                n == graph.keys().len(),
                i <= n,
                graph.wf(),
                views(seen@) == graph.keys().take(i as int),
            decreases n - i,
        {
            let rec = graph.record_at(i);
            let ghost prev = views(seen@);
            seen.push(rec.filename.clone());
            proof {
                assert(views(seen@) =~= prev.push(rec.filename@));
                assert(graph.keys().take(i as int + 1) =~= prev.push(graph.keys()[i as int]));
            }
            i = i + 1;
        }
        proof {
            assert(graph.keys().take(n as int) =~= graph.keys());
        }
        let b = GraphBuilder { graph, queue: fifo_new(), loading: None, seen };
        proof {
            assert forall|x: Seq<char>| #[trigger]
                views(b.seen@).contains(x) implies b.spec_seen(x) by {
                assert(b.graph.keys().contains(x));
            }
            assert forall|x: Seq<char>| b.spec_seen(x) implies views(b.seen@).contains(x) by {
                assert(b.graph.keys().contains(x));
            }
            assert forall|i: int, j: int|
                0 <= i < b.graph.records@.len() && 0 <= j < b.graph.records@[i].deps@.len()
                implies views(b.seen@).contains(#[trigger] b.graph.records@[i].dep_key(j)) by {
                let t = b.graph.records@[i].dep_key(j);
                assert(b.graph.contains_key(t));
                let w = choose|w: int| 0 <= w < b.graph.keys().len() && b.graph.keys()[w] == t;
                assert(views(b.seen@)[w] == t);
            }
        }
        b
    }

    /// Enqueues `source` resolved against `base` unless that canonical
    /// specifier was enqueued before; used to extend an already-built
    /// graph on demand. Returns whether anything was enqueued.
    pub fn append(&mut self, source: &String, base: &String, base_is_file: bool) -> (added: bool)
        requires
            old(self).wf(),
        ensures
            final(self).wf(),
            final(self).graph == old(self).graph,
            final(self).loading == old(self).loading,
            added == !old(self).spec_seen(resolve_spec(source@, base@, base_is_file)),
            added ==> final(self).pending() == old(self).pending().push(
                resolve_spec(source@, base@, base_is_file),
            ) && views(final(self).seen@) == views(old(self).seen@).push(
                resolve_spec(source@, base@, base_is_file),
            ),
            !added ==> *final(self) == *old(self),
    {
        let url = resolve(source, base, base_is_file);
        let ghost k = url@;
        if holds_key(&self.seen, &url) {
            false
        } else {
            let ghost old_pending = self.pending();
            let ghost old_seen = views(self.seen@);
            fifo_add(&mut self.queue, url.clone());
            self.seen.push(url);
            proof {
                assert(views(self.seen@) =~= old_seen.push(k));
                assert(self.pending() == old_pending.push(k));
                assert forall|x: Seq<char>| #[trigger]
                    views(self.seen@).contains(x) implies self.spec_seen(x) by {
                    if x == k {
                        assert(self.pending().last() == k);
                    } else {
                        assert(old_seen.contains(x));
                        if old_pending.contains(x) {
                            let i = choose|i: int|
                                0 <= i < old_pending.len() && old_pending[i] == x;
                            assert(self.pending()[i] == x);
                        }
                    }
                }
                assert forall|x: Seq<char>| self.spec_seen(x) implies views(self.seen@).contains(
                    x,
                ) by {
                    if self.pending().contains(x) {
                        let i = choose|i: int|
                            0 <= i < self.pending().len() && self.pending()[i] == x;
                        if i < old_pending.len() {
                            assert(old_pending[i] == x);
                            assert(old_seen.contains(x));
                        } else {
                            assert(x == k);
                        }
                    } else {
                        assert(old_seen.contains(x));
                    }
                    assert(old_seen.push(k).contains(x)) by {
                        if old_seen.contains(x) {
                            let i = choose|i: int| 0 <= i < old_seen.len() && old_seen[i] == x;
                            assert(old_seen.push(k)[i] == x);
                        } else {
                            assert(old_seen.push(k).last() == x);
                        }
                    }
                }
                assert forall|i: int, j: int|
                    0 <= i < self.graph.records@.len() && 0 <= j < self.graph.records@[
                    i].deps@.len() implies views(self.seen@).contains(
                    #[trigger] self.graph.records@[i].dep_key(j)) by {
                    lemma_seen_grows(old_seen, k, self.graph.records@[i].dep_key(j));
                }
            }
            true
        }
    }

    /// Hands the oldest pending specifier out for loading; `None` when
    /// nothing is pending or a load is already outstanding.
    pub fn next_load(&mut self) -> (r: Option<String>)
        requires
            old(self).wf(),
        ensures
            final(self).wf(),
            final(self).graph == old(self).graph,
            final(self).seen == old(self).seen,
            match r {
                Some(u) => old(self).loading_key() is None && old(self).pending().len() > 0
                    && u@ == old(self).pending()[0] && final(self).pending() == old(
                    self,
                ).pending().drop_first() && final(self).loading_key() == Option::Some(u@),
                None => final(self).loading == old(self).loading && final(self).pending() == old(
                    self,
                ).pending() && (old(self).loading_key() is Some || old(self).pending().len() == 0),
            },
    {
        if self.loading.is_some() {
            return None;
        }
        let ghost old_pending = self.pending();
        match fifo_remove(&mut self.queue) {
            Some(u) => {
                self.loading = Some(u.clone());
                proof {
                    assert forall|x: Seq<char>| #[trigger]
                        views(self.seen@).contains(x) implies self.spec_seen(x) by {
                        if old_pending.contains(x) {
                            let i = choose|i: int|
                                0 <= i < old_pending.len() && old_pending[i] == x;
                            if i == 0 {
                                assert(self.loading_key() == Option::Some(x));
                            } else {
                                assert(self.pending()[i - 1] == x);
                            }
                        }
                    }
                    assert forall|x: Seq<char>| self.spec_seen(x) implies views(
                        self.seen@,
                    ).contains(x) by {
                        if self.pending().contains(x) {
                            let i = choose|i: int|
                                0 <= i < self.pending().len() && self.pending()[i] == x;
                            assert(old_pending[i + 1] == x);
                        }
                    }
                }
                Some(u)
            },
            None => None,
        }
    }

    /// Takes the record loaded and compiled for the outstanding
    /// specifier and links it: each static import whose canonical key
    /// was not enqueued before is enqueued, in source order, and the
    /// record is inserted under its canonical specifier. `Ok` exactly
    /// when the record is keyed by the specifier `next_load` handed
    /// out.
    pub fn provide(&mut self, record: ModuleDependency) -> (r: Result<(), HostError>)
        requires
            old(self).wf(),
        ensures
            final(self).wf(),
            match r {
                Ok(()) => {
                    &&& old(self).loading_key() == Option::Some(record.filename@)
                    &&& final(self).graph.records@ == old(self).graph.records@.push(record)
                    &&& final(self).graph.keys() == old(self).graph.keys().push(record.filename@)
                    &&& final(self).loading_key() is None
                    &&& final(self).pending() == old(self).pending() + fresh_deps(
                        record,
                        0,
                        views(old(self).seen@),
                    )
                },
                Err(e) => {
                    &&& e matches HostError::GraphLookup(_)
                    &&& old(self).loading_key() != Option::Some(record.filename@)
                    &&& *final(self) == *old(self)
                },
            },
    {
        let matches_loading = match &self.loading {
            Some(l) => *l == record.filename,
            None => false,
        };
        if !matches_loading {
            return Err(
                HostError::GraphLookup(String::from_str("record does not match the pending load")),
            );
        }
        let ghost g0 = self.graph;
        let ghost p0 = self.pending();
        let ghost s0 = views(self.seen@);
        let ghost mut added: Seq<Seq<char>> = Seq::empty();
        proof {
            assert(self.pending() =~= p0 + added);
            assert(views(self.seen@) =~= s0 + added);
        }
        let n = record.deps.len();
        let mut j: usize = 0;
        while j < n
            invariant
                self.wf(),
                n == record.deps@.len(),
                j <= n,
                self.graph == g0,
                self.loading == old(self).loading,
                self.loading_key() == Option::Some(record.filename@),
                self.pending() == p0 + added,
                views(self.seen@) == s0 + added,
                fresh_deps(record, 0, s0) == added + fresh_deps(record, j as int, s0 + added),
                forall|j2: int|
                    0 <= j2 < j ==> views(self.seen@).contains(#[trigger] record.dep_key(j2)),
            decreases n - j,
        {
            let ghost seen_now = views(self.seen@);
            let ghost k = record.dep_key(j as int);
            let was_added = self.append(&record.deps[j], &record.filename, true);
            proof {
                if was_added {
                    assert(!seen_now.contains(k));
                    assert(fresh_deps(record, j as int, seen_now) == seq![k] + fresh_deps(
                        record,
                        j as int + 1,
                        seen_now.push(k),
                    ));
                    let added2 = added.push(k);
                    assert(s0 + added2 =~= seen_now.push(k));
                    assert(added + (seq![k] + fresh_deps(record, j as int + 1, seen_now.push(k)))
                        =~= added2 + fresh_deps(record, j as int + 1, s0 + added2));
                    added = added2;
                    assert(self.pending() =~= p0 + added);
                    assert(views(self.seen@) =~= s0 + added);
                    assert forall|j2: int|
                        0 <= j2 <= j implies views(self.seen@).contains(
                        #[trigger] record.dep_key(j2)) by {
                        if j2 < j {
                            lemma_seen_grows(seen_now, k, record.dep_key(j2));
                        } else {
                            assert(views(self.seen@).last() == k);
                        }
                    }
                } else {
                    assert(self.spec_seen(k));
                    assert(seen_now.contains(k));
                    assert(fresh_deps(record, j as int, seen_now) == fresh_deps(
                        record,
                        j as int + 1,
                        seen_now,
                    ));
                }
            }
            j = j + 1;
        }
        let ghost le = *self;
        let ghost fname = record.filename@;
        proof {
            assert(fresh_deps(record, n as int, s0 + added) == Seq::<Seq<char>>::empty());
            assert(fresh_deps(record, 0, s0) =~= added);
            assert(le.loading_key() == Option::Some(fname));
            assert(!le.graph.contains_key(fname));
        }
        self.loading = None;
        let inserted = self.graph.insert(record);
        proof {
            assert(inserted);
            assert(self.graph.keys() == le.graph.keys().push(fname));
            assert(self.pending() == le.pending());
            assert(views(self.seen@) == views(le.seen@));
            assert forall|i: int|
                0 <= i < self.pending().len() implies !self.graph.contains_key(
                    self.pending()[i],
                ) by {
                let x = self.pending()[i];
                assert(le.pending()[i] == x);
                assert(!le.graph.contains_key(x));
                assert(le.loading_key() != Option::Some(x));
                if self.graph.contains_key(x) {
                    let w = choose|w: int|
                        0 <= w < self.graph.keys().len() && self.graph.keys()[w] == x;
                    if w < le.graph.keys().len() {
                        assert(le.graph.keys()[w] == x);
                        assert(le.graph.contains_key(x));
                    } else {
                        assert(x == fname);
                    }
                }
            }
            assert forall|x: Seq<char>| #[trigger]
                views(self.seen@).contains(x) implies self.spec_seen(x) by {
                assert(le.spec_seen(x));
                if le.graph.contains_key(x) {
                    let i = choose|i: int|
                        0 <= i < le.graph.keys().len() && le.graph.keys()[i] == x;
                    assert(self.graph.keys()[i] == x);
                } else if le.pending().contains(x) {
                } else {
                    assert(x == fname);
                    assert(self.graph.keys().last() == fname);
                }
            }
            assert forall|x: Seq<char>| self.spec_seen(x) implies views(self.seen@).contains(
                x,
            ) by {
                if self.graph.contains_key(x) {
                    let i = choose|i: int|
                        0 <= i < self.graph.keys().len() && self.graph.keys()[i] == x;
                    if i < le.graph.keys().len() {
                        assert(le.graph.keys()[i] == x);
                        assert(le.spec_seen(x));
                    } else {
                        assert(x == fname);
                        assert(le.spec_seen(x));
                    }
                } else {
                    assert(le.spec_seen(x));
                }
            }
            assert forall|i: int, j2: int|
                0 <= i < self.graph.records@.len() && 0 <= j2 < self.graph.records@[
                i].deps@.len() implies views(self.seen@).contains(
                #[trigger] self.graph.records@[i].dep_key(j2)) by {
                if i < le.graph.records@.len() {
                    assert(self.graph.records@[i] == le.graph.records@[i]);
                    assert(views(le.seen@).contains(le.graph.records@[i].dep_key(j2)));
                } else {
                    assert(self.graph.records@[i] == record);
                    assert(views(le.seen@).contains(record.dep_key(j2)));
                }
            }
        }
        Ok(())
    }

    /// The crawl's accounting: the specifiers ever enqueued are
    /// exactly the graph keys, the pending specifiers and the one
    /// outstanding load, with no double counting. Each load moves one
    /// pending specifier into the graph and enqueues only unseen ones,
    /// so a build performs exactly one load per canonical specifier
    /// ever enqueued and, with finitely many modules, terminates even
    /// on cyclic imports.
    pub proof fn lemma_crawl_accounting(b: GraphBuilder)
        requires
            b.wf(),
        ensures
            views(b.seen@).len() == b.graph.keys().len() + b.pending().len() + (
            match b.loading_key() {
                Option::Some(_) => 1nat,
                Option::None => 0nat,
            }),
    {
        broadcast use vstd::seq_lib::seq_to_set_is_finite;
        broadcast use vstd::set::group_set_axioms;

        let seen = views(b.seen@);
        let keys = b.graph.keys();
        let pend = b.pending();
        let ls: Set<Seq<char>> = match b.loading_key() {
            Option::Some(k) => Set::empty().insert(k),
            Option::None => Set::empty(),
        };
        assert(seen.no_duplicates()) by {
            assert forall|i: int, j: int|
                0 <= i < seen.len() && 0 <= j < seen.len() && i != j implies seen[i] != seen[j] by {
                if i < j {
                } else {
                    assert(0 <= j < i < seen.len());
                }
            }
        }
        assert(keys.no_duplicates()) by {
            assert forall|i: int, j: int|
                0 <= i < keys.len() && 0 <= j < keys.len() && i != j implies keys[i] != keys[j] by {
                if i < j {
                } else {
                    assert(0 <= j < i < keys.len());
                }
            }
        }
        assert(pend.no_duplicates()) by {
            assert forall|i: int, j: int|
                0 <= i < pend.len() && 0 <= j < pend.len() && i != j implies pend[i] != pend[j] by {
                if i < j {
                } else {
                    assert(0 <= j < i < pend.len());
                }
            }
        }
        seen.unique_seq_to_set();
        keys.unique_seq_to_set();
        pend.unique_seq_to_set();
        assert(seen.to_set() =~= keys.to_set() + pend.to_set() + ls) by {
            assert forall|x: Seq<char>|
                seen.to_set().contains(x) <==> (keys.to_set() + pend.to_set() + ls).contains(
                    x,
                ) by {
                assert(seen.contains(x) <==> b.spec_seen(x));
            }
        }
        assert(keys.to_set().disjoint(pend.to_set())) by {
            assert forall|x: Seq<char>|
                keys.to_set().contains(x) implies !pend.to_set().contains(x) by {
                if pend.contains(x) {
                    let i = choose|i: int| 0 <= i < pend.len() && pend[i] == x;
                    assert(!b.graph.contains_key(pend[i]));
                }
            }
        }
        assert((keys.to_set() + pend.to_set()).disjoint(ls)) by {
            assert forall|x: Seq<char>|
                (keys.to_set() + pend.to_set()).contains(x) implies !ls.contains(x) by {
                if ls.contains(x) {
                    assert(b.loading_key() == Option::Some(x));
                    assert(!b.graph.contains_key(x));
                    if pend.contains(x) {
                        let i = choose|i: int| 0 <= i < pend.len() && pend[i] == x;
                        assert(b.loading_key() != Option::Some(pend[i]));
                    }
                }
            }
        }
        vstd::set_lib::lemma_set_disjoint_lens(keys.to_set(), pend.to_set());
        vstd::set_lib::lemma_set_disjoint_lens(keys.to_set() + pend.to_set(), ls);
        assert(ls.len() == (match b.loading_key() {
            Option::Some(_) => 1nat,
            Option::None => 0nat,
        })) by {
            if b.loading_key() is Some {
                let k = b.loading_key()->0;
                assert(!Set::<Seq<char>>::empty().contains(k));
            }
        }
    }

    /// The build's closure promise: once nothing is pending and no
    /// load is outstanding, every static import of every record in the
    /// built graph resolves to a key of the graph.
    pub proof fn lemma_drained_graph_closed(b: GraphBuilder)
        requires
            b.wf(),
            b.pending().len() == 0,
            b.loading_key() is None,
        ensures
            b.graph.import_closed(),
    {
        assert forall|i: int, j: int|
            0 <= i < b.graph.records@.len() && 0 <= j < b.graph.records@[i].deps@.len()
            implies b.graph.contains_key(#[trigger] b.graph.records@[i].dep_key(j)) by {
            let t = b.graph.records@[i].dep_key(j);
            assert(views(b.seen@).contains(t));
            assert(b.spec_seen(t));
        }
    }
}

} // verus!
