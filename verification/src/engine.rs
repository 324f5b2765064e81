//! The module engine's bookkeeping: which canonical specifiers have a
//! live Module Instance, which are already evaluated, and the
//! engine-assigned identity-hash table bridging engine identities back
//! to canonical specifiers. The engine itself (compile, instantiate,
//! evaluate primitives) lives outside; this module plans and records
//! its steps and answers its synchronous resolution callback.

use vstd::prelude::*;
use vstd::pervasive::VecAdditionalExecFns;
use crate::builder::fresh_deps;
use crate::builder::GraphBuilder;
use crate::errors::HostError;
use crate::graph::distinct;
use crate::graph::holds_key;
use crate::graph::DependencyGraph;
use crate::graph::ModuleDependency;
use crate::resolver::resolve;
use crate::resolver::resolve_spec;
use crate::resolver::views;

verus! {

/// Every key of `s` is a key of the graph.
pub open spec fn all_keys(g: DependencyGraph, s: Seq<Seq<char>>) -> bool {
    forall|i: int| 0 <= i < s.len() ==> g.contains_key(#[trigger] s[i])
}

/// `done` is closed under static dependencies: every static import of
/// a member, resolved to its canonical key, is a member too.
pub open spec fn dep_closed(g: DependencyGraph, done: Seq<Seq<char>>) -> bool {
    forall|i: int, j: int|
        0 <= i < done.len() && 0 <= j < g.record_for(done[i]).deps@.len() ==> done.contains(
            #[trigger] g.record_for(done[i]).dep_key(j),
        )
}

/// Membership in a pushed sequence.
proof fn lemma_push_contains(s: Seq<Seq<char>>, x: Seq<char>, y: Seq<char>)
    ensures
        s.push(x).contains(y) <==> (s.contains(y) || x == y),
{
    if s.contains(y) {
        let i = choose|i: int| 0 <= i < s.len() && s[i] == y;
        assert(s.push(x)[i] == y);
    }
    if x == y {
        assert(s.push(x).last() == y);
    }
    if s.push(x).contains(y) {
        let i = choose|i: int| 0 <= i < s.push(x).len() && s.push(x)[i] == y;
        if i < s.len() {
            assert(s[i] == y);
        }
    }
}

/// The identity table read back to front: the canonical specifier most
/// recently registered under `id`.
pub open spec fn hash_lookup(pairs: Seq<(i32, Seq<char>)>, id: i32) -> Option<Seq<char>>
    decreases pairs.len(),
{
    if pairs.len() == 0 {
        Option::None
    } else if pairs.last().0 == id {
        Option::Some(pairs.last().1)
    } else {
        hash_lookup(pairs.drop_last(), id)
    }
}

/// The engine-side state: the dependency graph table, the canonical
/// specifiers holding a Module Instance, the ones already evaluated,
/// and the append-only identity-hash table.
pub struct RuntimeGraph {
    /// The dependency graph the engine works against, together with
    /// the crawl state that extends it on dynamic imports.
    pub table: GraphBuilder,
    /// Canonical specifiers with a live Module Instance.
    pub instantiated: Vec<String>,
    /// Canonical specifiers whose instance was already evaluated.
    pub evaluated: Vec<String>,
    /// Engine identity hash to canonical specifier; never reused.
    pub hash: Vec<(i32, String)>,
}

impl RuntimeGraph {
    /// The dependency graph table itself.
    pub open spec fn graph(&self) -> DependencyGraph {
        self.table.graph
    }

    /// The instantiated canonical specifiers.
    pub open spec fn inst_keys(&self) -> Seq<Seq<char>> {
        views(self.instantiated@)
    }

    /// The evaluated canonical specifiers.
    pub open spec fn eval_keys(&self) -> Seq<Seq<char>> {
        views(self.evaluated@)
    }

    /// The identity table as pairs of hash and canonical specifier.
    pub open spec fn hash_pairs(&self) -> Seq<(i32, Seq<char>)> {
        self.hash@.map_values(|p: (i32, String)| (p.0, p.1@))
    }

    /// The engine invariant: unique graph keys; instance keys distinct,
    /// in the graph and dependency-closed (a module is only
    /// instantiated after all its static dependencies); evaluated keys
    /// distinct, instantiated and dependency-closed.
    pub open spec fn wf(&self) -> bool {
        &&& self.table.wf()
        &&& distinct(self.inst_keys())
        &&& all_keys(self.graph(), self.inst_keys())
        &&& dep_closed(self.graph(), self.inst_keys())
        &&& distinct(self.eval_keys())
        &&& (forall|i: int|
            0 <= i < self.eval_keys().len() ==> self.inst_keys().contains(
                #[trigger] self.eval_keys()[i],
            ))
        &&& dep_closed(self.graph(), self.eval_keys())
    }

    /// Wraps a finished dependency graph with empty instance,
    /// evaluated and identity tables.
    pub fn from(table: DependencyGraph) -> (rt: RuntimeGraph)
        requires
            table.wf(),
            table.import_closed(),
        ensures
            rt.wf(),
            rt.graph() == table,
            rt.table.pending() == Seq::<Seq<char>>::empty(),
            rt.table.loading_key() is None,
            rt.inst_keys() =~= Seq::<Seq<char>>::empty(),
            rt.eval_keys() =~= Seq::<Seq<char>>::empty(),
            rt.hash_pairs() =~= Seq::<(i32, Seq<char>)>::empty(),
    {
        let b = GraphBuilder::resume(table);
        let rt = RuntimeGraph { table: b, instantiated: Vec::new(), evaluated: Vec::new(), hash: Vec::new() };
        proof {
            assert(rt.inst_keys() =~= Seq::<Seq<char>>::empty());
            assert(rt.eval_keys() =~= Seq::<Seq<char>>::empty());
        }
        rt
    }

    /// Enqueues one specifier for loading, extending the graph on a
    /// dynamic import; a specifier enqueued before is skipped.
    pub fn append(&mut self, source: &String, base: &String, base_is_file: bool) -> (added: bool)
        requires
            old(self).wf(),
        ensures
            final(self).wf(),
            final(self).graph() == old(self).graph(),
            final(self).instantiated == old(self).instantiated,
            final(self).evaluated == old(self).evaluated,
            final(self).hash == old(self).hash,
            final(self).table.loading == old(self).table.loading,
            added == !old(self).table.spec_seen(resolve_spec(source@, base@, base_is_file)),
            added ==> final(self).table.pending() == old(self).table.pending().push(
                resolve_spec(source@, base@, base_is_file),
            ) && views(final(self).table.seen@) == views(old(self).table.seen@).push(
                resolve_spec(source@, base@, base_is_file),
            ),
            !added ==> final(self).table == old(self).table,
    {
        self.table.append(source, base, base_is_file)
    }

    /// Hands the next canonical specifier out for loading, if any.
    pub fn next_load(&mut self) -> (r: Option<String>)
        requires
            old(self).wf(),
        ensures
            final(self).wf(),
            final(self).graph() == old(self).graph(),
            final(self).instantiated == old(self).instantiated,
            final(self).evaluated == old(self).evaluated,
            final(self).hash == old(self).hash,
            final(self).table.seen == old(self).table.seen,
            match r {
                Some(u) => {
                    &&& old(self).table.loading_key() is None
                    &&& old(self).table.pending().len() > 0
                    &&& u@ == old(self).table.pending()[0]
                    &&& final(self).table.pending() == old(self).table.pending().drop_first()
                    &&& final(self).table.loading_key() == Option::Some(u@)
                },
                None => {
                    &&& final(self).table.loading == old(self).table.loading
                    &&& final(self).table.pending() == old(self).table.pending()
                    &&& (old(self).table.loading_key() is Some || old(self).table.pending().len()
                        == 0)
                },
            },
    {
        self.table.next_load()
    }

    /// Links the record loaded for the outstanding specifier into the
    /// graph; the engine tables carry over unchanged (records are only
    /// added, never removed, so everything instantiated stays
    /// dependency-closed).
    pub fn provide(&mut self, record: ModuleDependency) -> (r: Result<(), HostError>)
        requires
            old(self).wf(),
        ensures
            final(self).wf(),
            final(self).instantiated == old(self).instantiated,
            final(self).evaluated == old(self).evaluated,
            final(self).hash == old(self).hash,
            r is Ok <==> old(self).table.loading_key() == Option::Some(record.filename@),
            r is Ok ==> final(self).graph().records@ == old(self).graph().records@.push(record)
                && final(self).graph().keys() == old(self).graph().keys().push(record.filename@)
                && final(self).table.loading_key() is None && final(self).table.pending() == old(
                self,
            ).table.pending() + fresh_deps(record, 0, views(old(self).table.seen@)),
            r is Err ==> final(self).table == old(self).table,
    {
        let ghost g1 = self.table.graph;
        let r = self.table.provide(record);
        proof {
            let g2 = self.table.graph;
            if r is Ok {
                assert(g1.records@.is_prefix_of(g2.records@)) by {
                    assert(g1.records@ =~= g2.records@.subrange(0, g1.records@.len() as int));
                }
                assert forall|k: Seq<char>| g1.contains_key(k) implies #[trigger] g2.contains_key(
                    k,
                ) && g2.record_for(k) == g1.record_for(k) by {
                    lemma_extends_record_for(g1, g2, k);
                }
            }
        }
        r
    }

    /// Records the engine-assigned identity hash of a freshly compiled
    /// module object; entries are never removed or reused.
    pub fn register_identity(&mut self, id: i32, source: &String)
        requires
            old(self).wf(),
        ensures
            final(self).wf(),
            final(self).hash_pairs() == old(self).hash_pairs().push((id, source@)),
            final(self).table == old(self).table,
            final(self).instantiated == old(self).instantiated,
            final(self).evaluated == old(self).evaluated,
    {
        self.hash.push((id, source.clone()));
        proof {
            assert(self.hash_pairs() =~= old(self).hash_pairs().push((id, source@)));
        }
    }

    /// Looks the canonical specifier registered under `id` up, most
    /// recent registration first.
    pub fn lookup_identity(&self, id: i32) -> (r: Option<String>)
        ensures
            match r {
                Some(s) => hash_lookup(self.hash_pairs(), id) == Option::Some(s@),
                None => hash_lookup(self.hash_pairs(), id) is None,
            },
    {
        let mut i: usize = self.hash.len();
        proof {
            assert(self.hash_pairs().take(i as int) =~= self.hash_pairs());
        }
        while i > 0
            invariant
                i <= self.hash@.len(),
                self.hash_pairs().len() == self.hash@.len(),
                hash_lookup(self.hash_pairs(), id) == hash_lookup(
                    self.hash_pairs().take(i as int),
                    id,
                ),
            decreases i,
        {
            let pair_id = self.hash[i - 1].0;
            proof {
                assert(self.hash_pairs().take(i as int).last() == self.hash_pairs()[i as int - 1]);
                assert(self.hash_pairs()[i as int - 1] == (self.hash@[i as int - 1].0, self.hash@[
                    i as int - 1].1@));
            }
            if pair_id == id {
                let found = self.hash[i - 1].1.clone();
                return Some(found);
            }
            proof {
                assert(self.hash_pairs().take(i as int).drop_last() =~= self.hash_pairs().take(
                    i as int - 1,
                ));
            }
            i = i - 1;
        }
        proof {
            assert(self.hash_pairs().take(0) =~= Seq::<(i32, Seq<char>)>::empty());
        }
        None
    }

    /// Answers the engine's synchronous resolution callback: given the
    /// referrer's identity hash and the raw child specifier, returns
    /// the canonical specifier whose already-instantiated module object
    /// the engine should link. A referrer with no registered identity,
    /// or a child without an instance, is an internal invariant
    /// failure.
    pub fn resolve_module_callback(&self, referrer_id: i32, source: &String) -> (r: Result<
        String,
        HostError,
    >)
        requires
            self.wf(),
        ensures
            match r {
                Ok(u) => {
                    &&& hash_lookup(self.hash_pairs(), referrer_id) matches Option::Some(refk)
                        && u@ == resolve_spec(source@, refk, true)
                    &&& self.inst_keys().contains(u@)
                },
                Err(e) => {
                    &&& e matches HostError::GraphLookup(_)
                    &&& match hash_lookup(self.hash_pairs(), referrer_id) {
                        Option::Some(refk) => !self.inst_keys().contains(
                            resolve_spec(source@, refk, true),
                        ),
                        Option::None => true,
                    }
                },
            },
    {
        let referrer = match self.lookup_identity(referrer_id) {
            Some(refk) => refk,
            None => {
                return Err(
                    HostError::GraphLookup(String::from_str("referrer identity is not registered")),
                );
            },
        };
        let url = resolve(source, &referrer, true);
        if holds_key(&self.instantiated, &url) {
            Ok(url)
        } else {
            Err(HostError::GraphLookup(String::from_str("resolved import has no instance")))
        }
    }

    /// Records that the engine instantiated `source` and its namespace
    /// was captured: exactly one Module Instance per canonical
    /// specifier, created only after all its static dependencies.
    /// Returns whether the instance was recorded; refused when the
    /// specifier has no record, already has an instance, or has a
    /// dependency without one.
    pub fn confirm_instantiated(&mut self, source: &String) -> (r: bool)
        requires
            old(self).wf(),
        ensures
            final(self).wf(),
            final(self).table == old(self).table,
            final(self).evaluated == old(self).evaluated,
            final(self).hash == old(self).hash,
            r == (old(self).graph().contains_key(source@) && !old(self).inst_keys().contains(
                source@,
            ) && (forall|j: int|
                0 <= j < old(self).graph().record_for(source@).deps@.len() ==> old(
                    self,
                ).inst_keys().contains(
                    #[trigger] old(self).graph().record_for(source@).dep_key(j),
                ))),
            r ==> final(self).inst_keys() == old(self).inst_keys().push(source@),
            !r ==> *final(self) == *old(self),
    {
        let rec = match self.table.graph.get(source) {
            Some(rec) => rec,
            None => {
                return false;
            },
        };
        if holds_key(&self.instantiated, source) {
            return false;
        }
        if !deps_done(&self.instantiated, rec) {
            return false;
        }
        let ghost pre = *self;
        self.instantiated.push(source.clone());
        proof {
            assert(self.inst_keys() =~= pre.inst_keys().push(source@));
            lemma_confirm_wf(pre.graph(), source@, pre.inst_keys(), self.inst_keys());
            assert forall|i: int|
                0 <= i < self.eval_keys().len() implies self.inst_keys().contains(
                #[trigger] self.eval_keys()[i]) by {
                lemma_push_contains(pre.inst_keys(), source@, self.eval_keys()[i]);
            }
        }
        true
    }

    /// Records that the engine evaluated `source`'s instance: each
    /// instance is evaluated once, only after its static dependencies.
    /// Returns whether the evaluation was recorded; refused when the
    /// specifier has no instance, was already evaluated, or has a
    /// dependency not yet evaluated.
    pub fn confirm_evaluated(&mut self, source: &String) -> (r: bool)
        requires
            old(self).wf(),
        ensures
            final(self).wf(),
            final(self).table == old(self).table,
            final(self).instantiated == old(self).instantiated,
            final(self).hash == old(self).hash,
            r == (old(self).graph().contains_key(source@) && old(self).inst_keys().contains(
                source@,
            ) && !old(self).eval_keys().contains(source@) && (forall|j: int|
                0 <= j < old(self).graph().record_for(source@).deps@.len() ==> old(
                    self,
                ).eval_keys().contains(
                    #[trigger] old(self).graph().record_for(source@).dep_key(j),
                ))),
            r ==> final(self).eval_keys() == old(self).eval_keys().push(source@),
            !r ==> *final(self) == *old(self),
    {
        let rec = match self.table.graph.get(source) {
            Some(rec) => rec,
            None => {
                return false;
            },
        };
        if !holds_key(&self.instantiated, source) {
            return false;
        }
        if holds_key(&self.evaluated, source) {
            return false;
        }
        if !deps_done(&self.evaluated, rec) {
            return false;
        }
        let ghost pre = *self;
        self.evaluated.push(source.clone());
        proof {
            assert(self.eval_keys() =~= pre.eval_keys().push(source@));
            lemma_confirm_wf(pre.graph(), source@, pre.eval_keys(), self.eval_keys());
            assert forall|i: int|
                0 <= i < self.eval_keys().len() implies self.inst_keys().contains(
                #[trigger] self.eval_keys()[i]) by {}
        }
        true
    }
}

/// Decides whether every static import of `rec`, resolved to its
/// canonical key, is among the views of `done`.
fn deps_done(done: &Vec<String>, rec: &ModuleDependency) -> (b: bool)
    ensures
        b == (forall|j: int|
            0 <= j < rec.deps@.len() ==> views(done@).contains(#[trigger] rec.dep_key(j))),
{
    let n = rec.deps.len();
    let mut j: usize = 0;
    while j < n
        invariant
            n == rec.deps@.len(),
            j <= n,
            forall|i: int| 0 <= i < j ==> views(done@).contains(#[trigger] rec.dep_key(i)),
        decreases n - j,
    {
        let dep = resolve(&rec.deps[j], &rec.filename, true);
        if !holds_key(done, &dep) {
            proof {
                assert(dep@ == rec.dep_key(j as int));
            }
            return false;
        }
        j = j + 1;
    }
    true
}

/// A table extension keeps every old key bound to the same record.
proof fn lemma_extends_record_for(g1: DependencyGraph, g2: DependencyGraph, k: Seq<char>)
    requires
        g1.wf(),
        g2.wf(),
        g1.records@.is_prefix_of(g2.records@),
        g1.contains_key(k),
    ensures
        g2.contains_key(k),
        g2.record_for(k) == g1.record_for(k),
{
    g1.lemma_key_index(k);
    let i = g1.key_index(k);
    assert(g2.records@[i] == g1.records@[i]) by {
        assert(g1.records@ =~= g2.records@.subrange(0, g1.records@.len() as int));
    }
    assert(g2.keys()[i] == k);
    g2.lemma_key_index(k);
}

/// A nonempty walk along static-import edges: each element is a graph
/// key and each next element is a resolved static import of the one
/// before it.
pub open spec fn is_dep_path(g: DependencyGraph, p: Seq<Seq<char>>) -> bool {
    &&& p.len() >= 1
    &&& (forall|i: int| 0 <= i < p.len() ==> g.contains_key(#[trigger] p[i]))
    &&& (forall|i: int|
        0 <= i < p.len() - 1 ==> exists|j: int|
            0 <= j < g.record_for(#[trigger] p[i]).deps@.len() && p[i + 1] == g.record_for(
                p[i],
            ).dep_key(j))
}

/// `to` is `from` itself or a transitive static dependency of `from`.
pub open spec fn reaches(g: DependencyGraph, from: Seq<char>, to: Seq<char>) -> bool {
    exists|p: Seq<Seq<char>>| is_dep_path(g, p) && p.first() == from && p.last() == to
}

/// A graph key reaches itself.
proof fn lemma_reaches_self(g: DependencyGraph, k: Seq<char>)
    requires
        g.contains_key(k),
    ensures
        reaches(g, k, k),
{
    let p = seq![k];
    assert(is_dep_path(g, p));
    assert(p.first() == k && p.last() == k);
}

/// Reachability extends along one static-import edge.
proof fn lemma_reaches_step(g: DependencyGraph, from: Seq<char>, mid: Seq<char>, j: int)
    requires
        reaches(g, from, mid),
        0 <= j < g.record_for(mid).deps@.len(),
        g.contains_key(g.record_for(mid).dep_key(j)),
    ensures
        reaches(g, from, g.record_for(mid).dep_key(j)),
{
    let p = choose|p: Seq<Seq<char>>| is_dep_path(g, p) && p.first() == from && p.last() == mid;
    let k = g.record_for(mid).dep_key(j);
    let p2 = p.push(k);
    assert forall|i: int| 0 <= i < p2.len() implies g.contains_key(#[trigger] p2[i]) by {
        if i < p.len() {
            assert(p[i] == p2[i]);
        }
    }
    assert forall|i: int| 0 <= i < p2.len() - 1 implies exists|jj: int|
        0 <= jj < g.record_for(#[trigger] p2[i]).deps@.len() && p2[i + 1] == g.record_for(
            p2[i],
        ).dep_key(jj) by {
        if i < p.len() - 1 {
            assert(p2[i] == p[i] && p2[i + 1] == p[i + 1]);
            let jj = choose|jj: int|
                0 <= jj < g.record_for(p[i]).deps@.len() && p[i + 1] == #[trigger] g.record_for(
                    p[i],
                ).dep_key(jj);
            assert(0 <= jj < g.record_for(p2[i]).deps@.len() && p2[i + 1] == g.record_for(
                p2[i],
            ).dep_key(jj));
        } else {
            assert(p2[i] == p.last() && p2[i + 1] == k);
            assert(0 <= j < g.record_for(p2[i]).deps@.len() && p2[i + 1] == g.record_for(
                p2[i],
            ).dep_key(j));
        }
    }
    assert(is_dep_path(g, p2));
    assert(p2.first() == from && p2.last() == k);
}

/// Dropping the first element of a walk of length two or more leaves a
/// walk.
proof fn lemma_subpath_suffix(g: DependencyGraph, p: Seq<Seq<char>>)
    requires
        is_dep_path(g, p),
        p.len() >= 2,
    ensures
        is_dep_path(g, p.drop_first()),
        p.drop_first().first() == p[1],
        p.drop_first().last() == p.last(),
{
    let q = p.drop_first();
    assert forall|i: int| 0 <= i < q.len() implies g.contains_key(#[trigger] q[i]) by {
        assert(q[i] == p[i + 1]);
    }
    assert forall|i: int| 0 <= i < q.len() - 1 implies exists|jj: int|
        0 <= jj < g.record_for(#[trigger] q[i]).deps@.len() && q[i + 1] == g.record_for(
            q[i],
        ).dep_key(jj) by {
        assert(q[i] == p[i + 1] && q[i + 1] == p[i + 2]);
        let jj = choose|jj: int|
            0 <= jj < g.record_for(p[i + 1]).deps@.len() && p[i + 2] == #[trigger] g.record_for(
                p[i + 1],
            ).dep_key(jj);
        assert(0 <= jj < g.record_for(q[i]).deps@.len() && q[i + 1] == g.record_for(
            q[i],
        ).dep_key(jj));
    }
}

/// A dependency-closed set swallows every walk that enters it.
proof fn lemma_done_closed_path(
    g: DependencyGraph,
    done: Seq<Seq<char>>,
    p: Seq<Seq<char>>,
    i: int,
    k: int,
)
    requires
        dep_closed(g, done),
        is_dep_path(g, p),
        0 <= i <= k < p.len(),
        done.contains(p[i]),
    ensures
        done.contains(p[k]),
    decreases k - i,
{
    if k > i {
        let w = choose|w: int| 0 <= w < done.len() && done[w] == p[i];
        let j0 = choose|j0: int|
            0 <= j0 < g.record_for(p[i]).deps@.len() && p[i + 1] == #[trigger] g.record_for(
                p[i],
            ).dep_key(j0);
        assert(done.contains(g.record_for(done[w]).dep_key(j0)));
        lemma_done_closed_path(g, done, p, i + 1, k);
    }
}

/// How a valid plan relates to the graph: the planned keys are
/// distinct, in the graph and not yet done; the requested entry is
/// done or planned; and every static dependency of a planned module is
/// done or planned earlier.
pub open spec fn plan_valid(
    g: DependencyGraph,
    done: Seq<Seq<char>>,
    entry: Seq<char>,
    plan: Seq<Seq<char>>,
) -> bool {
    &&& distinct(plan)
    &&& (forall|i: int|
        0 <= i < plan.len() ==> g.contains_key(#[trigger] plan[i]) && !done.contains(plan[i]))
    &&& (done.contains(entry) || plan.contains(entry))
    &&& (forall|i: int, j: int|
        0 <= i < plan.len() && 0 <= j < g.record_for(plan[i]).deps@.len() ==> done.contains(
            #[trigger] g.record_for(plan[i]).dep_key(j),
        ) || plan.take(i).contains(g.record_for(plan[i]).dep_key(j)))
}

/// Every element of a walk that starts inside `done` or `plan` stays
/// inside `done` or `plan`.
proof fn lemma_plan_covers_path(
    g: DependencyGraph,
    done: Seq<Seq<char>>,
    entry: Seq<char>,
    plan: Seq<Seq<char>>,
    p: Seq<Seq<char>>,
    i: int,
)
    requires
        plan_valid(g, done, entry, plan),
        dep_closed(g, done),
        is_dep_path(g, p),
        done.contains(p.first()) || plan.contains(p.first()),
        0 <= i < p.len(),
    ensures
        done.contains(p[i]) || plan.contains(p[i]),
    decreases i,
{
    if i > 0 {
        lemma_plan_covers_path(g, done, entry, plan, p, i - 1);
        let j0 = choose|j0: int|
            0 <= j0 < g.record_for(p[i - 1]).deps@.len() && p[i] == #[trigger] g.record_for(
                p[i - 1],
            ).dep_key(j0);
        if done.contains(p[i - 1]) {
            let w = choose|w: int| 0 <= w < done.len() && done[w] == p[i - 1];
            assert(done.contains(g.record_for(done[w]).dep_key(j0)));
        } else {
            let w = choose|w: int| 0 <= w < plan.len() && plan[w] == p[i - 1];
            assert(done.contains(g.record_for(plan[w]).dep_key(j0)) || plan.take(w).contains(
                g.record_for(plan[w]).dep_key(j0),
            ));
            if plan.take(w).contains(p[i]) {
                let u = choose|u: int| 0 <= u < plan.take(w).len() && plan.take(w)[u] == p[i];
                assert(plan[u] == p[i]);
            }
        }
    }
}

/// Completeness of a valid plan: every module the entry transitively
/// imports is already done or stands in the plan.
pub proof fn lemma_plan_covers_reachable(
    g: DependencyGraph,
    done: Seq<Seq<char>>,
    entry: Seq<char>,
    plan: Seq<Seq<char>>,
    m: Seq<char>,
)
    requires
        plan_valid(g, done, entry, plan),
        dep_closed(g, done),
        reaches(g, entry, m),
        !done.contains(m),
    ensures
        plan.contains(m),
{
    let p = choose|p: Seq<Seq<char>>| is_dep_path(g, p) && p.first() == entry && p.last() == m;
    lemma_plan_covers_path(g, done, entry, plan, p, p.len() - 1);
}

/// The one position of `k` in a distinct plan.
pub open spec fn plan_pos(plan: Seq<Seq<char>>, k: Seq<char>) -> int {
    choose|i: int| 0 <= i < plan.len() && plan[i] == k
}

/// In a distinct plan that contains `k`, `plan_pos` is its index.
pub proof fn lemma_plan_pos(plan: Seq<Seq<char>>, k: Seq<char>)
    requires
        distinct(plan),
        plan.contains(k),
    ensures
        0 <= plan_pos(plan, k) < plan.len(),
        plan[plan_pos(plan, k)] == k,
        forall|i: int| 0 <= i < plan.len() && plan[i] == k ==> i == plan_pos(plan, k),
{
    let w = choose|i: int| 0 <= i < plan.len() && plan[i] == k;
    assert(plan[w] == k);
}

/// Ordering of a valid plan: along any static-import walk out of a
/// planned module whose end is not already done, the end stands
/// strictly earlier in the plan than the start. In particular every
/// transitive static dependency is instantiated or evaluated before
/// its dependent.
pub proof fn lemma_plan_orders_dependencies(
    g: DependencyGraph,
    done: Seq<Seq<char>>,
    entry: Seq<char>,
    plan: Seq<Seq<char>>,
    p: Seq<Seq<char>>,
)
    requires
        plan_valid(g, done, entry, plan),
        dep_closed(g, done),
        is_dep_path(g, p),
        p.len() >= 2,
        plan.contains(p.first()),
        !done.contains(p.last()),
    ensures
        plan.contains(p.last()),
        plan_pos(plan, p.last()) < plan_pos(plan, p.first()),
    decreases p.len(),
{
    let j0 = choose|j0: int|
        0 <= j0 < g.record_for(p[0]).deps@.len() && p[1] == #[trigger] g.record_for(p[0]).dep_key(
            j0,
        );
    lemma_plan_pos(plan, p.first());
    let w = plan_pos(plan, p.first());
    assert(done.contains(g.record_for(plan[w]).dep_key(j0)) || plan.take(w).contains(
        g.record_for(plan[w]).dep_key(j0),
    ));
    lemma_subpath_suffix(g, p);
    let q = p.drop_first();
    if done.contains(p[1]) {
        lemma_done_closed_path(g, done, q, 0, q.len() - 1);
        assert(false);
    }
    let u = choose|u: int| 0 <= u < plan.take(w).len() && plan.take(w)[u] == p[1];
    assert(plan[u] == p[1]);
    lemma_plan_pos(plan, p[1]);
    assert(plan_pos(plan, p[1]) == u);
    if p.len() == 2 {
        assert(p.last() == p[1]);
    } else {
        lemma_plan_orders_dependencies(g, done, entry, plan, q);
        assert(plan_pos(plan, q.last()) < plan_pos(plan, q.first()));
    }
}

/// A distinct sequence drawn from another sequence is no longer than
/// it.
proof fn lemma_distinct_le(a: Seq<Seq<char>>, b: Seq<Seq<char>>)
    requires
        distinct(a),
        forall|i: int| 0 <= i < a.len() ==> b.contains(#[trigger] a[i]),
    ensures
        a.len() <= b.len(),
{
    broadcast use vstd::seq_lib::seq_to_set_is_finite;
    broadcast use vstd::set::group_set_axioms;

    assert(a.no_duplicates()) by {
        assert forall|i: int, j: int|
            0 <= i < a.len() && 0 <= j < a.len() && i != j implies a[i] != a[j] by {
            if i < j {
            } else {
                assert(0 <= j < i < a.len());
            }
        }
    }
    a.unique_seq_to_set();
    b.lemma_cardinality_of_set();
    assert forall|x: Seq<char>| a.to_set().contains(x) implies b.to_set().contains(x) by {
        assert(a.contains(x));
        assert(b.contains(x));
    }
    vstd::set_lib::lemma_len_subset(a.to_set(), b.to_set());
}

/// Pushing a fresh, dependency-satisfied key onto a closed done-set
/// keeps it distinct, in the graph and dependency-closed.
proof fn lemma_confirm_wf(g: DependencyGraph, k: Seq<char>, done: Seq<Seq<char>>, done2: Seq<
    Seq<char>,
>)
    requires
        g.wf(),
        distinct(done),
        all_keys(g, done),
        dep_closed(g, done),
        done2 == done.push(k),
        g.contains_key(k),
        !done.contains(k),
        forall|j: int|
            0 <= j < g.record_for(k).deps@.len() ==> done.contains(
                #[trigger] g.record_for(k).dep_key(j),
            ),
    ensures
        distinct(done2),
        all_keys(g, done2),
        dep_closed(g, done2),
{
    assert forall|i: int, j: int| 0 <= i < j < done2.len() implies done2[i] != done2[j] by {
        if j == done2.len() - 1 {
            if done2[i] == k {
                assert(done[i] == k);
            }
        }
    }
    assert forall|i: int| 0 <= i < done2.len() implies g.contains_key(#[trigger] done2[i]) by {
        if i < done.len() {
            assert(done[i] == done2[i]);
        }
    }
    assert forall|i: int, j: int|
        0 <= i < done2.len() && 0 <= j < g.record_for(done2[i]).deps@.len() implies done2.contains(
        #[trigger] g.record_for(done2[i]).dep_key(j)) by {
        if i < done.len() {
            assert(done.contains(g.record_for(done[i]).dep_key(j)));
            lemma_push_contains(done, k, g.record_for(done2[i]).dep_key(j));
        } else {
            assert(done2[i] == k);
            assert(done.contains(g.record_for(k).dep_key(j)));
            lemma_push_contains(done, k, g.record_for(k).dep_key(j));
        }
    }
}


/// The diagnostic reported when the requested specifier has no record.
pub open spec fn msg_missing_entry() -> Seq<char> {
    "module record is missing from the graph"@
}

/// The diagnostic reported when a static import of a reachable module
/// has no record.
pub open spec fn msg_missing_import() -> Seq<char> {
    "static import has no record in the graph"@
}

/// The diagnostic reported when a module to evaluate has no instance.
pub open spec fn msg_missing_instance() -> Seq<char> {
    "module to evaluate has no instance"@
}

/// The diagnostic reported when cyclic static imports block the
/// instantiation order.
pub open spec fn msg_cycle_instantiate() -> Seq<char> {
    "cyclic static imports block instantiation order"@
}

/// The diagnostic reported when cyclic static imports block the
/// evaluation order.
pub open spec fn msg_cycle_evaluate() -> Seq<char> {
    "cyclic static imports block evaluation order"@
}

/// The entry has no record, or some module it transitively imports
/// has a static import without a record: the graph is incomplete.
pub open spec fn missing_link(g: DependencyGraph, done: Seq<Seq<char>>, entry: Seq<char>) -> bool {
    ||| !g.contains_key(entry)
    ||| exists|m: Seq<char>, j: int|
        reaches(g, entry, m) && !done.contains(m) && 0 <= j < g.record_for(m).deps@.len()
            && !g.contains_key(#[trigger] g.record_for(m).dep_key(j))
}

/// A certificate that no dependency order exists: a nonempty set of
/// modules, each transitively imported by the entry and not done, each
/// statically importing another member of the set.
pub open spec fn stuck_witness(
    g: DependencyGraph,
    done: Seq<Seq<char>>,
    entry: Seq<char>,
    rs: Seq<Seq<char>>,
) -> bool {
    &&& rs.len() > 0
    &&& (forall|i: int|
        0 <= i < rs.len() ==> g.contains_key(#[trigger] rs[i]) && !done.contains(rs[i]) && reaches(
            g,
            entry,
            rs[i],
        ))
    &&& (forall|i: int|
        0 <= i < rs.len() ==> exists|j: int|
            0 <= j < g.record_for(#[trigger] rs[i]).deps@.len() && rs.contains(
                g.record_for(rs[i]).dep_key(j),
            ))
}

/// No plan-element at any position is a member of a stuck witness:
/// the first one would need a witness-member dependency placed even
/// earlier.
proof fn lemma_no_witness_member_planned(
    g: DependencyGraph,
    done: Seq<Seq<char>>,
    entry: Seq<char>,
    rs: Seq<Seq<char>>,
    plan: Seq<Seq<char>>,
    w: int,
)
    requires
        stuck_witness(g, done, entry, rs),
        dep_closed(g, done),
        plan_valid(g, done, entry, plan),
        0 <= w < plan.len(),
    ensures
        !rs.contains(plan[w]),
    decreases w,
{
    assert forall|w2: int| 0 <= w2 < w implies !rs.contains(plan[w2]) by {
        lemma_no_witness_member_planned(g, done, entry, rs, plan, w2);
    }
    if rs.contains(plan[w]) {
        let i = choose|i: int| 0 <= i < rs.len() && rs[i] == plan[w];
        let j = choose|j: int|
            0 <= j < g.record_for(#[trigger] rs[i]).deps@.len() && rs.contains(
                g.record_for(rs[i]).dep_key(j),
            );
        let d = g.record_for(plan[w]).dep_key(j);
        assert(rs.contains(d));
        let k = choose|k: int| 0 <= k < rs.len() && rs[k] == d;
        assert(!done.contains(rs[k]));
        assert(done.contains(g.record_for(plan[w]).dep_key(j)) || plan.take(w).contains(
            g.record_for(plan[w]).dep_key(j),
        ));
        let u = choose|u: int| 0 <= u < plan.take(w).len() && plan.take(w)[u] == d;
        assert(plan[u] == d);
        assert(!rs.contains(plan[u]));
        assert(false);
    }
}

/// A stuck witness (a set of pending modules each statically importing
/// another member) excludes every valid plan: no order can put each
/// static dependency before its dependent, so `Ok` is impossible.
pub proof fn lemma_cycle_blocks_plan(
    g: DependencyGraph,
    done: Seq<Seq<char>>,
    entry: Seq<char>,
    rs: Seq<Seq<char>>,
    plan: Seq<Seq<char>>,
)
    requires
        stuck_witness(g, done, entry, rs),
        dep_closed(g, done),
    ensures
        !plan_valid(g, done, entry, plan),
{
    if plan_valid(g, done, entry, plan) {
        assert(rs.len() > 0);
        let r0 = rs[0];
        assert(reaches(g, entry, r0) && !done.contains(r0));
        lemma_plan_covers_reachable(g, done, entry, plan, r0);
        let w = choose|w: int| 0 <= w < plan.len() && plan[w] == r0;
        lemma_no_witness_member_planned(g, done, entry, rs, plan, w);
        assert(rs.contains(rs[0]));
        assert(false);
    }
}

/// The members of `reach` that are not in `plan`, in order.
spec fn unplaced_of(reach: Seq<Seq<char>>, plan: Seq<Seq<char>>) -> Seq<Seq<char>>
    decreases reach.len(),
{
    if reach.len() == 0 {
        Seq::empty()
    } else if plan.contains(reach.first()) {
        unplaced_of(reach.drop_first(), plan)
    } else {
        seq![reach.first()] + unplaced_of(reach.drop_first(), plan)
    }
}

/// Membership in `unplaced_of`.
proof fn lemma_unplaced_of(reach: Seq<Seq<char>>, plan: Seq<Seq<char>>)
    ensures
        forall|x: Seq<char>|
            unplaced_of(reach, plan).contains(x) <==> (reach.contains(x) && !plan.contains(x)),
    decreases reach.len(),
{
    if reach.len() == 0 {
        assert forall|x: Seq<char>|
            unplaced_of(reach, plan).contains(x) <==> (reach.contains(x) && !plan.contains(
                x,
            )) by {
            if reach.contains(x) {
                let i = choose|i: int| 0 <= i < reach.len() && reach[i] == x;
            }
        }
    } else {
        lemma_unplaced_of(reach.drop_first(), plan);
        let rest = unplaced_of(reach.drop_first(), plan);
        assert forall|x: Seq<char>|
            unplaced_of(reach, plan).contains(x) <==> (reach.contains(x) && !plan.contains(
                x,
            )) by {
            if unplaced_of(reach, plan).contains(x) {
                if plan.contains(reach.first()) {
                    assert(rest.contains(x));
                    assert(reach.drop_first().contains(x));
                    let i = choose|i: int|
                        0 <= i < reach.drop_first().len() && reach.drop_first()[i] == x;
                    assert(reach[i + 1] == x);
                } else {
                    let whole = seq![reach.first()] + rest;
                    let i = choose|i: int| 0 <= i < whole.len() && whole[i] == x;
                    if i == 0 {
                        assert(x == reach.first());
                        assert(reach[0] == x);
                    } else {
                        assert(rest[i - 1] == x);
                        assert(rest.contains(x));
                        assert(reach.drop_first().contains(x));
                        let w = choose|w: int|
                            0 <= w < reach.drop_first().len() && reach.drop_first()[w] == x;
                        assert(reach[w + 1] == x);
                    }
                }
            }
            if reach.contains(x) && !plan.contains(x) {
                let i = choose|i: int| 0 <= i < reach.len() && reach[i] == x;
                if i == 0 {
                    assert(x == reach.first());
                    assert(!plan.contains(reach.first()));
                    let whole = seq![reach.first()] + rest;
                    assert(whole[0] == x);
                    assert(unplaced_of(reach, plan) == whole);
                } else {
                    assert(reach.drop_first()[i - 1] == x);
                    assert(reach.drop_first().contains(x));
                    assert(rest.contains(x));
                    let w = choose|w: int| 0 <= w < rest.len() && rest[w] == x;
                    if plan.contains(reach.first()) {
                        assert(unplaced_of(reach, plan) == rest);
                    } else {
                        let whole = seq![reach.first()] + rest;
                        assert(whole[w + 1] == x);
                        assert(unplaced_of(reach, plan) == whole);
                    }
                }
            }
        }
    }
}

/// Finds the first module of `reach` that is not yet placed and whose
/// static imports are all done or already placed.
fn find_ready(
    table: &DependencyGraph,
    done: &Vec<String>,
    plan: &Vec<String>,
    reach: &Vec<String>,
    placed: &Vec<bool>,
) -> (r: Option<usize>)
    requires
        table.wf(),
        placed@.len() == reach@.len(),
        all_keys(*table, views(reach@)),
    ensures
        match r {
            Some(i) => i < reach@.len() && !placed@[i as int] && (forall|j: int|
                0 <= j < table.record_for(views(reach@)[i as int]).deps@.len() ==> views(
                    done@,
                ).contains(#[trigger] table.record_for(views(reach@)[i as int]).dep_key(j))
                    || views(plan@).contains(table.record_for(views(reach@)[i as int]).dep_key(j))),
            None => forall|i: int|
                #![trigger placed@[i]]
                0 <= i < reach@.len() && !placed@[i] ==> exists|j: int|
                    0 <= j < table.record_for(views(reach@)[i]).deps@.len() && !views(
                        done@,
                    ).contains(#[trigger] table.record_for(views(reach@)[i]).dep_key(j)) && !views(
                        plan@,
                    ).contains(table.record_for(views(reach@)[i]).dep_key(j)),
        },
{
    let n = reach.len();
    let mut i: usize = 0;
    while i < n
        invariant
            table.wf(),
            placed@.len() == reach@.len(),
            all_keys(*table, views(reach@)),
            n == reach@.len(),
            i <= n,
            forall|i2: int|
                #![trigger placed@[i2]]
                0 <= i2 < i && !placed@[i2] ==> exists|j: int|
                    0 <= j < table.record_for(views(reach@)[i2]).deps@.len() && !views(
                        done@,
                    ).contains(#[trigger] table.record_for(views(reach@)[i2]).dep_key(j)) && !views(
                        plan@,
                    ).contains(table.record_for(views(reach@)[i2]).dep_key(j)),
        decreases n - i,
    {
        if !placed[i] {
            let cand = reach[i].clone();
            proof {
                assert(views(reach@)[i as int] == cand@);
                assert(table.contains_key(cand@));
            }
            let rec = match table.get(&cand) {
                Some(rec) => rec,
                None => {
                    proof {
                        assert(false);
                    }
                    return None;
                },
            };
            if deps_available(done, plan, rec) {
                return Some(i);
            }
        }
        i = i + 1;
    }
    None
}

/// Decides whether every static import of `rec` is done or planned.
fn deps_available(done: &Vec<String>, plan: &Vec<String>, rec: &ModuleDependency) -> (b: bool)
    ensures
        b == (forall|j: int|
            0 <= j < rec.deps@.len() ==> views(done@).contains(#[trigger] rec.dep_key(j)) || views(
                plan@,
            ).contains(rec.dep_key(j))),
{
    let n = rec.deps.len();
    let mut j: usize = 0;
    while j < n
        invariant
            n == rec.deps@.len(),
            j <= n,
            forall|i: int|
                0 <= i < j ==> views(done@).contains(#[trigger] rec.dep_key(i)) || views(
                    plan@,
                ).contains(rec.dep_key(i)),
        decreases n - j,
    {
        let dep = resolve(&rec.deps[j], &rec.filename, true);
        if !holds_key(done, &dep) && !holds_key(plan, &dep) {
            proof {
                assert(dep@ == rec.dep_key(j as int));
            }
            return false;
        }
        j = j + 1;
    }
    true
}


/// Collects every module the entry transitively imports through
/// modules not yet done: the reachable set the planner must order.
#[verifier::loop_isolation(false)]
#[verifier::rlimit(60)]
fn bfs_reach(table: &DependencyGraph, done: &Vec<String>, entry: &String) -> (r: Result<
    Vec<String>,
    HostError,
>)
    requires
        table.wf(),
        all_keys(*table, views(done@)),
        dep_closed(*table, views(done@)),
        !views(done@).contains(entry@),
        table.contains_key(entry@),
    ensures
        match r {
            Ok(reach) => {
                &&& views(reach@).len() >= 1
                &&& views(reach@)[0] == entry@
                &&& distinct(views(reach@))
                &&& all_keys(*table, views(reach@))
                &&& (forall|i: int|
                    0 <= i < views(reach@).len() ==> !views(done@).contains(
                        #[trigger] views(reach@)[i],
                    ))
                &&& (forall|i: int|
                    0 <= i < views(reach@).len() ==> reaches(
                        *table,
                        entry@,
                        #[trigger] views(reach@)[i],
                    ))
                &&& (forall|i: int, j: int|
                    0 <= i < views(reach@).len() && 0 <= j < table.record_for(
                        views(reach@)[i],
                    ).deps@.len() ==> views(done@).contains(
                        #[trigger] table.record_for(views(reach@)[i]).dep_key(j),
                    ) || views(reach@).contains(table.record_for(views(reach@)[i]).dep_key(j)))
            },
            Err(e) => match e {
                HostError::GraphLookup(m) => missing_link(*table, views(done@), entry@) && m@
                    == msg_missing_import(),
                _ => false,
            },
        },
{
    let mut reach: Vec<String> = Vec::new();
    reach.push(entry.clone());
    proof {
        assert(views(reach@) =~= seq![entry@]);
        lemma_reaches_self(*table, entry@);
        assert(views(reach@)[0] == entry@);
    }
    let mut c: usize = 0;
    while c < reach.len()
        invariant
            c <= reach@.len(),
            1 <= reach@.len(),
            views(reach@)[0] == entry@,
            distinct(views(reach@)),
            all_keys(*table, views(reach@)),
            forall|i: int|
                0 <= i < reach@.len() ==> !views(done@).contains(#[trigger] views(reach@)[i]),
            forall|i: int|
                0 <= i < reach@.len() ==> reaches(*table, entry@, #[trigger] views(reach@)[i]),
            forall|i: int, j: int|
                0 <= i < c && 0 <= j < table.record_for(views(reach@)[i]).deps@.len() ==> views(
                    done@,
                ).contains(#[trigger] table.record_for(views(reach@)[i]).dep_key(j)) || views(
                    reach@,
                ).contains(table.record_for(views(reach@)[i]).dep_key(j)),
        decreases table.keys().len() - c,
    {
        proof {
            lemma_distinct_le(views(reach@), table.keys());
        }
        let cur = reach[c].clone();
        proof {
            assert(views(reach@)[c as int] == cur@);
            assert(table.contains_key(cur@));
        }
        let rec = match table.get(&cur) {
            Some(rec) => rec,
            None => {
                proof {
                    assert(false);
                }
                return Err(HostError::GraphLookup(String::new()));
            },
        };
        let nd = rec.deps.len();
        let mut j: usize = 0;
        while j < nd
            invariant
                j <= nd,
                nd == rec.deps@.len(),
                *rec == table.record_for(cur@),
                c < reach@.len(),
                cur@ == views(reach@)[c as int],
                views(reach@)[0] == entry@,
                distinct(views(reach@)),
                all_keys(*table, views(reach@)),
                forall|i: int|
                    0 <= i < reach@.len() ==> !views(done@).contains(#[trigger] views(reach@)[i]),
                forall|i: int|
                    0 <= i < reach@.len() ==> reaches(*table, entry@, #[trigger] views(reach@)[i]),
                forall|i: int, j2: int|
                    0 <= i < c && 0 <= j2 < table.record_for(views(reach@)[i]).deps@.len()
                    ==> views(done@).contains(
                        #[trigger] table.record_for(views(reach@)[i]).dep_key(j2),
                    ) || views(reach@).contains(table.record_for(views(reach@)[i]).dep_key(j2)),
                forall|j2: int|
                    0 <= j2 < j ==> views(done@).contains(#[trigger] rec.dep_key(j2)) || views(
                        reach@,
                    ).contains(rec.dep_key(j2)),
            decreases nd - j,
        {
            let dep = resolve(&rec.deps[j], &rec.filename, true);
            let ghost dk = dep@;
            proof {
                assert(dk == rec.dep_key(j as int));
            }
            if holds_key(done, &dep) {
            } else if holds_key(&reach, &dep) {
            } else if table.contains(&dep) {
                let ghost old_reach = views(reach@);
                reach.push(dep);
                proof {
                    assert(views(reach@) =~= old_reach.push(dk));
                    lemma_reaches_step(*table, entry@, cur@, j as int);
                    lemma_bfs_push(*table, views(done@), entry@, old_reach, dk);
                    assert forall|i: int, j2: int|
                        0 <= i < c && 0 <= j2 < table.record_for(views(reach@)[i]).deps@.len()
                        implies views(done@).contains(
                        #[trigger] table.record_for(views(reach@)[i]).dep_key(j2)) || views(
                        reach@,
                    ).contains(table.record_for(views(reach@)[i]).dep_key(j2)) by {
                        assert(views(reach@)[i] == old_reach[i]);
                        let t = table.record_for(old_reach[i]).dep_key(j2);
                        assert(views(done@).contains(t) || old_reach.contains(t));
                        lemma_push_contains(old_reach, dk, t);
                    }
                    assert forall|j2: int|
                        0 <= j2 <= j implies views(done@).contains(#[trigger] rec.dep_key(j2))
                        || views(reach@).contains(rec.dep_key(j2)) by {
                        if j2 < j {
                            lemma_push_contains(old_reach, dk, rec.dep_key(j2));
                        } else {
                            assert(views(reach@).last() == dk);
                        }
                    }
                }
            } else {
                proof {
                    assert(reaches(*table, entry@, cur@));
                    assert(!views(done@).contains(cur@));
                    assert(0 <= j < table.record_for(cur@).deps@.len());
                    assert(!table.contains_key(table.record_for(cur@).dep_key(j as int)));
                    assert(missing_link(*table, views(done@), entry@));
                }
                return Err(
                    HostError::GraphLookup(
                        String::from_str("static import has no record in the graph"),
                    ),
                );
            }
            j = j + 1;
        }
        c = c + 1;
    }
    Ok(reach)
}

/// What pushing one fresh reachable key preserves of the reach-set
/// facts (all but the expansion bookkeeping).
proof fn lemma_bfs_push(
    g: DependencyGraph,
    done: Seq<Seq<char>>,
    entry: Seq<char>,
    old_reach: Seq<Seq<char>>,
    dk: Seq<char>,
)
    requires
        distinct(old_reach),
        all_keys(g, old_reach),
        !old_reach.contains(dk),
        g.contains_key(dk),
        !done.contains(dk),
        reaches(g, entry, dk),
        forall|i: int| 0 <= i < old_reach.len() ==> !done.contains(#[trigger] old_reach[i]),
        forall|i: int| 0 <= i < old_reach.len() ==> reaches(g, entry, #[trigger] old_reach[i]),
    ensures
        distinct(old_reach.push(dk)),
        all_keys(g, old_reach.push(dk)),
        forall|i: int|
            0 <= i < old_reach.push(dk).len() ==> !done.contains(#[trigger] old_reach.push(dk)[i]),
        forall|i: int|
            0 <= i < old_reach.push(dk).len() ==> reaches(
                g,
                entry,
                #[trigger] old_reach.push(dk)[i],
            ),
{
    let nr = old_reach.push(dk);
    assert forall|i: int, i2: int| 0 <= i < i2 < nr.len() implies nr[i] != nr[i2] by {
        if i2 == nr.len() - 1 && nr[i] == dk {
            assert(old_reach[i] == dk);
            assert(old_reach.contains(dk));
        }
    }
    assert forall|i: int|
        0 <= i < nr.len() implies g.contains_key(#[trigger] nr[i]) && !done.contains(nr[i])
        && reaches(g, entry, nr[i]) by {
        if i < old_reach.len() {
            assert(nr[i] == old_reach[i]);
            assert(g.contains_key(old_reach[i]));
            assert(!done.contains(old_reach[i]));
            assert(reaches(g, entry, old_reach[i]));
        }
    }
}

/// Orders the reachable set so that every static dependency stands
/// before its dependent; reports a cycle when no such order exists.
#[verifier::loop_isolation(false)]
#[verifier::rlimit(60)]
fn kahn_order(
    table: &DependencyGraph,
    done: &Vec<String>,
    entry: &String,
    reach: Vec<String>,
    evaluating: bool,
) -> (r: Result<Vec<String>, HostError>)
    requires
        table.wf(),
        views(reach@).len() >= 1,
        views(reach@)[0] == entry@,
        distinct(views(reach@)),
        all_keys(*table, views(reach@)),
        forall|i: int|
            0 <= i < views(reach@).len() ==> !views(done@).contains(#[trigger] views(reach@)[i]),
        forall|i: int|
            0 <= i < views(reach@).len() ==> reaches(*table, entry@, #[trigger] views(reach@)[i]),
        forall|i: int, j: int|
            0 <= i < views(reach@).len() && 0 <= j < table.record_for(
                views(reach@)[i],
            ).deps@.len() ==> views(done@).contains(
                #[trigger] table.record_for(views(reach@)[i]).dep_key(j),
            ) || views(reach@).contains(table.record_for(views(reach@)[i]).dep_key(j)),
    ensures
        match r {
            Ok(plan) => {
                &&& plan_valid(*table, views(done@), entry@, views(plan@))
                &&& (forall|i: int|
                    0 <= i < views(plan@).len() ==> reaches(
                        *table,
                        entry@,
                        #[trigger] views(plan@)[i],
                    ))
            },
            Err(e) => {
                &&& match e {
                    HostError::Instantiate(m) => !evaluating && m@ == msg_cycle_instantiate(),
                    HostError::Evaluate(m) => evaluating && m@ == msg_cycle_evaluate(),
                    _ => false,
                }
                &&& exists|rs: Seq<Seq<char>>| stuck_witness(*table, views(done@), entry@, rs)
            },
        },
{
    let n = reach.len();
    let mut plan: Vec<String> = Vec::new();
    let mut placed: Vec<bool> = Vec::new();
    let mut f: usize = 0;
    while f < n
        invariant
            f <= n,
            placed@.len() == f,
            forall|i: int| 0 <= i < f ==> !placed@[i],
        decreases n - f,
    {
        placed.push(false);
        f = f + 1;
    }
    let mut count: usize = 0;
    proof {
        assert(views(plan@) =~= Seq::<Seq<char>>::empty());
    }
    while count < n
        invariant
            placed@.len() == n,
            count == views(plan@).len(),
            count <= n,
            forall|i: int|
                0 <= i < n ==> placed@[i] == views(plan@).contains(#[trigger] views(reach@)[i]),
            forall|w: int|
                0 <= w < views(plan@).len() ==> views(reach@).contains(#[trigger] views(plan@)[w]),
            distinct(views(plan@)),
            forall|w: int, j: int|
                0 <= w < views(plan@).len() && 0 <= j < table.record_for(
                    views(plan@)[w],
                ).deps@.len() ==> views(done@).contains(
                    #[trigger] table.record_for(views(plan@)[w]).dep_key(j),
                ) || views(plan@).take(w).contains(table.record_for(views(plan@)[w]).dep_key(j)),
        decreases n - count,
    {
        match find_ready(table, done, &plan, &reach, &placed) {
            Some(pick) => {
                let x = reach[pick].clone();
                let ghost xk = x@;
                let ghost old_plan = views(plan@);
                proof {
                    assert(xk == views(reach@)[pick as int]);
                    assert(!old_plan.contains(xk));
                }
                placed.set(pick, true);
                plan.push(x);
                count = count + 1;
                proof {
                    assert(views(plan@) =~= old_plan.push(xk));
                    assert forall|i: int, i2: int|
                        0 <= i < i2 < views(plan@).len() implies views(plan@)[i] != views(
                        plan@,
                    )[i2] by {
                        if i2 == views(plan@).len() - 1 && views(plan@)[i] == xk {
                            assert(old_plan[i] == xk);
                            assert(old_plan.contains(xk));
                        }
                    }
                    assert forall|i: int|
                        0 <= i < n implies placed@[i] == views(plan@).contains(
                        #[trigger] views(reach@)[i]) by {
                        lemma_push_contains(old_plan, xk, views(reach@)[i]);
                        if i == pick {
                            assert(views(plan@).last() == xk);
                        } else {
                            if views(reach@)[i] == xk {
                                assert(views(reach@)[i] == views(reach@)[pick as int]);
                                assert(false);
                            }
                        }
                    }
                    assert forall|w: int|
                        0 <= w < views(plan@).len() implies views(reach@).contains(
                        #[trigger] views(plan@)[w]) by {
                        if w < old_plan.len() {
                            assert(views(plan@)[w] == old_plan[w]);
                        } else {
                            assert(views(plan@)[w] == xk);
                            assert(views(reach@)[pick as int] == xk);
                        }
                    }
                    assert forall|w: int, j: int|
                        0 <= w < views(plan@).len() && 0 <= j < table.record_for(
                            views(plan@)[w],
                        ).deps@.len() implies views(done@).contains(
                        #[trigger] table.record_for(views(plan@)[w]).dep_key(j)) || views(
                        plan@,
                    ).take(w).contains(table.record_for(views(plan@)[w]).dep_key(j)) by {
                        if w < old_plan.len() {
                            assert(views(plan@)[w] == old_plan[w]);
                            assert(views(plan@).take(w) =~= old_plan.take(w));
                        } else {
                            assert(views(plan@)[w] == xk);
                            assert(views(plan@).take(w) =~= old_plan);
                            let t = table.record_for(xk).dep_key(j);
                            assert(views(done@).contains(t) || old_plan.contains(t));
                        }
                    }
                }
            },
            None => {
                proof {
                    lemma_kahn_stuck(
                        *table,
                        views(done@),
                        entry@,
                        views(reach@),
                        views(plan@),
                        placed@,
                    );
                }
                if evaluating {
                    return Err(
                        HostError::Evaluate(
                            String::from_str("cyclic static imports block evaluation order"),
                        ),
                    );
                } else {
                    return Err(
                        HostError::Instantiate(
                            String::from_str("cyclic static imports block instantiation order"),
                        ),
                    );
                }
            },
        }
    }
    proof {
        lemma_kahn_complete(*table, views(done@), entry@, views(reach@), views(plan@), placed@);
    }
    Ok(plan)
}

/// Members of the unplaced set are reachable, not done, and in the
/// graph.
#[verifier::spinoff_prover]
proof fn lemma_stuck_members(
    g: DependencyGraph,
    done: Seq<Seq<char>>,
    entry: Seq<char>,
    reachv: Seq<Seq<char>>,
    rs: Seq<Seq<char>>,
)
    requires
        all_keys(g, reachv),
        forall|i: int| 0 <= i < reachv.len() ==> !done.contains(#[trigger] reachv[i]),
        forall|i: int| 0 <= i < reachv.len() ==> reaches(g, entry, #[trigger] reachv[i]),
        forall|i: int| 0 <= i < rs.len() ==> reachv.contains(#[trigger] rs[i]),
    ensures
        forall|i: int|
            0 <= i < rs.len() ==> g.contains_key(#[trigger] rs[i]) && !done.contains(rs[i])
                && reaches(g, entry, rs[i]),
{
    assert forall|i: int|
        0 <= i < rs.len() implies g.contains_key(#[trigger] rs[i]) && !done.contains(rs[i])
        && reaches(g, entry, rs[i]) by {
        let w = choose|w: int| 0 <= w < reachv.len() && reachv[w] == rs[i];
        assert(g.contains_key(reachv[w]));
        assert(!done.contains(reachv[w]));
        assert(reaches(g, entry, reachv[w]));
    }
}

/// Every member of the unplaced set has a static import that is
/// itself an unplaced member.
#[verifier::spinoff_prover]
proof fn lemma_stuck_successors(
    g: DependencyGraph,
    done: Seq<Seq<char>>,
    reachv: Seq<Seq<char>>,
    planv: Seq<Seq<char>>,
    placedv: Seq<bool>,
    rs: Seq<Seq<char>>,
)
    requires
        placedv.len() == reachv.len(),
        forall|i: int, j: int|
            0 <= i < reachv.len() && 0 <= j < g.record_for(reachv[i]).deps@.len() ==> done.contains(
                #[trigger] g.record_for(reachv[i]).dep_key(j),
            ) || reachv.contains(g.record_for(reachv[i]).dep_key(j)),
        forall|i: int| 0 <= i < reachv.len() ==> placedv[i] == planv.contains(#[trigger] reachv[i]),
        forall|i: int|
            #![trigger placedv[i]]
            0 <= i < reachv.len() && !placedv[i] ==> exists|j: int|
                0 <= j < g.record_for(reachv[i]).deps@.len() && !done.contains(
                    #[trigger] g.record_for(reachv[i]).dep_key(j),
                ) && !planv.contains(g.record_for(reachv[i]).dep_key(j)),
        forall|x: Seq<char>| #[trigger] rs.contains(x) <==> (reachv.contains(x) && !planv.contains(x)),
    ensures
        forall|i: int|
            0 <= i < rs.len() ==> exists|j: int|
                0 <= j < g.record_for(#[trigger] rs[i]).deps@.len() && rs.contains(
                    g.record_for(rs[i]).dep_key(j),
                ),
{
    assert forall|i: int| 0 <= i < rs.len() implies exists|j: int|
        0 <= j < g.record_for(#[trigger] rs[i]).deps@.len() && rs.contains(
            g.record_for(rs[i]).dep_key(j),
        ) by {
        assert(rs.contains(rs[i]));
        assert(reachv.contains(rs[i]) && !planv.contains(rs[i]));
        let w = choose|w: int| 0 <= w < reachv.len() && reachv[w] == rs[i];
        assert(!placedv[w]);
        let j = choose|j: int|
            0 <= j < g.record_for(reachv[w]).deps@.len() && !done.contains(
                #[trigger] g.record_for(reachv[w]).dep_key(j),
            ) && !planv.contains(g.record_for(reachv[w]).dep_key(j));
        let t = g.record_for(rs[i]).dep_key(j);
        assert(done.contains(t) || reachv.contains(t));
        assert(reachv.contains(t));
        assert(rs.contains(t));
    }
}

/// At a stuck Kahn state the unplaced reachable modules certify a
/// static-import cycle.
#[verifier::spinoff_prover]
proof fn lemma_kahn_stuck(
    g: DependencyGraph,
    done: Seq<Seq<char>>,
    entry: Seq<char>,
    reachv: Seq<Seq<char>>,
    planv: Seq<Seq<char>>,
    placedv: Seq<bool>,
)
    requires
        placedv.len() == reachv.len(),
        planv.len() < reachv.len(),
        distinct(reachv),
        all_keys(g, reachv),
        forall|i: int| 0 <= i < reachv.len() ==> !done.contains(#[trigger] reachv[i]),
        forall|i: int| 0 <= i < reachv.len() ==> reaches(g, entry, #[trigger] reachv[i]),
        forall|i: int, j: int|
            0 <= i < reachv.len() && 0 <= j < g.record_for(reachv[i]).deps@.len() ==> done.contains(
                #[trigger] g.record_for(reachv[i]).dep_key(j),
            ) || reachv.contains(g.record_for(reachv[i]).dep_key(j)),
        forall|i: int| 0 <= i < reachv.len() ==> placedv[i] == planv.contains(#[trigger] reachv[i]),
        forall|i: int|
            #![trigger placedv[i]]
            0 <= i < reachv.len() && !placedv[i] ==> exists|j: int|
                0 <= j < g.record_for(reachv[i]).deps@.len() && !done.contains(
                    #[trigger] g.record_for(reachv[i]).dep_key(j),
                ) && !planv.contains(g.record_for(reachv[i]).dep_key(j)),
    ensures
        exists|rs: Seq<Seq<char>>| stuck_witness(g, done, entry, rs),
{
    if !(exists|i0: int| 0 <= i0 < reachv.len() && !placedv[i0]) {
        assert forall|i: int| 0 <= i < reachv.len() implies planv.contains(
            #[trigger] reachv[i]) by {
            assert(placedv[i]);
        }
        lemma_distinct_le(reachv, planv);
        assert(false);
    }
    let i0 = choose|i0: int| 0 <= i0 < reachv.len() && !placedv[i0];
    let rs = unplaced_of(reachv, planv);
    lemma_unplaced_of(reachv, planv);
    assert(reachv.contains(reachv[i0]));
    assert(rs.contains(reachv[i0]));
    assert(rs.len() > 0);
    assert forall|i: int| 0 <= i < rs.len() implies reachv.contains(#[trigger] rs[i]) by {
        assert(rs.contains(rs[i]));
    }
    lemma_stuck_members(g, done, entry, reachv, rs);
    lemma_stuck_successors(g, done, reachv, planv, placedv, rs);
    assert(stuck_witness(g, done, entry, rs));
}

/// When every reachable module was placed, the plan is valid for the
/// entry.
proof fn lemma_kahn_complete(
    g: DependencyGraph,
    done: Seq<Seq<char>>,
    entry: Seq<char>,
    reachv: Seq<Seq<char>>,
    planv: Seq<Seq<char>>,
    placedv: Seq<bool>,
)
    requires
        placedv.len() == reachv.len(),
        planv.len() == reachv.len(),
        reachv.len() >= 1,
        reachv[0] == entry,
        distinct(reachv),
        distinct(planv),
        all_keys(g, reachv),
        forall|i: int| 0 <= i < reachv.len() ==> !done.contains(#[trigger] reachv[i]),
        forall|i: int| 0 <= i < reachv.len() ==> reaches(g, entry, #[trigger] reachv[i]),
        forall|i: int| 0 <= i < reachv.len() ==> placedv[i] == planv.contains(#[trigger] reachv[i]),
        forall|w: int| 0 <= w < planv.len() ==> reachv.contains(#[trigger] planv[w]),
        forall|w: int, j: int|
            0 <= w < planv.len() && 0 <= j < g.record_for(planv[w]).deps@.len() ==> done.contains(
                #[trigger] g.record_for(planv[w]).dep_key(j),
            ) || planv.take(w).contains(g.record_for(planv[w]).dep_key(j)),
    ensures
        plan_valid(g, done, entry, planv),
        forall|i: int| 0 <= i < planv.len() ==> reaches(g, entry, #[trigger] planv[i]),
{
    assert forall|i: int| 0 <= i < reachv.len() implies placedv[i] by {
        if !placedv[i] {
            let x = reachv[i];
            assert(!planv.contains(x));
            let a = planv.push(x);
            assert forall|w: int, w2: int| 0 <= w < w2 < a.len() implies a[w] != a[w2] by {
                if w2 == a.len() - 1 && a[w] == x {
                    assert(planv[w] == x);
                    assert(planv.contains(x));
                }
            }
            assert forall|w: int| 0 <= w < a.len() implies reachv.contains(#[trigger] a[w]) by {
                if w < planv.len() {
                    assert(a[w] == planv[w]);
                } else {
                    assert(a[w] == x);
                    assert(reachv[i] == x);
                }
            }
            lemma_distinct_le(a, reachv);
            assert(false);
        }
    }
    assert(placedv[0]);
    assert(planv.contains(entry));
    assert forall|i: int|
        0 <= i < planv.len() implies g.contains_key(#[trigger] planv[i]) && !done.contains(
        planv[i]) && reaches(g, entry, planv[i]) by {
        let w = choose|w: int| 0 <= w < reachv.len() && reachv[w] == planv[i];
        assert(g.contains_key(reachv[w]));
        assert(!done.contains(reachv[w]));
        assert(reaches(g, entry, reachv[w]));
    }
}

/// Computes the order in which the engine must process the modules
/// the entry transitively imports and that are not in `done`:
/// dependencies strictly before dependents. `evaluating` selects the
/// error kind reported for an import cycle.
fn dependency_plan(
    table: &DependencyGraph,
    done: &Vec<String>,
    entry: &String,
    evaluating: bool,
) -> (r: Result<Vec<String>, HostError>)
    requires
        table.wf(),
        distinct(views(done@)),
        all_keys(*table, views(done@)),
        dep_closed(*table, views(done@)),
    ensures
        views(done@).contains(entry@) ==> r is Ok,
        match r {
            Ok(plan) => {
                &&& plan_valid(*table, views(done@), entry@, views(plan@))
                &&& (forall|i: int|
                    0 <= i < views(plan@).len() ==> reaches(
                        *table,
                        entry@,
                        #[trigger] views(plan@)[i],
                    ))
                &&& (views(done@).contains(entry@) ==> views(plan@) == Seq::<Seq<char>>::empty())
            },
            Err(e) => match e {
                HostError::GraphLookup(m) => missing_link(*table, views(done@), entry@) && (m@
                    == msg_missing_entry() || m@ == msg_missing_import()),
                HostError::Instantiate(m) => !evaluating && m@ == msg_cycle_instantiate() && (
                exists|rs: Seq<Seq<char>>| stuck_witness(*table, views(done@), entry@, rs)),
                HostError::Evaluate(m) => evaluating && m@ == msg_cycle_evaluate() && (exists|
                    rs: Seq<Seq<char>>,
                |
                    stuck_witness(*table, views(done@), entry@, rs)),
                _ => false,
            },
        },
{
    if holds_key(done, entry) {
        let plan: Vec<String> = Vec::new();
        proof {
            assert(views(plan@) =~= Seq::<Seq<char>>::empty());
        }
        return Ok(plan);
    }
    if !table.contains(entry) {
        return Err(
            HostError::GraphLookup(String::from_str("module record is missing from the graph")),
        );
    }
    let reach = match bfs_reach(table, done, entry) {
        Ok(reach) => reach,
        Err(e) => {
            return Err(e);
        },
    };
    kahn_order(table, done, entry, reach, evaluating)
}

impl RuntimeGraph {
    /// Plans `instantiate(source)`: the canonical specifiers the
    /// engine must compile and instantiate, every static dependency
    /// strictly before its dependent. A specifier that already has an
    /// instance yields the empty plan: instantiation is idempotent.
    /// `GraphLookup` reports a specifier or static import without a
    /// record; `Instantiate` reports a static-import cycle, for which
    /// no dependency order exists.
    pub fn initialize(&self, source: &String) -> (r: Result<Vec<String>, HostError>)
        requires
            self.wf(),
        ensures
            self.inst_keys().contains(source@) ==> r is Ok,
            match r {
                Ok(plan) => {
                    &&& plan_valid(self.graph(), self.inst_keys(), source@, views(plan@))
                    &&& (forall|i: int|
                        0 <= i < views(plan@).len() ==> reaches(
                            self.graph(),
                            source@,
                            #[trigger] views(plan@)[i],
                        ))
                    &&& (self.inst_keys().contains(source@) ==> views(plan@) == Seq::<
                        Seq<char>,
                    >::empty())
                },
                Err(e) => match e {
                    HostError::GraphLookup(m) => missing_link(
                        self.graph(),
                        self.inst_keys(),
                        source@,
                    ) && (m@ == msg_missing_entry() || m@ == msg_missing_import()),
                    HostError::Instantiate(m) => m@ == msg_cycle_instantiate() && (exists|
                        rs: Seq<Seq<char>>,
                    |
                        stuck_witness(self.graph(), self.inst_keys(), source@, rs)),
                    _ => false,
                },
            },
    {
        dependency_plan(&self.table.graph, &self.instantiated, source, false)
    }

    /// Plans `evaluate(source)`: the canonical specifiers whose
    /// instances the engine must evaluate, every static dependency
    /// strictly before its dependent, each exactly once (a specifier
    /// already evaluated yields the empty plan). Every planned
    /// specifier is checked to hold an instance; `GraphLookup` reports
    /// a missing record or instance, `Evaluate` a static-import cycle.
    pub fn evaluate(&self, source: &String) -> (r: Result<Vec<String>, HostError>)
        requires
            self.wf(),
        ensures
            self.eval_keys().contains(source@) ==> r is Ok,
            match r {
                Ok(plan) => {
                    &&& plan_valid(self.graph(), self.eval_keys(), source@, views(plan@))
                    &&& (forall|i: int|
                        0 <= i < views(plan@).len() ==> self.inst_keys().contains(
                            #[trigger] views(plan@)[i],
                        ))
                    &&& (self.eval_keys().contains(source@) ==> views(plan@) == Seq::<
                        Seq<char>,
                    >::empty())
                },
                Err(e) => match e {
                    HostError::GraphLookup(m) => (missing_link(
                        self.graph(),
                        self.eval_keys(),
                        source@,
                    ) || exists|x: Seq<char>|
                        reaches(self.graph(), source@, x) && !self.inst_keys().contains(x)) && (m@
                        == msg_missing_entry() || m@ == msg_missing_import() || m@
                        == msg_missing_instance()),
                    HostError::Evaluate(m) => m@ == msg_cycle_evaluate() && (exists|
                        rs: Seq<Seq<char>>,
                    |
                        stuck_witness(self.graph(), self.eval_keys(), source@, rs)),
                    _ => false,
                },
            },
    {
        proof {
            assert forall|i: int|
                0 <= i < self.eval_keys().len() implies self.graph().contains_key(
                #[trigger] self.eval_keys()[i]) by {
                let x = self.eval_keys()[i];
                assert(self.inst_keys().contains(x));
                let w = choose|w: int|
                    0 <= w < self.inst_keys().len() && self.inst_keys()[w] == x;
                assert(self.graph().contains_key(self.inst_keys()[w]));
            }
        }
        let plan = match dependency_plan(&self.table.graph, &self.evaluated, source, true) {
            Ok(plan) => plan,
            Err(e) => {
                return Err(e);
            },
        };
        let n = plan.len();
        let mut i: usize = 0;
        while i < n
            invariant
                n == plan@.len(),
                i <= n,
                forall|w: int|
                    0 <= w < i ==> self.inst_keys().contains(#[trigger] views(plan@)[w]),
                forall|w: int|
                    0 <= w < n ==> reaches(self.graph(), source@, #[trigger] views(plan@)[w]),
                self.eval_keys().contains(source@) ==> n == 0,
            decreases n - i,
        {
            if !holds_key(&self.instantiated, &plan[i]) {
                proof {
                    assert(!self.inst_keys().contains(views(plan@)[i as int]));
                    assert(reaches(self.graph(), source@, views(plan@)[i as int]));
                }
                return Err(
                    HostError::GraphLookup(
                        String::from_str("module to evaluate has no instance"),
                    ),
                );
            }
            i = i + 1;
        }
        Ok(plan)
    }
}

} // verus!
