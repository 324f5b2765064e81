//! The cooperative scheduler: a single run-queue of pending
//! asynchronous jobs, drained to exhaustion, plus the dynamic-import
//! gateway and the per-job state machine that turns engine events into
//! the next synchronous action. The shell performs the actions (timer
//! waits, loads, engine calls) and feeds the outcomes back.

use vstd::prelude::*;
use vstd::string::*;
use crate::engine::missing_link;
use crate::engine::msg_cycle_evaluate;
use crate::engine::msg_cycle_instantiate;
use crate::engine::msg_missing_entry;
use crate::engine::msg_missing_import;
use crate::engine::msg_missing_instance;
use crate::engine::plan_valid;
use crate::engine::reaches;
use crate::engine::stuck_witness;
use crate::engine::RuntimeGraph;
use crate::errors::HostError;
use crate::resolver::resolve;
use crate::resolver::resolve_spec;
use crate::resolver::views;
use crate::textnum::dec_spec;
use crate::textnum::u32_to_decimal;

verus! {

/// A queued unit of deferred work: a registered timer-style callback
/// to fire, by its opaque numeric token, or a dynamic import awaiting
/// resolution, by its canonical specifier and the slot of the
/// deferred-result handle to settle.
#[derive(Debug)]
pub enum AsynchronousKind {
    Operation(u32),
    Import(String, usize),
}

/// Where a dynamic-import job stands.
#[derive(Debug, PartialEq, Eq)]
pub enum ImportPhase {
    Fresh,
    Appending,
    Instantiating,
    Evaluating,
    Settled,
}

/// One dynamic-import job: the canonical specifier requested, the slot
/// of the deferred handle to settle, and the phase reached.
#[derive(Debug)]
pub struct ImportJob {
    pub specifier: String,
    pub resolver: usize,
    pub phase: ImportPhase,
}

/// The next synchronous action the shell must perform for a job.
#[derive(Debug)]
pub enum ImportStep {
    /// Extend the dependency graph by a crawl from this specifier.
    Append(String),
    /// Compile, identity-register and instantiate these modules, in
    /// this order.
    Instantiate(Vec<String>),
    /// Evaluate the instances of these modules, in this order.
    Evaluate(Vec<String>),
    /// Settle the deferred handle in this slot with the namespace
    /// object of this specifier.
    Resolve(usize, String),
    /// Settle the deferred handle in this slot with a rejection
    /// carrying this diagnostic text.
    Reject(usize, String),
}

/// What the scheduler must do for one dequeued operation.
#[derive(Debug)]
pub enum ExecAction {
    /// Compile and run this trampoline script, under this name then
    /// this source.
    RunScript(String, String),
    /// Drive this dynamic-import job to settlement.
    RunImport(ImportJob),
}

/// The diagnostic reported when a dynamically imported specifier is
/// still absent from the graph after the extension step.
pub open spec fn msg_not_in_graph() -> Seq<char> {
    "dynamically imported module is not in the graph"@
}

/// The index of the first `true` flag, if any.
pub open spec fn first_ready(s: Seq<bool>) -> Option<int>
    decreases s.len(),
{
    if s.len() == 0 {
        Option::None
    } else if s[0] {
        Option::Some(0int)
    } else {
        match first_ready(s.drop_first()) {
            Option::Some(i) => Option::Some(i + 1),
            Option::None => Option::None,
        }
    }
}

/// `first_ready` returns the least ready index: the flag there is set
/// and no earlier one is; `None` exactly when no flag is set. Readiness
/// alone decides which job runs first, not submission order.
pub proof fn lemma_first_ready_props(s: Seq<bool>)
    ensures
        match first_ready(s) {
            Option::Some(i) => 0 <= i < s.len() && s[i] && (forall|k: int| 0 <= k < i ==> !s[k]),
            Option::None => forall|k: int| 0 <= k < s.len() ==> !s[k],
        },
    decreases s.len(),
{
    if s.len() > 0 && !s[0] {
        lemma_first_ready_props(s.drop_first());
        match first_ready(s.drop_first()) {
            Option::Some(i) => {
                assert forall|k: int| 0 <= k < i + 1 implies !s[k] by {
                    if k > 0 {
                        assert(s.drop_first()[k - 1] == s[k]);
                    }
                }
                assert(s.drop_first()[i] == s[i + 1]);
            },
            Option::None => {
                assert forall|k: int| 0 <= k < s.len() implies !s[k] by {
                    if k > 0 {
                        assert(s.drop_first()[k - 1] == s[k]);
                    }
                }
            },
        }
    }
}

/// A set flag with no set flag before it is the one `first_ready`
/// finds.
proof fn lemma_first_ready_at(s: Seq<bool>, i: int)
    requires
        0 <= i < s.len(),
        s[i],
        forall|k: int| 0 <= k < i ==> !s[k],
    ensures
        first_ready(s) == Option::Some(i),
    decreases i,
{
    if i > 0 {
        assert(!s[0]);
        assert forall|k: int| 0 <= k < i - 1 implies !s.drop_first()[k] by {
            assert(s.drop_first()[k] == s[k + 1]);
        }
        assert(s.drop_first()[i - 1] == s[i]);
        lemma_first_ready_at(s.drop_first(), i - 1);
    }
}

/// With no flag set, `first_ready` finds nothing.
proof fn lemma_first_ready_none(s: Seq<bool>)
    requires
        forall|k: int| 0 <= k < s.len() ==> !s[k],
    ensures
        first_ready(s) is None,
    decreases s.len(),
{
    if s.len() > 0 {
        assert forall|k: int| 0 <= k < s.drop_first().len() implies !s.drop_first()[k] by {
            assert(s.drop_first()[k] == s[k + 1]);
        }
        lemma_first_ready_none(s.drop_first());
    }
}

/// Whether a timer enqueued at `enqueued_at` with delay `delay` is due
/// at `now`: a job fires no earlier than its configured delay has
/// elapsed.
pub fn is_due(now: u64, enqueued_at: u64, delay: u64) -> (b: bool)
    ensures
        b == (now as int >= enqueued_at as int + delay as int),
{
    match enqueued_at.checked_add(delay) {
        Some(deadline) => now >= deadline,
        None => false,
    }
}

/// The scheduler's state: the run-queue of pending operations and the
/// count of deferred-result handles ever created (each dynamic import
/// takes the next slot; the shell owns the handles themselves).
pub struct RuntimeState {
    /// The run-queue of pending operations.
    pub pending_ops: Vec<AsynchronousKind>,
    /// How many deferred-result slots exist.
    pub resolvers: usize,
}

impl RuntimeState {
    /// A fresh scheduler with an empty run-queue.
    pub fn new() -> (st: RuntimeState)
        ensures
            st.pending_ops@ =~= Seq::<AsynchronousKind>::empty(),
            st.resolvers == 0,
    {
        RuntimeState { pending_ops: Vec::new(), resolvers: 0 }
    }

    /// The run is done exactly when the run-queue is empty; the loop
    /// then terminates with success however often the queue was filled
    /// and drained before.
    pub fn run_done(&self) -> (b: bool)
        ensures
            b == (self.pending_ops@.len() == 0),
    {
        self.pending_ops.len() == 0
    }

    /// Enqueues a timer-style operation token.
    pub fn enqueue_operation(&mut self, id: u32)
        ensures
            final(self).pending_ops@ == old(self).pending_ops@.push(
                AsynchronousKind::Operation(id),
            ),
            final(self).resolvers == old(self).resolvers,
    {
        self.pending_ops.push(AsynchronousKind::Operation(id));
    }

    /// The dynamic import gateway: called when script code requests a
    /// dynamic import of `source` from the module whose canonical
    /// specifier is `resource`. Takes the next deferred-result slot,
    /// enqueues the import under the resolved canonical specifier, and
    /// returns the slot at once; nothing blocks.
    pub fn dynamically_import(&mut self, source: &String, resource: &String) -> (id: usize)
        requires
            old(self).resolvers < usize::MAX,
        ensures
            id == old(self).resolvers,
            final(self).resolvers == old(self).resolvers + 1,
            final(self).pending_ops@.len() == old(self).pending_ops@.len() + 1,
            final(self).pending_ops@.drop_last() == old(self).pending_ops@,
            match final(self).pending_ops@.last() {
                AsynchronousKind::Import(s, rid) => s@ == resolve_spec(source@, resource@, true)
                    && rid == id,
                AsynchronousKind::Operation(_) => false,
            },
    {
        let id = self.resolvers;
        self.resolvers = self.resolvers + 1;
        let url = resolve(source, resource, true);
        self.pending_ops.push(AsynchronousKind::Import(url, id));
        proof {
            assert(self.pending_ops@.drop_last() =~= old(self).pending_ops@);
        }
        id
    }

    /// Removes and returns the first pending operation whose readiness
    /// flag is set; `ready` holds one flag per queue entry, as the
    /// shell observed them. No order is promised between operations
    /// beyond "whichever is ready first in queue position runs".
    pub fn take_first_ready(&mut self, ready: &Vec<bool>) -> (r: Option<AsynchronousKind>)
        requires
            ready@.len() == old(self).pending_ops@.len(),
        ensures
            final(self).resolvers == old(self).resolvers,
            match r {
                Some(op) => {
                    &&& first_ready(ready@) matches Option::Some(i)
                        && 0 <= i < old(self).pending_ops@.len()
                        && op == old(self).pending_ops@[i]
                        && final(self).pending_ops@ == old(self).pending_ops@.remove(i)
                },
                None => *final(self) == *old(self) && first_ready(ready@) is None,
            },
    {
        let n = ready.len();
        let mut i: usize = 0;
        while i < n
            invariant
                n == ready@.len(),
                n == self.pending_ops@.len(),
                *self == *old(self),
                i <= n,
                forall|k: int| 0 <= k < i ==> !ready@[k],
            decreases n - i,
        {
            if ready[i] {
                proof {
                    lemma_first_ready_at(ready@, i as int);
                }
                let op = self.pending_ops.remove(i);
                return Some(op);
            }
            i = i + 1;
        }
        proof {
            lemma_first_ready_none(ready@);
        }
        None
    }
}

/// The view of the trampoline script name for operation token `n`:
/// `<n>.js`.
pub open spec fn trampoline_name(n: nat) -> Seq<char> {
    dec_spec(n) + seq!['.', 'j', 's']
}

/// The view of the trampoline script source for operation token `n`:
/// `globalThis.exec(<n>);`. The well-known global dispatcher looks the
/// registered callback up by its token; the host replays only tokens.
pub open spec fn trampoline_src(n: nat) -> Seq<char> {
    seq![
        'g',
        'l',
        'o',
        'b',
        'a',
        'l',
        'T',
        'h',
        'i',
        's',
        '.',
        'e',
        'x',
        'e',
        'c',
        '(',
    ] + dec_spec(n) + seq![')', ';']
}

impl AsynchronousKind {
    /// Decides what the scheduler must do for this operation: a timer
    /// token becomes its trampoline script, a dynamic import becomes a
    /// fresh import job.
    pub fn exec(&self) -> (a: ExecAction)
        ensures
            match self {
                AsynchronousKind::Operation(id) => match a {
                    ExecAction::RunScript(name, src) => name@ == trampoline_name(*id as nat)
                        && src@ == trampoline_src(*id as nat),
                    ExecAction::RunImport(_) => false,
                },
                AsynchronousKind::Import(s, rid) => match a {
                    ExecAction::RunImport(job) => job.specifier@ == s@ && job.resolver == rid
                        && job.phase == ImportPhase::Fresh,
                    ExecAction::RunScript(_, _) => false,
                },
            },
    {
        match self {
            AsynchronousKind::Operation(id) => {
                let digits = u32_to_decimal(*id);
                let mut name = digits.clone();
                name.append(".js");
                let mut src = String::from_str("globalThis.exec(");
                src.append(digits.as_str());
                src.append(");");
                proof {
                    reveal_strlit(".js");
                    reveal_strlit("globalThis.exec(");
                    reveal_strlit(");");
                    assert(".js"@ =~= seq!['.', 'j', 's']);
                    assert("globalThis.exec("@ =~= seq![
                        'g',
                        'l',
                        'o',
                        'b',
                        'a',
                        'l',
                        'T',
                        'h',
                        'i',
                        's',
                        '.',
                        'e',
                        'x',
                        'e',
                        'c',
                        '(',
                    ]);
                    assert(");"@ =~= seq![')', ';']);
                    assert(name@ =~= trampoline_name(*id as nat));
                    assert(src@ =~= trampoline_src(*id as nat));
                }
                ExecAction::RunScript(name, src)
            },
            AsynchronousKind::Import(s, rid) => {
                ExecAction::RunImport(
                    ImportJob { specifier: s.clone(), resolver: *rid, phase: ImportPhase::Fresh },
                )
            },
        }
    }
}

impl ImportJob {
    /// Starts the job: a specifier absent from the graph is appended
    /// first (exactly one graph extension); one already present goes
    /// straight to instantiation planning. A planning failure settles
    /// the handle with a rejection at once.
    pub fn start(&mut self, rg: &RuntimeGraph) -> (step: ImportStep)
        requires
            rg.wf(),
            old(self).phase == ImportPhase::Fresh,
        ensures
            final(self).specifier == old(self).specifier,
            final(self).resolver == old(self).resolver,
            match step {
                ImportStep::Append(s) => {
                    &&& !rg.graph().contains_key(old(self).specifier@)
                    &&& s@ == old(self).specifier@
                    &&& final(self).phase == ImportPhase::Appending
                },
                ImportStep::Instantiate(plan) => {
                    &&& rg.graph().contains_key(old(self).specifier@)
                    &&& plan_valid(rg.graph(), rg.inst_keys(), old(self).specifier@, views(plan@))
                    &&& (rg.inst_keys().contains(old(self).specifier@) ==> views(plan@) == Seq::<
                        Seq<char>,
                    >::empty())
                    &&& final(self).phase == ImportPhase::Instantiating
                },
                ImportStep::Reject(rid, m) => {
                    &&& rid == old(self).resolver
                    &&& final(self).phase == ImportPhase::Settled
                    &&& rg.graph().contains_key(old(self).specifier@)
                    &&& (missing_link(rg.graph(), rg.inst_keys(), old(self).specifier@) || exists|
                        rs: Seq<Seq<char>>,
                    |
                        stuck_witness(rg.graph(), rg.inst_keys(), old(self).specifier@, rs))
                    &&& (m@ == msg_missing_entry() || m@ == msg_missing_import() || m@
                        == msg_cycle_instantiate())
                },
                _ => false,
            },
    {
        if !rg.table.graph.contains(&self.specifier) {
            self.phase = ImportPhase::Appending;
            return ImportStep::Append(self.specifier.clone());
        }
        match rg.initialize(&self.specifier) {
            Ok(plan) => {
                self.phase = ImportPhase::Instantiating;
                ImportStep::Instantiate(plan)
            },
            Err(e) => {
                self.phase = ImportPhase::Settled;
                ImportStep::Reject(self.resolver, e.message().clone())
            },
        }
    }

    /// Takes the outcome of the graph extension. Any load or compile
    /// failure settles only this import's handle with a rejection — the
    /// scheduler and its other jobs are untouched. On success the job
    /// moves on to instantiation planning.
    pub fn appended(&mut self, rg: &RuntimeGraph, outcome: Result<(), HostError>) -> (step:
        ImportStep)
        requires
            rg.wf(),
            old(self).phase == ImportPhase::Appending,
        ensures
            final(self).specifier == old(self).specifier,
            final(self).resolver == old(self).resolver,
            outcome is Err ==> step matches ImportStep::Reject(_, _),
            (outcome is Ok && rg.graph().contains_key(old(self).specifier@) && !missing_link(
                rg.graph(),
                rg.inst_keys(),
                old(self).specifier@,
            ) && !(exists|rs: Seq<Seq<char>>|
                stuck_witness(rg.graph(), rg.inst_keys(), old(self).specifier@, rs)))
                ==> step matches ImportStep::Instantiate(_),
            match step {
                ImportStep::Instantiate(plan) => {
                    &&& outcome is Ok
                    &&& rg.graph().contains_key(old(self).specifier@)
                    &&& plan_valid(rg.graph(), rg.inst_keys(), old(self).specifier@, views(plan@))
                    &&& (rg.inst_keys().contains(old(self).specifier@) ==> views(plan@) == Seq::<
                        Seq<char>,
                    >::empty())
                    &&& final(self).phase == ImportPhase::Instantiating
                },
                ImportStep::Reject(rid, m) => {
                    &&& rid == old(self).resolver
                    &&& final(self).phase == ImportPhase::Settled
                    &&& (match outcome {
                        Err(e) => m@ == e.spec_message(),
                        Ok(()) => m@ == msg_not_in_graph() || m@ == msg_missing_entry() || m@
                            == msg_missing_import() || m@ == msg_cycle_instantiate(),
                    })
                },
                _ => false,
            },
    {
        match outcome {
            Err(e) => {
                self.phase = ImportPhase::Settled;
                ImportStep::Reject(self.resolver, e.message().clone())
            },
            Ok(()) => {
                if !rg.table.graph.contains(&self.specifier) {
                    self.phase = ImportPhase::Settled;
                    return ImportStep::Reject(
                        self.resolver,
                        String::from_str("dynamically imported module is not in the graph"),
                    );
                }
                match rg.initialize(&self.specifier) {
                    Ok(plan) => {
                        self.phase = ImportPhase::Instantiating;
                        ImportStep::Instantiate(plan)
                    },
                    Err(e) => {
                        self.phase = ImportPhase::Settled;
                        ImportStep::Reject(self.resolver, e.message().clone())
                    },
                }
            },
        }
    }

    /// Takes the outcome of instantiating the planned modules (an
    /// engine diagnostic on failure). Success moves on to evaluation
    /// planning; any failure settles the handle with a rejection.
    pub fn instantiated(&mut self, rg: &RuntimeGraph, outcome: Result<(), String>) -> (step:
        ImportStep)
        requires
            rg.wf(),
            old(self).phase == ImportPhase::Instantiating,
        ensures
            final(self).specifier == old(self).specifier,
            final(self).resolver == old(self).resolver,
            outcome is Err ==> step matches ImportStep::Reject(_, _),
            (outcome is Ok && !missing_link(rg.graph(), rg.eval_keys(), old(self).specifier@) && !(
            exists|x: Seq<char>|
                reaches(rg.graph(), old(self).specifier@, x) && !rg.inst_keys().contains(x)) && !(
            exists|rs: Seq<Seq<char>>|
                stuck_witness(rg.graph(), rg.eval_keys(), old(self).specifier@, rs)))
                ==> step matches ImportStep::Evaluate(_),
            match step {
                ImportStep::Evaluate(plan) => {
                    &&& outcome is Ok
                    &&& plan_valid(rg.graph(), rg.eval_keys(), old(self).specifier@, views(plan@))
                    &&& (forall|i: int|
                        0 <= i < views(plan@).len() ==> rg.inst_keys().contains(
                            #[trigger] views(plan@)[i],
                        ))
                    &&& (rg.eval_keys().contains(old(self).specifier@) ==> views(plan@) == Seq::<
                        Seq<char>,
                    >::empty())
                    &&& final(self).phase == ImportPhase::Evaluating
                },
                ImportStep::Reject(rid, m) => {
                    &&& rid == old(self).resolver
                    &&& final(self).phase == ImportPhase::Settled
                    &&& (match outcome {
                        Err(em) => m == em,
                        Ok(()) => m@ == msg_missing_entry() || m@ == msg_missing_import() || m@
                            == msg_missing_instance() || m@ == msg_cycle_evaluate(),
                    })
                },
                _ => false,
            },
    {
        match outcome {
            Err(m) => {
                self.phase = ImportPhase::Settled;
                ImportStep::Reject(self.resolver, m)
            },
            Ok(()) => {
                match rg.evaluate(&self.specifier) {
                    Ok(plan) => {
                        self.phase = ImportPhase::Evaluating;
                        ImportStep::Evaluate(plan)
                    },
                    Err(e) => {
                        self.phase = ImportPhase::Settled;
                        ImportStep::Reject(self.resolver, e.message().clone())
                    },
                }
            },
        }
    }

    /// Takes the outcome of evaluating the planned modules. Success
    /// settles the deferred handle with the namespace object of the
    /// imported module; failure settles it with a rejection.
    pub fn evaluated(&mut self, outcome: Result<(), String>) -> (step: ImportStep)
        requires
            old(self).phase == ImportPhase::Evaluating,
        ensures
            final(self).specifier == old(self).specifier,
            final(self).resolver == old(self).resolver,
            final(self).phase == ImportPhase::Settled,
            match step {
                ImportStep::Resolve(rid, s) => {
                    &&& outcome is Ok
                    &&& rid == old(self).resolver
                    &&& s@ == old(self).specifier@
                },
                ImportStep::Reject(rid, m) => {
                    &&& outcome matches Err(em) && m == em
                    &&& rid == old(self).resolver
                },
                _ => false,
            },
    {
        self.phase = ImportPhase::Settled;
        match outcome {
            Ok(()) => ImportStep::Resolve(self.resolver, self.specifier.clone()),
            Err(m) => ImportStep::Reject(self.resolver, m),
        }
    }
}

} // verus!
