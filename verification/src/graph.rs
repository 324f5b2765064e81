//! The dependency graph: a table of module records keyed by canonical
//! specifier, with unique keys. It is built by the crawler in
//! `builder` and read by the engine planner in `engine`.

use vstd::prelude::*;
use crate::resolver::resolve_spec;
use crate::resolver::views;

verus! {

/// Pairwise-distinct sequence of keys.
pub open spec fn distinct(s: Seq<Seq<char>>) -> bool {
    forall|i: int, j: int| 0 <= i < j < s.len() ==> s[i] != s[j]
}

/// Decides whether `k` is among the views of `v`.
pub fn holds_key(v: &Vec<String>, k: &String) -> (b: bool)
    ensures
        b == views(v@).contains(k@),
{
    let n = v.len();
    let mut i: usize = 0;
    while i < n
        invariant
            n == v@.len(),
            i <= n,
            forall|j: int| 0 <= j < i ==> views(v@)[j] != k@,
        decreases n - i,
    {
        if v[i] == *k {
            proof {
                assert(views(v@)[i as int] == k@);
            }
            return true;
        }
        i = i + 1;
    }
    false
}

/// One module record: the immutable result of loading and compiling a
/// module, tagged with its canonical specifier.
pub struct ModuleDependency {
    /// Statically imported specifiers, in source order (may repeat).
    pub deps: Vec<String>,
    /// Dynamically imported specifiers, informational only.
    pub async_deps: Vec<String>,
    /// Imported binding names seen by the compiler, informational only.
    pub specifiers: Vec<String>,
    /// Compiled source text, directly executable by the engine.
    pub source: String,
    /// Optional source map text.
    pub map: Option<String>,
    /// Canonical specifier: the record's unique key.
    pub filename: String,
    /// Whether this record is the entry module.
    pub is_main: bool,
}

impl ModuleDependency {
    /// The canonical key of the `j`-th static import: the raw specifier
    /// resolved against this record's own canonical specifier (which
    /// names a file).
    pub open spec fn dep_key(&self, j: int) -> Seq<char> {
        resolve_spec(self.deps@[j]@, self.filename@, true)
    }
}

/// Mapping from canonical specifier to module record; keys unique, no
/// deletion.
pub struct DependencyGraph {
    pub records: Vec<ModuleDependency>,
}

impl DependencyGraph {
    /// The canonical specifiers of the records, in insertion order.
    pub open spec fn keys(&self) -> Seq<Seq<char>> {
        self.records@.map_values(|r: ModuleDependency| r.filename@)
    }

    /// Keys are unique.
    pub open spec fn wf(&self) -> bool {
        forall|i: int, j: int|
            0 <= i < j < self.keys().len() ==> self.keys()[i] != self.keys()[j]
    }

    /// Whether `k` is a key of the table.
    pub open spec fn contains_key(&self, k: Seq<char>) -> bool {
        self.keys().contains(k)
    }

    /// The table is closed under static imports: every static import
    /// of every record resolves to a key of the table.
    pub open spec fn import_closed(&self) -> bool {
        forall|i: int, j: int|
            0 <= i < self.records@.len() && 0 <= j < self.records@[i].deps@.len()
                ==> self.contains_key(#[trigger] self.records@[i].dep_key(j))
    }

    /// The position of key `k` in the table.
    pub open spec fn key_index(&self, k: Seq<char>) -> int {
        choose|i: int| 0 <= i < self.keys().len() && self.keys()[i] == k
    }

    /// The record stored under key `k`.
    pub open spec fn record_for(&self, k: Seq<char>) -> ModuleDependency {
        self.records@[self.key_index(k)]
    }

    /// Under unique keys, `key_index` is the one position of `k`.
    pub proof fn lemma_key_index(&self, k: Seq<char>)
        requires
            self.wf(),
            self.contains_key(k),
        ensures
            0 <= self.key_index(k) < self.keys().len(),
            self.keys()[self.key_index(k)] == k,
            self.record_for(k).filename@ == k,
            forall|i: int|
                0 <= i < self.keys().len() && self.keys()[i] == k ==> i == self.key_index(k),
    {
        let w = choose|i: int| 0 <= i < self.keys().len() && self.keys()[i] == k;
        assert(self.keys()[w] == k);
    }

    /// Creates an empty graph.
    pub fn new() -> (g: DependencyGraph)
        ensures
            g.keys() =~= Seq::<Seq<char>>::empty(),
            g.wf(),
    {
        DependencyGraph { records: Vec::new() }
    }

    /// The number of records held.
    pub fn len(&self) -> (n: usize)
        ensures
            n == self.keys().len(),
    {
        self.records.len()
    }

    /// The record at position `i`, in insertion order.
    pub fn record_at(&self, i: usize) -> (r: &ModuleDependency)
        requires
            i < self.keys().len(),
        ensures
            *r == self.records@[i as int],
            r.filename@ == self.keys()[i as int],
    {
        &self.records[i]
    }

    /// Finds the position of `source` among the keys.
    pub fn index_of(&self, source: &String) -> (r: Option<usize>)
        ensures
            match r {
                Some(i) => i < self.keys().len() && self.keys()[i as int] == source@,
                None => !self.contains_key(source@),
            },
    {
        let n = self.records.len();
        let mut i: usize = 0;
        while i < n
            invariant
                n == self.keys().len(),
                i <= n,
                forall|j: int| 0 <= j < i ==> self.keys()[j] != source@,
            decreases n - i,
        {
            if self.records[i].filename == *source {
                return Some(i);
            }
            i = i + 1;
        }
        proof {
            assert(forall|j: int| 0 <= j < self.keys().len() ==> self.keys()[j] != source@);
        }
        None
    }

    /// Looks the record for `source` up; `None` exactly when `source`
    /// is not a key.
    pub fn get(&self, source: &String) -> (r: Option<&ModuleDependency>)
        requires
            self.wf(),
        ensures
            match r {
                Some(d) => self.contains_key(source@) && *d == self.record_for(source@)
                    && d.filename@ == source@,
                None => !self.contains_key(source@),
            },
    {
        match self.index_of(source) {
            Some(i) => {
                proof {
                    self.lemma_key_index(source@);
                }
                Some(&self.records[i])
            },
            None => None,
        }
    }

    /// Whether `source` is a key of the table.
    pub fn contains(&self, source: &String) -> (b: bool)
        ensures
            b == self.contains_key(source@),
    {
        match self.index_of(source) {
            Some(_) => true,
            None => false,
        }
    }

    /// Inserts a record under its canonical specifier; refused (returns
    /// `false`, table unchanged) when the key is already present.
    pub fn insert(&mut self, record: ModuleDependency) -> (added: bool)
        requires
            old(self).wf(),
        ensures
            final(self).wf(),
            added == !old(self).contains_key(record.filename@),
            added ==> final(self).keys() == old(self).keys().push(record.filename@)
                && final(self).records@ == old(self).records@.push(record),
            !added ==> *final(self) == *old(self),
    {
        let present = self.contains(&record.filename);
        if present {
            false
        } else {
            let ghost old_keys = self.keys();
            let ghost k = record.filename@;
            self.records.push(record);
            proof {
                assert(self.keys() =~= old_keys.push(k));
                assert forall|i: int, j: int|
                    0 <= i < j < self.keys().len() implies self.keys()[i] != self.keys()[j] by {
                    if j == self.keys().len() - 1 && self.keys()[i] == k {
                        assert(old_keys[i] == k);
                        assert(old_keys.contains(k));
                    }
                }
            }
            true
        }
    }
}

} // verus!
