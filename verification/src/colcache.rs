//! The maintained column indexes of a space.
//!
//! Each index carries the mutation generation up to which it is current. A
//! mutation of one fact is absorbed by the current indexes as one key; an index
//! that has fallen behind is rebuilt when it is next used.
use vstd::prelude::*;
use vstd::slice::{slice_subrange, slice_to_vec};

use crate::argindex::{
    arg_index_seek, build_arg_index, index_of, keys_restore_their_facts, permuted,
    permuted_fact_key, row_of, seek,
};
use crate::order::{has_prefix, same_bytes};
use crate::paths::{
    ascending, ascending_listing_is_unique, lemma_ascending_no_duplicates, lemma_has_a_place,
    lemma_insert_ascending, PathSet,
};
use crate::span::byte_rows;

verus! {

/// The index of one column of one relation, and the generation up to which it
/// is current.
#[derive(Debug)]
pub struct ColumnIndex {
    pub prefix: Vec<u8>,
    pub ncols: usize,
    pub pos: usize,
    pub keys: PathSet,
    pub gen: u64,
}

/// The model of a column index.
#[verifier::ext_equal]
pub struct IndexEntry {
    pub prefix: Seq<u8>,
    pub ncols: usize,
    pub pos: usize,
    pub keys: Set<Seq<u8>>,
    pub gen: u64,
}

impl View for ColumnIndex {
    type V = IndexEntry;

    open spec fn view(&self) -> IndexEntry {
        IndexEntry {
            prefix: self.prefix@,
            ncols: self.ncols,
            pos: self.pos,
            keys: self.keys@,
            gen: self.gen,
        }
    }
}

impl IndexEntry {
    /// The entry is the index of one column over some paths.
    pub open spec fn indexes(self, paths: Set<Seq<u8>>) -> bool {
        self.keys == index_of(paths, self.prefix, self.ncols as nat, self.pos as int)
    }

    /// The entry is about a column.
    pub open spec fn is_about(self, prefix: Seq<u8>, ncols: usize, pos: usize) -> bool {
        self.prefix == prefix && self.ncols == ncols && self.pos == pos
    }

    /// Both entries are about the same column.
    pub open spec fn same_column(self, other: IndexEntry) -> bool {
        self.is_about(other.prefix, other.ncols, other.pos)
    }

    /// The entry after one fact came (or went) in generation `gen`: a current
    /// entry of the fact's relation takes its key up (or drops it) and stays
    /// current, unless the fact does not split into the relation's columns; a
    /// current entry of another relation stays current; one that has fallen
    /// behind stays behind.
    pub open spec fn absorbing(self, fact: Seq<u8>, added: bool, gen: u64) -> IndexEntry {
        if self.gen != gen {
            self
        } else if self.prefix.is_prefix_of(fact) {
            match permuted(
                fact.skip(self.prefix.len() as int),
                self.ncols as nat,
                self.pos as int,
            ) {
                Some(k) => IndexEntry {
                    keys: if added {
                        self.keys.insert(k)
                    } else {
                        self.keys.remove(k)
                    },
                    gen: (gen + 1) as u64,
                    ..self
                },
                None => self,
            }
        } else {
            IndexEntry { gen: (gen + 1) as u64, ..self }
        }
    }
}

/// An index takes up the key of a fact that comes.
pub proof fn index_takes_up_a_fact(
    paths: Set<Seq<u8>>,
    fact: Seq<u8>,
    prefix: Seq<u8>,
    n: nat,
    pos: int,
)
    requires
        0 <= pos < n,
    ensures
        index_of(paths.insert(fact), prefix, n, pos) == if prefix.is_prefix_of(fact) && permuted(
            fact.skip(prefix.len() as int),
            n,
            pos,
        ) is Some {
            index_of(paths, prefix, n, pos).insert(
                permuted(fact.skip(prefix.len() as int), n, pos)->0,
            )
        } else {
            index_of(paths, prefix, n, pos)
        },
{
    let before = index_of(paths, prefix, n, pos);
    let after = index_of(paths.insert(fact), prefix, n, pos);
    let key = permuted(fact.skip(prefix.len() as int), n, pos);
    assert forall|k: Seq<u8>| #[trigger] after.contains(k) <==> (before.contains(k) || (
    prefix.is_prefix_of(fact) && key == Some(k))) by {
        if before.contains(k) {
            let f = choose|f: Seq<u8>| #[trigger]
                paths.contains(f) && prefix.is_prefix_of(f) && permuted(
                    f.skip(prefix.len() as int),
                    n,
                    pos,
                ) == Some(k);
            assert(paths.insert(fact).contains(f));
        }
        if prefix.is_prefix_of(fact) && key == Some(k) {
            assert(paths.insert(fact).contains(fact));
        }
        if after.contains(k) {
            let f = choose|f: Seq<u8>| #[trigger]
                paths.insert(fact).contains(f) && prefix.is_prefix_of(f) && permuted(
                    f.skip(prefix.len() as int),
                    n,
                    pos,
                ) == Some(k);
            if f != fact {
                assert(paths.contains(f));
            }
        }
    }
    if prefix.is_prefix_of(fact) && key is Some {
        assert(after =~= before.insert(key->0));
    } else {
        assert(after =~= before);
    }
}

/// Two facts of a relation with the same key are the same fact.
pub proof fn keys_tell_facts_apart(f: Seq<u8>, g: Seq<u8>, prefix: Seq<u8>, n: nat, pos: int)
    requires
        0 <= pos < n,
        prefix.is_prefix_of(f),
        prefix.is_prefix_of(g),
        permuted(f.skip(prefix.len() as int), n, pos) is Some,
        permuted(f.skip(prefix.len() as int), n, pos) == permuted(
            g.skip(prefix.len() as int),
            n,
            pos,
        ),
    ensures
        f == g,
{
    let (a, b) = (f.skip(prefix.len() as int), g.skip(prefix.len() as int));
    keys_restore_their_facts(a, n, pos);
    keys_restore_their_facts(b, n, pos);
    assert(f =~= prefix + a);
    assert(g =~= prefix + b);
}

/// An index drops the key of a fact that goes.
pub proof fn index_drops_a_fact(
    paths: Set<Seq<u8>>,
    fact: Seq<u8>,
    prefix: Seq<u8>,
    n: nat,
    pos: int,
)
    requires
        0 <= pos < n,
    ensures
        index_of(paths.remove(fact), prefix, n, pos) == if prefix.is_prefix_of(fact) && permuted(
            fact.skip(prefix.len() as int),
            n,
            pos,
        ) is Some {
            index_of(paths, prefix, n, pos).remove(
                permuted(fact.skip(prefix.len() as int), n, pos)->0,
            )
        } else {
            index_of(paths, prefix, n, pos)
        },
{
    let before = index_of(paths, prefix, n, pos);
    let after = index_of(paths.remove(fact), prefix, n, pos);
    let key = permuted(fact.skip(prefix.len() as int), n, pos);
    assert forall|k: Seq<u8>| #[trigger] after.contains(k) <==> (before.contains(k) && !(
    prefix.is_prefix_of(fact) && key == Some(k))) by {
        if after.contains(k) {
            let f = choose|f: Seq<u8>| #[trigger]
                paths.remove(fact).contains(f) && prefix.is_prefix_of(f) && permuted(
                    f.skip(prefix.len() as int),
                    n,
                    pos,
                ) == Some(k);
            assert(paths.contains(f));
            if prefix.is_prefix_of(fact) && key == Some(k) {
                keys_tell_facts_apart(f, fact, prefix, n, pos);
            }
        }
        if before.contains(k) && !(prefix.is_prefix_of(fact) && key == Some(k)) {
            let f = choose|f: Seq<u8>| #[trigger]
                paths.contains(f) && prefix.is_prefix_of(f) && permuted(
                    f.skip(prefix.len() as int),
                    n,
                    pos,
                ) == Some(k);
            assert(paths.remove(fact).contains(f));
        }
    }
    if prefix.is_prefix_of(fact) && key is Some {
        assert(after =~= before.remove(key->0));
    } else {
        assert(after =~= before);
    }
}

/// A current index that absorbs a mutation is the index that a rebuild would
/// give.
pub proof fn absorbed_indexes_equal_rebuilt_ones(
    e: IndexEntry,
    paths: Set<Seq<u8>>,
    fact: Seq<u8>,
    added: bool,
    gen: u64,
)
    requires
        e.pos < e.ncols,
        gen < u64::MAX,
        e.gen == gen,
        e.indexes(paths),
        e.absorbing(fact, added, gen).gen == gen + 1,
    ensures
        e.absorbing(fact, added, gen).indexes(
            if added {
                paths.insert(fact)
            } else {
                paths.remove(fact)
            },
        ),
{
    let (n, pos) = (e.ncols as nat, e.pos as int);
    if added {
        index_takes_up_a_fact(paths, fact, e.prefix, n, pos);
    } else {
        index_drops_a_fact(paths, fact, e.prefix, n, pos);
    }
}

/// The models of some indexes.
pub open spec fn index_entries(v: Seq<ColumnIndex>) -> Seq<IndexEntry> {
    Seq::new(v.len(), |i: int| v[i]@)
}

/// The ascending listing of a set of paths.
pub open spec fn listing(s: Set<Seq<u8>>) -> Seq<Seq<u8>> {
    choose|rows: Seq<Seq<u8>>| ascending(rows) && rows.to_set() == s
}

/// A path set's rows are the listing of what it holds.
pub proof fn lemma_listing(s: PathSet)
    requires
        s.wf(),
    ensures
        listing(s@) == s.rows(),
{
    assert(ascending(s.rows()) && s.rows().to_set() == s@);
    let chosen = listing(s@);
    assert(ascending(chosen) && chosen.to_set() == s@);
    ascending_listing_is_unique(chosen, s.rows());
}

/// A finite set of paths has an ascending listing.
proof fn lemma_can_be_listed(s: Set<Seq<u8>>) -> (rows: Seq<Seq<u8>>)
    requires
        s.finite(),
    ensures
        ascending(rows),
        rows.to_set() == s,
    decreases s.len(),
{
    if s.len() == 0 {
        let rows = Seq::<Seq<u8>>::empty();
        assert(s =~= Set::empty());
        assert(rows.to_set() =~= s);
        rows
    } else {
        let p = s.choose();
        let rest = lemma_can_be_listed(s.remove(p));
        let i = lemma_has_a_place(rest, p);
        if rest.contains(p) {
            assert(rest.to_set().contains(p));
        }
        lemma_insert_ascending(rest, p, i);
        assert(s.remove(p).insert(p) =~= s);
        rest.insert(i, p)
    }
}

/// The listing of a finite set lists its paths in ascending order, each once.
pub proof fn lemma_listing_lists(s: Set<Seq<u8>>)
    requires
        s.finite(),
    ensures
        ascending(listing(s)),
        listing(s).to_set() == s,
        listing(s).len() == s.len(),
        listing(s).no_duplicates(),
{
    let rows = lemma_can_be_listed(s);
    assert(ascending(rows) && rows.to_set() == s);
    lemma_ascending_no_duplicates(listing(s));
}

/// The index of a column over finitely many paths is finite.
pub proof fn lemma_index_is_finite(paths: Set<Seq<u8>>, prefix: Seq<u8>, n: nat, pos: int)
    requires
        paths.finite(),
        0 <= pos < n,
    ensures
        index_of(paths, prefix, n, pos).finite(),
    decreases paths.len(),
{
    if paths.len() == 0 {
        assert(paths =~= Set::empty());
        assert(index_of(paths, prefix, n, pos) =~= Set::empty());
    } else {
        let f = paths.choose();
        lemma_index_is_finite(paths.remove(f), prefix, n, pos);
        index_takes_up_a_fact(paths.remove(f), f, prefix, n, pos);
        assert(paths.remove(f).insert(f) =~= paths);
    }
}

impl ColumnIndex {
    /// The keys are in order, and the column is one of the relation's.
    pub open spec fn wf(&self) -> bool {
        self.keys.wf() && self.pos < self.ncols
    }

    /// Builds the index of a column.
    pub fn build(paths: &PathSet, prefix: &[u8], ncols: usize, pos: usize, gen: u64) -> (r:
        ColumnIndex)
        requires
            paths.wf(),
            pos < ncols,
        ensures
            r.wf(),
            r@.is_about(prefix@, ncols, pos),
            r@.indexes(paths@),
            r@.gen == gen,
    {
        let keys = build_arg_index(paths, prefix, ncols, pos);
        ColumnIndex { prefix: slice_to_vec(prefix), ncols, pos, keys, gen }
    }

    /// Whether the index is about a column.
    pub fn is_about(&self, prefix: &[u8], ncols: usize, pos: usize) -> (r: bool)
        ensures
            r == self@.is_about(prefix@, ncols, pos),
    {
        self.ncols == ncols && self.pos == pos && same_bytes(self.prefix.as_slice(), prefix)
    }

    /// The index after one fact came or went in generation `gen`.
    pub fn absorb(self, fact: &[u8], added: bool, gen: u64) -> (r: ColumnIndex)
        requires
            self.wf(),
            gen < u64::MAX,
        ensures
            r.wf(),
            r@ == self@.absorbing(fact@, added, gen),
    {
        if self.gen != gen {
            return self;
        }
        let mut out = self;
        if has_prefix(fact, out.prefix.as_slice()) {
            let rest = slice_subrange(fact, out.prefix.len(), fact.len());
            proof {
                assert(rest@ =~= fact@.skip(out.prefix@.len() as int));
            }
            match permuted_fact_key(rest, out.ncols, out.pos) {
                Some(key) => {
                    if added {
                        let _ = out.keys.insert(key.as_slice());
                    } else {
                        let _ = out.keys.remove(key.as_slice());
                    }
                    out.gen = gen + 1;
                },
                None => {},
            }
        } else {
            out.gen = gen + 1;
        }
        out
    }

    /// The facts of the column's relation whose column has the value.
    pub fn seek(&self, value: &[u8]) -> (r: Vec<Vec<u8>>)
        requires
            self.wf(),
        ensures
            byte_rows(r@) == seek(
                listing(self@.keys),
                self@.prefix,
                self@.ncols as nat,
                self@.pos as int,
                value@,
            ),
    {
        proof {
            lemma_listing(self.keys);
        }
        arg_index_seek(&self.keys, self.prefix.as_slice(), self.ncols, self.pos, value)
    }

    /// A copy of the index.
    pub fn duplicate(&self) -> (r: ColumnIndex)
        requires
            self.wf(),
        ensures
            r.wf(),
            r@ == self@,
    {
        ColumnIndex {
            prefix: slice_to_vec(self.prefix.as_slice()),
            ncols: self.ncols,
            pos: self.pos,
            keys: self.keys.duplicate(),
            gen: self.gen,
        }
    }
}

/// Copies of some indexes.
pub fn clone_indexes(v: &Vec<ColumnIndex>) -> (r: Vec<ColumnIndex>)
    requires
        forall|i: int| 0 <= i < v@.len() ==> (#[trigger] v@[i]).wf(),
    ensures
        forall|i: int| 0 <= i < r@.len() ==> (#[trigger] r@[i]).wf(),
        index_entries(r@) == index_entries(v@),
{
    let mut out: Vec<ColumnIndex> = Vec::new();
    let mut i: usize = 0;
    while i < v.len()
        invariant
            i <= v@.len(),
            forall|i: int| 0 <= i < v@.len() ==> (#[trigger] v@[i]).wf(),
            out@.len() == i,
            forall|j: int| 0 <= j < i ==> (#[trigger] out@[j]).wf() && out@[j]@ == v@[j]@,
        decreases v@.len() - i,
    {
        out.push(v[i].duplicate());
        i = i + 1;
    }
    proof {
        assert(index_entries(out@) =~= index_entries(v@));
    }
    out
}

/// A current index stays current through a mutation, unless the fact is of its relation
/// and does not split into the relation's columns; one that has fallen behind stays as
/// it is. An index is always about its column.
pub proof fn current_indexes_stay_current(e: IndexEntry, fact: Seq<u8>, added: bool, gen: u64)
    requires
        gen < u64::MAX,
    ensures
        ({
            let after = e.absorbing(fact, added, gen);
            let splits = row_of(fact.skip(e.prefix.len() as int), e.ncols as nat) is Some;
            &&& e.gen == gen && (!e.prefix.is_prefix_of(fact) || splits) ==> after.gen == gen + 1
            &&& e.gen != gen || (e.prefix.is_prefix_of(fact) && !splits) ==> after == e
            &&& after.prefix == e.prefix && after.ncols == e.ncols && after.pos == e.pos
        }),
{
}

} // verus!
