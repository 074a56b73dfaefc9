//! Sharded spaces, for sweeps over everything at once.
use std::collections::hash_map::DefaultHasher;
use std::hash::Hasher;
use vstd::bytes::{spec_u64_to_le_bytes, u64_to_le_bytes};
use vstd::prelude::*;
use vstd::slice::slice_to_vec;
use vstd::std_specs::hash::DefaultHasherAdditionalSpecFns;

use crate::atom::{Atom, Term, VariableAtom};
use crate::encode::{encode_atom, variables, wildcards, GroundedSink};
use crate::paths::PathSet;
use crate::pattern::{pattern_of, pattern_tree, wrap_pattern};
use crate::space::{stored_value_path, MAX_VARIABLES};
use crate::tree::flat;

verus! {

/// The hash by which a path finds its shard: of its length and its bytes.
pub open spec fn path_hash(path: Seq<u8>) -> u64 {
    DefaultHasher::spec_finish(
        Seq::<Seq<u8>>::empty().push(spec_u64_to_le_bytes(path.len() as u64)).push(path),
    )
}

/// The shard of a path among `n`.
pub open spec fn shard_number(path: Seq<u8>, n: nat) -> int {
    (path_hash(path) as usize) as int % n as int
}

/// The state of a sharded space: the encoded atoms of each shard, and the number
/// of atoms that were rejected.
#[verifier::ext_equal]
pub struct ShardedState {
    pub shards: Seq<Set<Seq<u8>>>,
    pub rejected: usize,
}

impl ShardedState {
    /// Every path stands in the shard that its hash names, and there is one.
    pub open spec fn placed(self) -> bool {
        &&& self.shards.len() >= 1
        &&& forall|i: int, p: Seq<u8>|
            0 <= i < self.shards.len() && #[trigger] self.shards[i].contains(p) ==> i
                == shard_number(p, self.shards.len())
    }

    /// The paths of the first shards.
    pub open spec fn paths_upto(self, k: int) -> Set<Seq<u8>> {
        Set::new(
            |p: Seq<u8>| exists|i: int| 0 <= i < k && #[trigger] self.shards[i].contains(p),
        )
    }

    /// The paths of all shards.
    pub open spec fn paths(self) -> Set<Seq<u8>> {
        self.paths_upto(self.shards.len() as int)
    }

    /// The space after a term was added; one that does not fit is rejected.
    pub open spec fn adding(self, t: Term) -> ShardedState {
        match stored_value_path(t) {
            Some(p) => {
                let s = shard_number(p, self.shards.len());
                ShardedState { shards: self.shards.update(s, self.shards[s].insert(p)), ..self }
            },
            None => ShardedState { rejected: (self.rejected + 1) as usize, ..self },
        }
    }
}

/// The models of some path sets.
pub open spec fn shard_sets(v: Seq<PathSet>) -> Seq<Set<Seq<u8>>> {
    Seq::new(v.len(), |i: int| v[i]@)
}

/// A space partitioned by the hash of the encoded atoms. It has no registry, so
/// a grounded value is kept by its display alone.
#[derive(Debug)]
pub struct ShardedMorkSpace {
    shards: Vec<PathSet>,
    rejected_atoms: usize,
}

impl View for ShardedMorkSpace {
    type V = ShardedState;

    closed spec fn view(&self) -> ShardedState {
        ShardedState { shards: shard_sets(self.shards@), rejected: self.rejected_atoms }
    }
}

/// The sum of some counts.
pub open spec fn sum(counts: Seq<usize>) -> nat
    decreases counts.len(),
{
    if counts.len() == 0 {
        0
    } else {
        sum(counts.drop_last()) + counts.last() as nat
    }
}

/// Part of a sum is no more than the whole.
proof fn lemma_sum_take(counts: Seq<usize>, i: int)
    requires
        0 <= i <= counts.len(),
    ensures
        sum(counts.take(i)) <= sum(counts),
    decreases counts.len(),
{
    if i == counts.len() {
        assert(counts.take(i) =~= counts);
    } else {
        assert(counts.drop_last().take(i) =~= counts.take(i));
        lemma_sum_take(counts.drop_last(), i);
    }
}

/// Adds up the counts of all shards.
pub fn sum_counts(counts: &Vec<usize>) -> (n: usize)
    requires
        sum(counts@) <= usize::MAX,
    ensures
        n == sum(counts@),
{
    let mut n: usize = 0;
    let mut i: usize = 0;
    while i < counts.len()
        invariant
            i <= counts@.len(),
            sum(counts@) <= usize::MAX,
            n == sum(counts@.take(i as int)),
        decreases counts@.len() - i,
    {
        proof {
            assert(counts@.take(i + 1).drop_last() =~= counts@.take(i as int));
            lemma_sum_take(counts@, i + 1);
        }
        n = n + counts[i];
        i = i + 1;
    }
    proof {
        assert(counts@.take(counts@.len() as int) =~= counts@);
    }
    n
}

/// The hash of a path.
fn hash_path(path: &[u8]) -> (h: u64)
    ensures
        h == path_hash(path@),
{
    let mut h = DefaultHasher::new();
    let len_bytes = u64_to_le_bytes(path.len() as u64);
    h.write(len_bytes.as_slice());
    h.write(path);
    h.finish()
}

/// One more shard adds its paths, which stand in no other.
proof fn lemma_paths_upto(s: ShardedState, k: int)
    requires
        s.placed(),
        0 <= k < s.shards.len(),
    ensures
        s.paths_upto(k + 1) == s.paths_upto(k).union(s.shards[k]),
        s.paths_upto(k).disjoint(s.shards[k]),
{
    assert(s.paths_upto(k + 1) =~= s.paths_upto(k).union(s.shards[k])) by {
        assert forall|p: Seq<u8>| #[trigger] s.paths_upto(k + 1).contains(p) == s.paths_upto(
            k,
        ).union(s.shards[k]).contains(p) by {
            if s.paths_upto(k).contains(p) {
                let i = choose|i: int| 0 <= i < k && #[trigger] s.shards[i].contains(p);
                assert(s.shards[i].contains(p));
            }
            if s.paths_upto(k + 1).contains(p) {
                let i = choose|i: int| 0 <= i < k + 1 && #[trigger] s.shards[i].contains(p);
                assert(s.shards[i].contains(p));
            }
        }
    }
}

impl ShardedMorkSpace {
    /// The shards are in order.
    pub closed spec fn parts_wf(&self) -> bool {
        forall|i: int| 0 <= i < self.shards@.len() ==> (#[trigger] self.shards@[i]).wf()
    }

    /// The shards are in order, and every path stands where it belongs.
    pub open spec fn wf(&self) -> bool {
        self.parts_wf() && self@.placed()
    }

    /// Creates an empty space with some shards, at least one.
    pub fn new(n_shards: usize) -> (r: ShardedMorkSpace)
        ensures
            r.wf(),
            r@.shards.len() == if n_shards == 0 {
                1
            } else {
                n_shards
            },
            forall|i: int|
                0 <= i < r@.shards.len() ==> #[trigger] r@.shards[i] == Set::<Seq<u8>>::empty(),
            r@.rejected == 0,
    {
        let n: usize = if n_shards == 0 {
            1
        } else {
            n_shards
        };
        let mut shards: Vec<PathSet> = Vec::new();
        let mut i: usize = 0;
        while i < n
            invariant
                i <= n,
                shards@.len() == i,
                forall|j: int|
                    0 <= j < i ==> (#[trigger] shards@[j]).wf() && shards@[j]@
                        == Set::<Seq<u8>>::empty(),
            decreases n - i,
        {
            shards.push(PathSet::new());
            i = i + 1;
        }
        let r = ShardedMorkSpace { shards, rejected_atoms: 0 };
        proof {
            assert forall|i: int| 0 <= i < r@.shards.len() implies #[trigger] r@.shards[i]
                == Set::<Seq<u8>>::empty() by {
                assert(r.shards@[i]@ == Set::<Seq<u8>>::empty());
            }
        }
        r
    }

    /// The shard of a path.
    fn shard_of(&self, path: &[u8]) -> (s: usize)
        requires
            self.shards@.len() >= 1,
        ensures
            s == shard_number(path@, self.shards@.len()),
            s < self.shards@.len(),
    {
        (hash_path(path) as usize) % self.shards.len()
    }

    /// Adds an atom to its shard; `false`, counted as rejected, when it does not
    /// fit.
    pub fn add(&mut self, atom: &Atom) -> (stored: bool)
        requires
            old(self).wf(),
            old(self)@.rejected < usize::MAX,
        ensures
            final(self).wf(),
            stored == stored_value_path(atom@) is Some,
            final(self)@ == old(self)@.adding(atom@),
    {
        let ghost before = self@;
        let mut vars: Vec<VariableAtom> = Vec::new();
        let mut bytes: Vec<u8> = Vec::new();
        let mut sink = GroundedSink::ValueOnly;
        proof {
            assert(variables(vars@) =~= Seq::empty());
        }
        let fits = encode_atom(atom, &mut vars, &mut bytes, &mut sink).is_ok();
        proof {
            assert(variables(vars@).len() == vars@.len());
        }
        if !fits || vars.len() > MAX_VARIABLES {
            self.rejected_atoms = self.rejected_atoms + 1;
            proof {
                assert(self@ =~= before.adding(atom@));
            }
            return false;
        }
        proof {
            assert(bytes@ =~= stored_value_path(atom@)->0);
        }
        let s: usize = self.shard_of(bytes.as_slice());
        let mut shard = PathSet::new();
        std::mem::swap(&mut shard, &mut self.shards[s]);
        let _ = shard.insert(bytes.as_slice());
        self.shards[s] = shard;
        proof {
            assert(self@.shards =~= before.shards.update(
                s as int,
                before.shards[s as int].insert(bytes@),
            ));
            assert(self@ =~= before.adding(atom@));
            assert forall|i: int, p: Seq<u8>|
                0 <= i < self@.shards.len() && #[trigger] self@.shards[i].contains(p) implies i
                == shard_number(p, self@.shards.len()) by {
                if !(i == s && p == bytes@) {
                    assert(before.shards[i].contains(p));
                }
            }
        }
        true
    }

    /// Number of atoms over all shards.
    pub fn len(&self) -> (n: usize)
        requires
            self.wf(),
            self@.paths().len() <= usize::MAX,
        ensures
            n == self@.paths().len(),
            self@.paths().finite(),
    {
        let ghost st = self@;
        let ghost all = st.paths();
        let mut n: usize = 0;
        let mut i: usize = 0;
        proof {
            assert(st.paths_upto(0) =~= Set::empty());
            lemma_paths_finite(*self, self.shards@.len() as int);
        }
        while i < self.shards.len()
            invariant
                i <= self.shards@.len(),
                st == self@,
                st.shards.len() == self.shards@.len(),
                self.wf(),
                st.paths().len() <= usize::MAX,
                st.paths().finite(),
                st.paths_upto(i as int).finite(),
                n == st.paths_upto(i as int).len(),
            decreases self.shards@.len() - i,
        {
            proof {
                assert(self.shards@[i as int].wf());
                assert(st.shards[i as int] == self.shards@[i as int]@);
                lemma_paths_upto(st, i as int);
            }
            let k: usize = self.shards[i].len();
            proof {
                vstd::set_lib::lemma_set_disjoint_lens(
                    st.paths_upto(i as int),
                    st.shards[i as int],
                );
                assert(st.paths_upto(i + 1).subset_of(st.paths())) by {
                    assert forall|p: Seq<u8>| #[trigger]
                        st.paths_upto(i + 1).contains(p) implies st.paths().contains(p) by {
                        let j = choose|j: int|
                            0 <= j < i + 1 && #[trigger] st.shards[j].contains(p);
                        assert(st.shards[j].contains(p));
                    }
                }
                vstd::set_lib::lemma_len_subset(st.paths_upto(i + 1), st.paths());
            }
            n = n + k;
            i = i + 1;
        }
        n
    }

    /// Whether the space holds no atoms.
    pub fn is_empty(&self) -> (r: bool)
        requires
            self.wf(),
            self@.paths().len() <= usize::MAX,
        ensures
            r == (self@.paths().len() == 0),
    {
        self.len() == 0
    }

    /// Number of atoms rejected by `add` because they do not fit the encoding.
    pub fn rejected_atom_count(&self) -> (n: usize)
        ensures
            n == self@.rejected,
    {
        self.rejected_atoms
    }

    /// Number of shards.
    pub fn shards(&self) -> (n: usize)
        ensures
            n == self@.shards.len(),
    {
        self.shards.len()
    }

    /// The paths of one shard in byte order.
    pub fn shard_paths(&self, i: usize) -> (r: Vec<Vec<u8>>)
        requires
            self.wf(),
            i < self@.shards.len(),
        ensures
            crate::span::byte_rows(r@).to_set() == self@.shards[i as int],
    {
        self.shards[i].to_vec()
    }

    /// The bytes of the pattern that every shard is swept with; `None` when the
    /// pattern does not fit, so that nothing matches.
    pub fn sweep_pattern(&self, pattern: &Atom, ids: &[usize]) -> (r: Option<Vec<u8>>)
        requires
            wildcards(pattern@) <= ids@.len(),
        ensures
            match r {
                Some(bytes) => pattern_of(pattern@, ids@) is Some && bytes@ == flat(
                    pattern_tree(pattern_of(pattern@, ids@).unwrap().1),
                ),
                None => pattern_of(pattern@, ids@) is None,
            },
    {
        match wrap_pattern(pattern, slice_to_vec(ids)) {
            Some(p) => Some(p.bytes),
            None => None,
        }
    }

    /// Number of atoms that match a pattern, from the counts of the shards. The
    /// shards can be swept in any order or side by side.
    pub fn par_count_matches(&self, pattern: &Atom, ids: &[usize], counts: &Vec<usize>) -> (n:
        usize)
        requires
            wildcards(pattern@) <= ids@.len(),
            sum(counts@) <= usize::MAX,
        ensures
            n == if pattern_of(pattern@, ids@) is Some {
                sum(counts@)
            } else {
                0
            },
    {
        if self.sweep_pattern(pattern, ids).is_none() {
            return 0;
        }
        sum_counts(counts)
    }

    /// Number of atoms that match a pattern, from the counts of the shards swept
    /// one after the other.
    pub fn count_matches(&self, pattern: &Atom, ids: &[usize], counts: &Vec<usize>) -> (n: usize)
        requires
            wildcards(pattern@) <= ids@.len(),
            sum(counts@) <= usize::MAX,
        ensures
            n == if pattern_of(pattern@, ids@) is Some {
                sum(counts@)
            } else {
                0
            },
    {
        self.par_count_matches(pattern, ids, counts)
    }
}

/// The paths of the first shards are finitely many.
proof fn lemma_paths_finite(s: ShardedMorkSpace, k: int)
    requires
        s.wf(),
        0 <= k <= s.shards@.len(),
    ensures
        s@.paths_upto(k).finite(),
    decreases k,
{
    if k == 0 {
        assert(s@.paths_upto(0) =~= Set::empty());
    } else {
        lemma_paths_finite(s, k - 1);
        lemma_paths_upto(s@, k - 1);
        assert(s.shards@[k - 1].wf());
        crate::paths::lemma_ascending_no_duplicates(s.shards@[k - 1].rows());
        assert(s@.shards[k - 1] == s.shards@[k - 1]@);
    }
}

/// A sharded space stores what an unsharded one would: adding a term adds its
/// path to the union of the shards, and nothing else.
pub proof fn shards_hold_what_was_added(s: ShardedState, t: Term)
    requires
        s.placed(),
    ensures
        s.adding(t).paths() == match stored_value_path(t) {
            Some(p) => s.paths().insert(p),
            None => s.paths(),
        },
{
    if let Some(p) = stored_value_path(t) {
        let n = s.shards.len();
        let k = shard_number(p, n);
        vstd::arithmetic::div_mod::lemma_mod_bound((path_hash(p) as usize) as int, n as int);
        let after = s.adding(t);
        assert forall|q: Seq<u8>| #[trigger] after.paths().contains(q) == s.paths().insert(
            p,
        ).contains(q) by {
            if after.paths().contains(q) {
                let i = choose|i: int| 0 <= i < n && #[trigger] after.shards[i].contains(q);
                if q != p {
                    assert(s.shards[i].contains(q));
                }
            }
            if s.paths().contains(q) {
                let i = choose|i: int| 0 <= i < n && #[trigger] s.shards[i].contains(q);
                assert(after.shards[i].contains(q));
            }
            assert(after.shards[k].contains(p));
        }
        assert(after.paths() =~= s.paths().insert(p));
    }
}

/// Counts add up: over two groups of shards the sum is that of both, a single count is
/// its own sum, and no count is left out.
pub proof fn counts_add_up(a: Seq<usize>, b: Seq<usize>, n: usize)
    ensures
        sum(a + b) == sum(a) + sum(b),
        sum(seq![n]) == n,
        sum(Seq::<usize>::empty()) == 0,
    decreases b.len(),
{
    assert(seq![n].drop_last() =~= Seq::empty());
    assert(sum(seq![n].drop_last()) == 0);
    if b.len() == 0 {
        assert(a + b =~= a);
    } else {
        counts_add_up(a, b.drop_last(), n);
        assert((a + b).drop_last() =~= a + b.drop_last());
        assert((a + b).last() == b.last());
    }
}

/// An atom that can be encoded goes to one shard, the one that the hash of its path
/// names, and the other shards stay; one that cannot is counted.
pub proof fn atoms_go_to_the_shard_of_their_hash(s: ShardedState, t: Term, i: int)
    requires
        s.shards.len() >= 1,
        s.rejected < usize::MAX,
        0 <= i < s.shards.len(),
    ensures
        s.adding(t).shards.len() == s.shards.len(),
        match stored_value_path(t) {
            Some(p) => {
                let hash = DefaultHasher::spec_finish(
                    seq![spec_u64_to_le_bytes(p.len() as u64), p],
                );
                let home = (hash as usize) as int % s.shards.len() as int;
                &&& 0 <= home < s.shards.len()
                &&& s.adding(t).shards[i] == if i == home {
                    s.shards[i].insert(p)
                } else {
                    s.shards[i]
                }
                &&& s.adding(t).rejected == s.rejected
            },
            None => s.adding(t).shards == s.shards && s.adding(t).rejected == s.rejected + 1,
        },
{
    if let Some(p) = stored_value_path(t) {
        let parts = seq![spec_u64_to_le_bytes(p.len() as u64), p];
        assert(parts =~= Seq::<Seq<u8>>::empty().push(spec_u64_to_le_bytes(p.len() as u64)).push(
            p,
        ));
        assert(s.adding(t).shards =~= s.shards.update(
            shard_number(p, s.shards.len()),
            s.shards[shard_number(p, s.shards.len())].insert(p),
        ));
    }
}

/// A path is in a sharded space exactly when it is in one of the shards.
pub proof fn shards_together_hold_the_paths(s: ShardedState, p: Seq<u8>)
    ensures
        s.paths().contains(p) <==> exists|i: int|
            0 <= i < s.shards.len() && #[trigger] s.shards[i].contains(p),
{
}

} // verus!
