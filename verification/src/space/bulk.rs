//! Bulk loads.
//!
//! The atoms are cut into shards. Each shard is encoded on its own, so shards
//! can be loaded side by side, and the results are merged in their order. Atoms
//! with mutable values need the registry of the space and are added one by one
//! at the end.
use vstd::prelude::*;

use crate::atom::{terms, Atom, Term, VariableAtom};
use crate::encode::{encode_atom, lower, lower_all, variables, GroundedSink, Lowering, Mode};
use crate::paths::PathSet;
use crate::pattern::fresh_lowering;
use crate::registry::{
    contains_mutable_grounded, contains_variable, has_mutable, has_variable, GroundedRegistry,
    Registry,
};
use crate::space::ops::with_paths_is_consistent;
use crate::space::{added_atoms_are_held, stored_value_path, MorkSpace, SpaceState, MAX_VARIABLES};

verus! {

/// What loading some atoms gives: the paths of those that fit and hold no
/// mutable value, the grounded values met, the number that do not fit, whether
/// no variable was loaded, and the places of the atoms with mutable values.
#[verifier::ext_equal]
pub struct Load {
    pub paths: Set<Seq<u8>>,
    pub reg: Registry,
    pub rejected: nat,
    pub var_free: bool,
    pub sequential: Seq<usize>,
}

/// The load of the atoms from one place up to another.
pub open spec fn load(ts: Seq<Term>, from: int, to: int) -> Load
    decreases to - from,
{
    if to <= from {
        Load {
            paths: Set::empty(),
            reg: Registry::empty(),
            rejected: 0,
            var_free: true,
            sequential: Seq::empty(),
        }
    } else {
        let l = load(ts, from, to - 1);
        let t = ts[to - 1];
        if has_mutable(t) {
            Load { sequential: l.sequential.push((to - 1) as usize), ..l }
        } else {
            match stored_value_path(t) {
                Some(p) => Load {
                    paths: l.paths.insert(p),
                    reg: l.reg.register(t),
                    var_free: l.var_free && !has_variable(t),
                    ..l
                },
                None => Load { reg: l.reg.register(t), rejected: l.rejected + 1, ..l },
            }
        }
    }
}

/// Two loads, the second behind the first.
pub open spec fn both(a: Load, b: Load) -> Load {
    Load {
        paths: a.paths.union(b.paths),
        reg: a.reg.adopting(b.reg),
        rejected: a.rejected + b.rejected,
        var_free: a.var_free && b.var_free,
        sequential: a.sequential + b.sequential,
    }
}

/// Registering a term on top of a registry: what is kept stays, what is missing
/// is adopted.
proof fn lemma_register_adopts(a: Registry, b: Registry, t: Term)
    ensures
        a.adopting(b).register(t) == a.adopting(b.register(t)),
    decreases t, 0nat,
{
    match t {
        Term::Grounded(g) => {
            assert(a.adopting(b).register(t) =~= a.adopting(b.register(t)));
        },
        Term::Expression(ts, _) => {
            lemma_register_all_adopts(a, b, ts);
        },
        _ => {},
    }
}

/// The same of a row of terms.
proof fn lemma_register_all_adopts(a: Registry, b: Registry, ts: Seq<Term>)
    ensures
        a.adopting(b).register_all(ts) == a.adopting(b.register_all(ts)),
    decreases ts, ts.len(),
{
    if ts.len() > 0 {
        lemma_register_all_adopts(a, b, ts.drop_last());
        lemma_register_adopts(a, b.register_all(ts.drop_last()), ts.last());
    }
}

/// Adopting is associative.
proof fn lemma_adopting_associative(a: Registry, b: Registry, c: Registry)
    ensures
        a.adopting(b).adopting(c) == a.adopting(b.adopting(c)),
{
    assert(a.adopting(b).adopting(c) =~= a.adopting(b.adopting(c)));
}

/// Shards merge to one load, wherever the cut is.
pub proof fn shards_merge_to_one_load(ts: Seq<Term>, from: int, mid: int, to: int)
    requires
        0 <= from <= mid <= to <= ts.len(),
    ensures
        both(load(ts, from, mid), load(ts, mid, to)) == load(ts, from, to),
    decreases to - mid,
{
    let a = load(ts, from, mid);
    if mid == to {
        assert(a.reg.adopting(Registry::empty()) =~= a.reg);
        assert(both(a, load(ts, mid, to)) =~= a);
    } else {
        shards_merge_to_one_load(ts, from, mid, to - 1);
        let b = load(ts, mid, to - 1);
        let t = ts[to - 1];
        if !has_mutable(t) {
            lemma_register_adopts(a.reg, b.reg, t);
        }
        assert(both(a, load(ts, mid, to)) =~= load(ts, from, to));
    }
}

/// A load rejects or sets aside no more atoms than there are, and sets aside
/// only places that it was given.
pub proof fn lemma_load_counts(ts: Seq<Term>, from: int, to: int)
    requires
        0 <= from <= to <= ts.len(),
        ts.len() <= usize::MAX,
    ensures
        load(ts, from, to).rejected + load(ts, from, to).sequential.len() <= to - from,
        forall|i: int|
            0 <= i < load(ts, from, to).sequential.len() ==> from <= #[trigger] load(
                ts,
                from,
                to,
            ).sequential[i] < to,
        load(ts, from, to).reg.by_id.len() == 0,
    decreases to - from,
{
    if from < to {
        lemma_load_counts(ts, from, to - 1);
        lemma_register_keeps_ids(load(ts, from, to - 1).reg, ts[to - 1]);
    }
}

/// Registering keeps the mutable values.
pub proof fn lemma_register_keeps_ids(r: Registry, t: Term)
    ensures
        r.register(t).by_id == r.by_id,
    decreases t, 0nat,
{
    if let Term::Expression(ts, _) = t {
        lemma_register_all_keeps_ids(r, ts);
    }
}

/// The same of a row of terms.
pub proof fn lemma_register_all_keeps_ids(r: Registry, ts: Seq<Term>)
    ensures
        r.register_all(ts).by_id == r.by_id,
    decreases ts, ts.len(),
{
    if ts.len() > 0 {
        lemma_register_all_keeps_ids(r, ts.drop_last());
        lemma_register_keeps_ids(r.register_all(ts.drop_last()), ts.last());
    }
}

impl SpaceState {
    /// The space after a load was merged in.
    pub open spec fn merging(self, l: Load) -> SpaceState {
        SpaceState {
            paths: self.paths.union(l.paths),
            reg: self.reg.adopting(l.reg),
            rejected: (self.rejected + l.rejected) as usize,
            var_free: self.var_free && l.var_free,
            ..self
        }
    }

    /// The space after the atoms at some places were added one by one.
    pub open spec fn adding_places(self, ts: Seq<Term>, places: Seq<usize>) -> SpaceState
        decreases places.len(),
    {
        if places.len() == 0 {
            self
        } else {
            self.adding_places(ts, places.drop_last()).adding(ts[places.last() as int])
        }
    }

    /// The space after a bulk load: everything without mutable values at once,
    /// under one generation, the rest one by one.
    pub open spec fn extending(self, ts: Seq<Term>) -> SpaceState {
        let l = load(ts, 0, ts.len() as int);
        let merged = self.merging(l);
        (SpaceState { gen: (merged.gen + 1) as u64, ..merged }).adding_places(ts, l.sequential)
    }

    /// The space after some terms were added one by one.
    pub open spec fn adding_all(self, ts: Seq<Term>) -> SpaceState
        decreases ts.len(),
    {
        if ts.len() == 0 {
            self
        } else {
            self.adding_all(ts.drop_last()).adding(ts.last())
        }
    }
}

/// What one shard of a bulk load gives.
#[derive(Debug)]
pub struct ShardOut {
    pub trie: PathSet,
    pub registry: GroundedRegistry,
    pub rejected: usize,
    pub var_free: bool,
    pub mutable_grounded: Vec<usize>,
}

impl View for ShardOut {
    type V = Load;

    open spec fn view(&self) -> Load {
        Load {
            paths: self.trie@,
            reg: self.registry@,
            rejected: self.rejected as nat,
            var_free: self.var_free,
            sequential: self.mutable_grounded@,
        }
    }
}

impl ShardOut {
    /// The parts are in order.
    pub open spec fn wf(&self) -> bool {
        self.trie.wf() && self.registry.wf()
    }
}

/// Number of atoms per shard for some threads: at least one.
pub fn shard_len(atoms: usize, threads: usize) -> (n: usize)
    ensures
        n >= 1,
        atoms > 0 && threads > 0 ==> (n - 1) * threads < atoms <= n * threads,
        threads == 0 ==> n == if atoms == 0 {
            1
        } else {
            atoms
        },
{
    let t: usize = if threads == 0 {
        1
    } else {
        threads
    };
    if atoms == 0 {
        return 1;
    }
    let q: usize = atoms / t;
    let r: usize = atoms % t;
    proof {
        vstd::arithmetic::div_mod::lemma_fundamental_div_mod(atoms as int, t as int);
        vstd::arithmetic::mul::lemma_mul_is_commutative(q as int, t as int);
        assert((q + 1) * t == q * t + t) by (nonlinear_arith);
        assert((q - 1) * t == q * t - t) by (nonlinear_arith);
        assert(q <= atoms) by (nonlinear_arith)
            requires
                t >= 1,
                q * t <= atoms,
                q >= 0,
        ;
        assert(r == 0 ==> q >= 1) by (nonlinear_arith)
            requires
                q * t + r == atoms,
                atoms > 0,
                q >= 0,
        ;
        assert(q == atoms ==> r == 0) by (nonlinear_arith)
            requires
                t >= 1,
                q * t + r == atoms,
                r >= 0,
                q >= 0,
        ;
    }
    if r == 0 {
        q
    } else {
        q + 1
    }
}

/// Loads one shard: the atoms from one place up to another.
pub fn load_shard(atoms: &Vec<Atom>, from: usize, to: usize) -> (r: ShardOut)
    requires
        from <= to <= atoms@.len(),
    ensures
        r.wf(),
        r@ == load(terms(atoms@), from as int, to as int),
{
    let ghost ts = terms(atoms@);
    let mut out = ShardOut {
        trie: PathSet::new(),
        registry: GroundedRegistry::new(),
        rejected: 0,
        var_free: true,
        mutable_grounded: Vec::new(),
    };
    let mut i: usize = from;
    proof {
        assert(out@ =~= load(ts, from as int, from as int));
        assert(atoms.len() == atoms@.len());
    }
    while i < to
        invariant
            from <= i <= to <= atoms@.len(),
            atoms@.len() <= usize::MAX,
            ts == terms(atoms@),
            out.wf(),
            out@ == load(ts, from as int, i as int),
        decreases to - i,
    {
        let ghost before = out@;
        let atom = &atoms[i];
        proof {
            assert(ts[i as int] == atom@);
            lemma_load_counts(ts, from as int, i as int);
        }
        if contains_mutable_grounded(atom) {
            out.mutable_grounded.push(i);
        } else {
            out.registry.register(atom);
            let mut vars: Vec<VariableAtom> = Vec::new();
            let mut bytes: Vec<u8> = Vec::new();
            let mut sink = GroundedSink::ValueOnly;
            proof {
                assert(variables(vars@) =~= Seq::empty());
                crate::encode::lemma_immutable_has_no_wildcard(atom@);
            }
            let fits = encode_atom(atom, &mut vars, &mut bytes, &mut sink).is_ok();
            proof {
                assert(variables(vars@).len() == vars@.len());
            }
            if !fits || vars.len() > MAX_VARIABLES {
                out.rejected = out.rejected + 1;
            } else {
                proof {
                    assert(bytes@ =~= stored_value_path(atom@)->0);
                }
                if contains_variable(atom) {
                    out.var_free = false;
                }
                let _ = out.trie.insert(bytes.as_slice());
            }
        }
        proof {
            assert(out@ =~= load(ts, from as int, i + 1));
        }
        i = i + 1;
    }
    out
}

impl MorkSpace {
    /// Merges one shard in. The generation is moved on by `finish_bulk`.
    fn merge_shard(&mut self, shard: &ShardOut)
        requires
            old(self).parts_wf(),
            shard.wf(),
            old(self)@.rejected + shard.rejected <= usize::MAX,
        ensures
            final(self).parts_wf(),
            final(self)@ == old(self)@.merging(shard@),
    {
        let ghost before = self@;
        self.paths = self.paths.join(&shard.trie);
        self.grounded.adopt(&shard.registry);
        self.rejected_atoms = self.rejected_atoms + shard.rejected;
        self.var_free = self.var_free && shard.var_free;
        proof {
            assert(self@ =~= before.merging(shard@));
        }
    }

    /// Merges the shards of a bulk load in their order, then adds the atoms that
    /// they set aside. `cuts` are the places where the shards end.
    pub fn merge_shards(&mut self, shards: &Vec<ShardOut>, atoms: &Vec<Atom>, cuts: &Vec<usize>)
        requires
            old(self).wf(),
            old(self)@.gen + atoms@.len() < u64::MAX,
            old(self)@.rejected + atoms@.len() <= usize::MAX,
            shards@.len() == cuts@.len(),
            cut_into(terms(atoms@), shards@, cuts@),
        ensures
            final(self).wf(),
            final(self)@ == old(self)@.extending(terms(atoms@)),
    {
        let ghost before = self@;
        let ghost ts = terms(atoms@);
        let ghost n = ts.len() as int;
        let mut sequential: Vec<usize> = Vec::new();
        let ghost mut done: int = 0;
        let mut i: usize = 0;
        proof {
            assert(before.merging(load(ts, 0, 0)) =~= before) by {
                assert(before.reg.adopting(Registry::empty()) =~= before.reg);
                assert(before.paths.union(Set::empty()) =~= before.paths);
            }
            assert(atoms.len() == atoms@.len());
        }
        while i < shards.len()
            invariant
                i <= shards@.len(),
                ts == terms(atoms@),
                n == ts.len(),
                n <= usize::MAX,
                before.rejected + n <= usize::MAX,
                shards@.len() == cuts@.len(),
                cut_into(ts, shards@, cuts@),
                done == if i == 0 {
                    0
                } else {
                    cuts@[i - 1] as int
                },
                0 <= done <= n,
                self.parts_wf(),
                self@ == before.merging(load(ts, 0, done)),
                sequential@ == load(ts, 0, done).sequential,
            decreases shards@.len() - i,
        {
            let ghost next = cuts@[i as int] as int;
            let shard = &shards[i];
            proof {
                assert(shards@[i as int]@ == load(ts, done, next));
                shards_merge_to_one_load(ts, 0, done, next);
                lemma_load_counts(ts, 0, done);
                lemma_load_counts(ts, 0, next);
                lemma_adopting_associative(
                    before.reg,
                    load(ts, 0, done).reg,
                    load(ts, done, next).reg,
                );
            }
            self.merge_shard(shard);
            append_places(&mut sequential, &shard.mutable_grounded);
            proof {
                assert(self@ =~= before.merging(load(ts, 0, next)));
                done = next;
            }
            i = i + 1;
        }
        proof {
            assert(done == n);
            lemma_load_counts(ts, 0, n);
        }
        self.finish_bulk(atoms, &sequential, Ghost(before));
    }

    /// Moves the generation on after a merge, and adds the atoms that were set
    /// aside.
    fn finish_bulk(
        &mut self,
        atoms: &Vec<Atom>,
        sequential: &Vec<usize>,
        Ghost(before): Ghost<SpaceState>,
    )
        requires
            old(self).parts_wf(),
            before.consistent(),
            before.gen + atoms@.len() < u64::MAX,
            before.rejected + atoms@.len() <= usize::MAX,
            old(self)@ == before.merging(load(terms(atoms@), 0, atoms@.len() as int)),
            sequential@ == load(terms(atoms@), 0, atoms@.len() as int).sequential,
        ensures
            final(self).wf(),
            final(self)@ == before.extending(terms(atoms@)),
    {
        let ghost ts = terms(atoms@);
        let ghost n = ts.len() as int;
        let ghost l = load(ts, 0, n);
        self.mutation_gen = self.mutation_gen + 1;
        let ghost base = self@;
        proof {
            assert(atoms.len() == atoms@.len());
            lemma_load_counts(ts, 0, n);
            with_paths_is_consistent(before, base.paths);
            assert(base =~= (SpaceState {
                gen: (before.merging(l).gen + 1) as u64,
                ..before.merging(l)
            }));
            assert(sequential@.take(0) =~= Seq::empty());
        }
        let mut k: usize = 0;
        while k < sequential.len()
            invariant
                k <= sequential@.len(),
                ts == terms(atoms@),
                n == ts.len(),
                l == load(ts, 0, n),
                sequential@ == l.sequential,
                l.rejected + l.sequential.len() <= n,
                forall|i: int|
                    0 <= i < l.sequential.len() ==> 0 <= #[trigger] l.sequential[i] < n,
                self.wf(),
                self@ == base.adding_places(ts, sequential@.take(k as int)),
                base.gen == before.gen + 1,
                base.rejected == before.rejected + l.rejected,
                self@.gen <= base.gen + k,
                self@.rejected <= base.rejected + k,
                before.gen + n < u64::MAX,
                before.rejected + n <= usize::MAX,
            decreases sequential@.len() - k,
        {
            let place: usize = sequential[k];
            proof {
                assert(place == l.sequential[k as int]);
                assert(ts[place as int] == atoms@[place as int]@);
                assert(sequential@.take(k + 1).drop_last() =~= sequential@.take(k as int));
                assert(sequential@.take(k + 1).last() == place);
            }
            self.add(atoms[place].clone());
            k = k + 1;
        }
        proof {
            assert(sequential@.take(sequential@.len() as int) =~= sequential@);
        }
    }

    /// Adds many atoms, as shards for some threads. The result is that of one
    /// load, however many threads there are. An atom that does not fit is
    /// counted as rejected, as by `add`.
    pub fn extend_parallel(&mut self, atoms: &Vec<Atom>, threads: usize)
        requires
            old(self).wf(),
            old(self)@.gen + atoms@.len() < u64::MAX,
            old(self)@.rejected + atoms@.len() <= usize::MAX,
        ensures
            final(self).wf(),
            final(self)@ == old(self)@.extending(terms(atoms@)),
    {
        let ghost ts = terms(atoms@);
        let n: usize = atoms.len();
        let chunk: usize = shard_len(n, threads);
        let mut shards: Vec<ShardOut> = Vec::new();
        let mut cuts: Vec<usize> = Vec::new();
        let mut from: usize = 0;
        while from < n
            invariant
                from <= n,
                n == atoms@.len(),
                chunk >= 1,
                ts == terms(atoms@),
                shards@.len() == cuts@.len(),
                from == if cuts@.len() == 0 {
                    0
                } else {
                    cuts@.last()
                },
                forall|i: int|
                    0 <= i < shards@.len() ==> shard_at(ts, #[trigger] shards@[i], cuts@, i),
            decreases n - from,
        {
            let to: usize = if chunk >= n - from {
                n
            } else {
                from + chunk
            };
            let ghost (shards0, cuts0) = (shards@, cuts@);
            shards.push(load_shard(atoms, from, to));
            cuts.push(to);
            proof {
                assert forall|i: int| 0 <= i < shards@.len() implies shard_at(
                    ts,
                    #[trigger] shards@[i],
                    cuts@,
                    i,
                ) by {
                    if i < shards0.len() {
                        assert(shards@[i] == shards0[i]);
                        assert(shard_at(ts, shards0[i], cuts0, i));
                    }
                }
            }
            from = to;
        }
        self.merge_shards(&shards, atoms, &cuts);
    }
}

/// Appends some places.
fn append_places(to: &mut Vec<usize>, more: &Vec<usize>)
    ensures
        final(to)@ == old(to)@ + more@,
{
    let mut copy = vstd::slice::slice_to_vec(more.as_slice());
    to.append(&mut copy);
}

/// A shard is the load of the atoms between its cut and the one before.
pub open spec fn shard_at(ts: Seq<Term>, shard: ShardOut, cuts: Seq<usize>, i: int) -> bool {
    let from = if i == 0 {
        0
    } else {
        cuts[i - 1] as int
    };
    &&& shard.wf()
    &&& from <= cuts[i] <= ts.len()
    &&& shard@ == load(ts, from, cuts[i] as int)
}

/// The shards are the loads of all atoms, cut at some places.
pub open spec fn cut_into(ts: Seq<Term>, shards: Seq<ShardOut>, cuts: Seq<usize>) -> bool {
    &&& forall|i: int| 0 <= i < shards.len() ==> shard_at(ts, #[trigger] shards[i], cuts, i)
    &&& if cuts.len() == 0 {
        ts.len() == 0
    } else {
        cuts.last() == ts.len()
    }
}

/// A term without mutable values that fits leaves its grounded values in the
/// registry, each once.
proof fn lemma_store_registers(t: Term, s: Lowering)
    requires
        !has_mutable(t),
        lower(t, s, Mode::Store).1 is Some,
    ensures
        lower(t, s, Mode::Store).0.reg == s.reg.register(t),
    decreases t, 0nat,
{
    if let Term::Expression(ts, _) = t {
        assert forall|i: int| 0 <= i < ts.len() implies !has_mutable(#[trigger] ts[i]) by {
            assert(t->Expression_0[i] == ts[i]);
        }
        lemma_store_registers_all(ts, s);
    }
}

/// The same of a row of terms.
proof fn lemma_store_registers_all(ts: Seq<Term>, s: Lowering)
    requires
        forall|i: int| 0 <= i < ts.len() ==> !has_mutable(#[trigger] ts[i]),
        lower_all(ts, s, Mode::Store).1 is Some,
    ensures
        lower_all(ts, s, Mode::Store).0.reg == s.reg.register_all(ts),
    decreases ts, ts.len(),
{
    if ts.len() > 0 {
        let init = ts.drop_last();
        assert forall|i: int| 0 <= i < init.len() implies !has_mutable(#[trigger] init[i]) by {
            assert(init[i] == ts[i]);
        }
        assert(ts.last() == ts[ts.len() - 1]);
        lemma_store_registers_all(init, s);
        lemma_store_registers(ts.last(), lower_all(init, s, Mode::Store).0);
    }
}

/// A bulk load stores what adding the atoms one by one would store, rejects as
/// many, and keeps or drops the latch alike. Where no atom is rejected it keeps
/// the same grounded values.
pub proof fn bulk_loads_equal_single_adds(s: SpaceState, ts: Seq<Term>)
    requires
        forall|i: int| 0 <= i < ts.len() ==> !has_mutable(#[trigger] ts[i]),
        s.rejected + ts.len() <= usize::MAX,
    ensures
        s.extending(ts).paths == s.adding_all(ts).paths,
        s.extending(ts).rejected == s.adding_all(ts).rejected,
        s.extending(ts).var_free == s.adding_all(ts).var_free,
        (forall|i: int| 0 <= i < ts.len() ==> stored_value_path(#[trigger] ts[i]) is Some)
            ==> s.extending(ts).reg == s.adding_all(ts).reg,
{
    lemma_bulk_prefix(s, ts, ts.len() as int);
    assert(ts.take(ts.len() as int) =~= ts);
    assert(load(ts, 0, ts.len() as int).sequential =~= Seq::empty());
}

/// The same of the first atoms.
proof fn lemma_bulk_prefix(s: SpaceState, ts: Seq<Term>, k: int)
    requires
        0 <= k <= ts.len(),
        forall|i: int| 0 <= i < ts.len() ==> !has_mutable(#[trigger] ts[i]),
        s.rejected + ts.len() <= usize::MAX,
    ensures
        load(ts, 0, k).sequential.len() == 0,
        load(ts, 0, k).rejected <= k,
        s.adding_all(ts.take(k)).paths == s.paths.union(load(ts, 0, k).paths),
        s.adding_all(ts.take(k)).rejected == s.rejected + load(ts, 0, k).rejected,
        s.adding_all(ts.take(k)).var_free == (s.var_free && load(ts, 0, k).var_free),
        (forall|i: int| 0 <= i < ts.len() ==> stored_value_path(#[trigger] ts[i]) is Some)
            ==> s.adding_all(ts.take(k)).reg == s.reg.adopting(load(ts, 0, k).reg),
    decreases k,
{
    if k == 0 {
        assert(ts.take(0) =~= Seq::empty());
        assert(s.paths.union(Set::empty()) =~= s.paths);
        assert(s.reg.adopting(Registry::empty()) =~= s.reg);
    } else {
        lemma_bulk_prefix(s, ts, k - 1);
        let t = ts[k - 1];
        assert(ts.take(k).drop_last() =~= ts.take(k - 1));
        assert(ts.take(k).last() == t);
        let s1 = s.adding_all(ts.take(k - 1));
        let l1 = load(ts, 0, k - 1);
        added_atoms_are_held(s1, t);
        lemma_register_adopts(s.reg, l1.reg, t);
        if stored_value_path(t) is Some {
            lemma_store_registers(t, s1.storing());
            assert(s.adding_all(ts.take(k)).paths =~= s.paths.union(load(ts, 0, k).paths));
        }
    }
}

/// A bulk load moves the generation on and leaves the table as it was.
pub proof fn lemma_extending_moves_on(s: SpaceState, ts: Seq<Term>)
    requires
        s.gen + ts.len() < u64::MAX,
    ensures
        s.extending(ts).table == s.table,
        s.extending(ts).gen > s.gen,
{
    let n = ts.len() as int;
    let l = load(ts, 0, n);
    lemma_sequential_len(ts, n);
    let merged = s.merging(l);
    let base = SpaceState { gen: (merged.gen + 1) as u64, ..merged };
    lemma_places_move_on(base, ts, l.sequential);
}

/// A load sets aside no more atoms than there are.
proof fn lemma_sequential_len(ts: Seq<Term>, k: int)
    requires
        0 <= k <= ts.len(),
    ensures
        load(ts, 0, k).sequential.len() <= k,
    decreases k,
{
    if k > 0 {
        lemma_sequential_len(ts, k - 1);
    }
}

/// Adding some atoms one by one never moves the generation back.
proof fn lemma_places_move_on(s: SpaceState, ts: Seq<Term>, places: Seq<usize>)
    requires
        s.gen + places.len() <= u64::MAX,
    ensures
        s.adding_places(ts, places).table == s.table,
        s.gen <= s.adding_places(ts, places).gen <= s.gen + places.len(),
    decreases places.len(),
{
    if places.len() > 0 {
        lemma_places_move_on(s, ts, places.drop_last());
    }
}

/// A bulk load keeps a space consistent.
pub proof fn bulk_loads_keep_consistency(s: SpaceState, ts: Seq<Term>)
    requires
        s.consistent(),
        s.gen + ts.len() < u64::MAX,
    ensures
        s.extending(ts).consistent(),
{
    let n = ts.len() as int;
    let l = load(ts, 0, n);
    lemma_sequential_len(ts, n);
    let merged = s.merging(l);
    let base = SpaceState { gen: (merged.gen + 1) as u64, ..merged };
    with_paths_is_consistent(s, base.paths);
    assert(base.consistent());
    lemma_places_consistent(base, ts, l.sequential);
}

/// Adding some atoms one by one keeps a space consistent.
proof fn lemma_places_consistent(s: SpaceState, ts: Seq<Term>, places: Seq<usize>)
    requires
        s.consistent(),
        s.gen + places.len() <= u64::MAX,
    ensures
        s.adding_places(ts, places).consistent(),
    decreases places.len(),
{
    if places.len() > 0 {
        lemma_places_consistent(s, ts, places.drop_last());
        lemma_places_move_on(s, ts, places.drop_last());
        crate::space::adding_keeps_consistency(
            s.adding_places(ts, places.drop_last()),
            ts[places.last() as int],
        );
    }
}

/// A bulk load keeps the latch sound.
pub proof fn bulk_loads_keep_the_latch_sound(s: SpaceState, ts: Seq<Term>)
    requires
        s.latch_sound(),
    ensures
        s.extending(ts).latch_sound(),
{
    let n = ts.len() as int;
    let l = load(ts, 0, n);
    if l.var_free {
        lemma_loaded_latch(ts, n);
    }
    let merged = s.merging(l);
    let base = SpaceState { gen: (merged.gen + 1) as u64, ..merged };
    lemma_places_latch(base, ts, l.sequential);
}

/// While a load has met no variable, its paths are ground.
proof fn lemma_loaded_latch(ts: Seq<Term>, k: int)
    requires
        0 <= k <= ts.len(),
        load(ts, 0, k).var_free,
    ensures
        forall|p: Seq<u8>| #[trigger]
            load(ts, 0, k).paths.contains(p) ==> crate::span::ground_span(p),
    decreases k,
{
    if k > 0 {
        let t = ts[k - 1];
        lemma_loaded_latch(ts, k - 1);
        if !has_mutable(t) && stored_value_path(t) is Some {
            let tree = lower(t, fresh_lowering(), Mode::ValueOnly).1->0;
            crate::codec::ground_bytes_have_no_variable(t, fresh_lowering(), Mode::ValueOnly);
            crate::encode::lemma_lower_fits(t, fresh_lowering(), Mode::ValueOnly);
            let b = crate::tree::flat(tree);
            assert(b.subrange(0, b.len() as int) =~= b);
            crate::tree::lemma_parse_flat(b, 0, tree);
            assert(crate::span::ground_span(b));
        }
        assert forall|p: Seq<u8>| #[trigger]
            load(ts, 0, k).paths.contains(p) implies crate::span::ground_span(p) by {
            if !load(ts, 0, k - 1).paths.contains(p) {
                assert(!has_mutable(t) && stored_value_path(t) == Some(p));
            }
        }
    }
}

/// Adding some atoms one by one keeps the latch sound.
proof fn lemma_places_latch(s: SpaceState, ts: Seq<Term>, places: Seq<usize>)
    requires
        s.latch_sound(),
    ensures
        s.adding_places(ts, places).latch_sound(),
    decreases places.len(),
{
    if places.len() > 0 {
        lemma_places_latch(s, ts, places.drop_last());
        crate::space::adding_keeps_the_latch_sound(
            s.adding_places(ts, places.drop_last()),
            ts[places.last() as int],
        );
    }
}

/// What a bulk load of some terms gives depends on those terms alone.
proof fn lemma_load_of_prefix(a: Seq<Term>, b: Seq<Term>, k: int)
    requires
        0 <= k <= a.len(),
        k <= b.len(),
        a.take(k) == b.take(k),
    ensures
        load(a, 0, k) == load(b, 0, k),
    decreases k,
{
    if k > 0 {
        assert(a.take(k)[k - 1] == a[k - 1]);
        assert(b.take(k)[k - 1] == b[k - 1]);
        assert(a.take(k - 1) =~= a.take(k).take(k - 1));
        assert(b.take(k - 1) =~= b.take(k).take(k - 1));
        lemma_load_of_prefix(a, b, k - 1);
    }
}

/// A load takes up the atoms without mutable values and sets the others aside in their
/// order.
proof fn lemma_load_parts(ts: Seq<Term>, k: int)
    requires
        0 <= k <= ts.len() <= usize::MAX,
    ensures
        ({
            let l = load(ts, 0, k);
            let clean = ts.take(k).filter(|t: Term| !has_mutable(t));
            let held = ts.take(k).filter(|t: Term| has_mutable(t));
            let c = load(clean, 0, clean.len() as int);
            &&& l.paths == c.paths
            &&& l.rejected == c.rejected
            &&& l.var_free == c.var_free
            &&& l.sequential.len() == held.len()
            &&& forall|i: int| 0 <= i < held.len() ==> ts[#[trigger] l.sequential[i] as int] == held[i]
            &&& forall|i: int|
                0 <= i < clean.len() ==> !has_mutable(#[trigger] clean[i])
            &&& clean.len() + held.len() == k
        }),
    decreases k,
{
    reveal(Seq::filter);
    let is_clean = |t: Term| !has_mutable(t);
    let is_held = |t: Term| has_mutable(t);
    if k > 0 {
        lemma_load_parts(ts, k - 1);
        let t = ts[k - 1];
        let (now, before) = (ts.take(k), ts.take(k - 1));
        assert(now.drop_last() =~= before);
        assert(now.last() == t);
        let (c0, c1) = (before.filter(is_clean), now.filter(is_clean));
        if !has_mutable(t) {
            assert(c1 == c0.push(t));
            assert(c1.take(c0.len() as int) =~= c0.take(c0.len() as int));
            lemma_load_of_prefix(c1, c0, c0.len() as int);
            assert(c1[c1.len() - 1] == t);
        }
    } else {
        assert(ts.take(0) =~= Seq::empty());
    }
}

/// The two spaces hold the same atoms, know the same mutable values, and agree on what
/// was rejected and on the latch.
spec fn hold_the_same(a: SpaceState, b: SpaceState) -> bool {
    a.paths == b.paths && a.reg.by_id == b.reg.by_id && a.rejected == b.rejected && a.var_free
        == b.var_free
}

/// Storing depends on the mutable values of a registry alone.
proof fn lemma_store_by_ids(t: Term, a: Lowering, b: Lowering)
    requires
        a.vars == b.vars,
        a.reg.by_id == b.reg.by_id,
    ensures
        lower(t, a, Mode::Store).1 == lower(t, b, Mode::Store).1,
        lower(t, a, Mode::Store).0.vars == lower(t, b, Mode::Store).0.vars,
        lower(t, a, Mode::Store).0.reg.by_id == lower(t, b, Mode::Store).0.reg.by_id,
    decreases t, 0nat,
{
    match t {
        Term::Expression(ts, _) => {
            lemma_store_rows_by_ids(ts, a, b);
        },
        Term::Grounded(g) => {
            lemma_register_keeps_ids(a.reg, t);
            lemma_register_keeps_ids(b.reg, t);
        },
        _ => {},
    }
}

/// The same of a row of terms.
proof fn lemma_store_rows_by_ids(ts: Seq<Term>, a: Lowering, b: Lowering)
    requires
        a.vars == b.vars,
        a.reg.by_id == b.reg.by_id,
    ensures
        lower_all(ts, a, Mode::Store).1 == lower_all(ts, b, Mode::Store).1,
        lower_all(ts, a, Mode::Store).0.vars == lower_all(ts, b, Mode::Store).0.vars,
        lower_all(ts, a, Mode::Store).0.reg.by_id == lower_all(ts, b, Mode::Store).0.reg.by_id,
    decreases ts, ts.len(),
{
    if ts.len() > 0 {
        let init = ts.drop_last();
        lemma_store_rows_by_ids(init, a, b);
        lemma_store_by_ids(
            ts.last(),
            lower_all(init, a, Mode::Store).0,
            lower_all(init, b, Mode::Store).0,
        );
    }
}

/// Adding the same atoms to spaces that hold the same leaves them so.
proof fn lemma_adding_all_alike(a: SpaceState, b: SpaceState, us: Seq<Term>)
    requires
        hold_the_same(a, b),
    ensures
        hold_the_same(a.adding_all(us), b.adding_all(us)),
    decreases us.len(),
{
    if us.len() > 0 {
        let init = us.drop_last();
        lemma_adding_all_alike(a, b, init);
        lemma_store_by_ids(us.last(), a.adding_all(init).storing(), b.adding_all(init).storing());
    }
}

/// Adding the atoms at some places is adding those atoms.
proof fn lemma_places_are_atoms(s: SpaceState, ts: Seq<Term>, places: Seq<usize>, us: Seq<Term>)
    requires
        places.len() == us.len(),
        forall|i: int| 0 <= i < us.len() ==> ts[#[trigger] places[i] as int] == us[i],
    ensures
        s.adding_places(ts, places) == s.adding_all(us),
    decreases us.len(),
{
    if us.len() > 0 {
        let (p0, u0) = (places.drop_last(), us.drop_last());
        assert forall|i: int| 0 <= i < u0.len() implies ts[#[trigger] p0[i] as int] == u0[i] by {
            assert(p0[i] == places[i]);
        }
        lemma_places_are_atoms(s, ts, p0, u0);
        assert(places.last() == places[places.len() - 1]);
    }
}

/// Adding atoms without mutable values takes up no mutable value.
proof fn lemma_clean_adds_keep_ids(s: SpaceState, us: Seq<Term>)
    requires
        forall|i: int| 0 <= i < us.len() ==> !has_mutable(#[trigger] us[i]),
    ensures
        s.adding_all(us).reg.by_id == s.reg.by_id,
    decreases us.len(),
{
    if us.len() > 0 {
        let init = us.drop_last();
        assert forall|i: int| 0 <= i < init.len() implies !has_mutable(#[trigger] init[i]) by {
            assert(init[i] == us[i]);
        }
        assert(us.last() == us[us.len() - 1]);
        lemma_clean_adds_keep_ids(s, init);
        crate::codec::lemma_lower_keeps_ids(
            us.last(),
            s.adding_all(init).storing(),
            Mode::Store,
        );
    }
}

/// A bulk load leaves no atom out: it stores, rejects and takes up what adding one by
/// one does, first the atoms without mutable values and then the others in their order.
pub proof fn bulk_loads_add_every_atom(s: SpaceState, ts: Seq<Term>)
    requires
        ts.len() <= usize::MAX,
        s.rejected + ts.len() <= usize::MAX,
    ensures
        ({
            let clean = ts.filter(|t: Term| !has_mutable(t));
            let held = ts.filter(|t: Term| has_mutable(t));
            let one_by_one = s.adding_all(clean).adding_all(held);
            &&& s.extending(ts).paths == one_by_one.paths
            &&& s.extending(ts).rejected == one_by_one.rejected
            &&& s.extending(ts).var_free == one_by_one.var_free
            &&& s.extending(ts).reg.by_id == one_by_one.reg.by_id
        }),
{
    let n = ts.len() as int;
    let l = load(ts, 0, n);
    let clean = ts.filter(|t: Term| !has_mutable(t));
    let held = ts.filter(|t: Term| has_mutable(t));
    assert(ts.take(n) =~= ts);
    lemma_load_parts(ts, n);
    let m = clean.len() as int;
    lemma_bulk_prefix(s, clean, m);
    assert(clean.take(m) =~= clean);
    lemma_clean_adds_keep_ids(s, clean);
    let merged = s.merging(l);
    let base = SpaceState { gen: (merged.gen + 1) as u64, ..merged };
    lemma_places_are_atoms(base, ts, l.sequential, held);
    assert(hold_the_same(base, s.adding_all(clean)));
    lemma_adding_all_alike(base, s.adding_all(clean), held);
}

} // verus!
