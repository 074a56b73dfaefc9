//! Whole-space operations.
use vstd::prelude::*;
use vstd::slice::slice_subrange;
use vstd::utf8::encode_utf8;

use crate::atom::{Atom, Term, VariableAtom};
use crate::colcache::{clone_indexes, index_entries, lemma_listing, listing, ColumnIndex, IndexEntry};
use crate::decode::{raise, raise_all, Reader};
use crate::encode::{
    encode_atom, lemma_lower_fits, lower, variables, GroundedSink, Lowering, Mode, GROUNDED_MARK,
};
use crate::pattern::fresh_lowering;
use crate::paths::PathSet;
use crate::registry::{
    adopting_knows_both_sides, contains_mutable_grounded, has_mutable, part_of, parts_decide, Registry,
};
use crate::rows::{clone_rows, decoded};
use crate::snapshot::MorkSnapshot;
use crate::space::query::fact_reader;
use crate::space::{stored_value_path, tabled, value_path, MorkSpace, SpaceState, TabledRows};
use crate::span::{
    byte_rows, first_variable_item, ground_prefix_len, ground_prefixes_end_at_the_first_variable,
    ground_span, lemma_ground_prefix_inside, variable_at,
};
use crate::table::PathTable;
use crate::tree::{flat, lemma_parse_flat, parse_at, spells, Tree};

verus! {

impl SpaceState {
    /// The space with other contents: the generation moves on, so that every
    /// index and every tabled query has fallen behind.
    pub open spec fn with_paths(self, paths: Set<Seq<u8>>) -> SpaceState {
        SpaceState { paths, gen: (self.gen + 1) as u64, ..self }
    }

    /// The space after text was parsed and loaded. Text with a `$` can spell
    /// variables, so it drops the latch.
    pub open spec fn loading_text(self, text: Seq<char>, loaded: Set<Seq<u8>>) -> SpaceState {
        SpaceState {
            var_free: self.var_free && !encode_utf8(text).contains(36),
            ..self.with_paths(self.paths.union(loaded))
        }
    }

    /// The space after rules ran for some steps and left some contents: they can
    /// have written variables.
    pub open spec fn stepping(self, steps: usize, after: Set<Seq<u8>>) -> SpaceState {
        if steps > 0 {
            SpaceState { var_free: false, ..self.with_paths(after) }
        } else {
            self
        }
    }

    /// The space after saved paths were loaded: they can hold variables.
    pub open spec fn loading_paths(self, loaded: Set<Seq<u8>>) -> SpaceState {
        SpaceState { var_free: false, ..self.with_paths(self.paths.union(loaded)) }
    }

    /// The space restricted to the paths under a prefix.
    pub open spec fn restricted(self, prefix: Seq<u8>) -> SpaceState {
        self.with_paths(self.paths.filter(|p: Seq<u8>| prefix.is_prefix_of(p)))
    }

    /// The space combined with another into some contents: immutable values of
    /// the other become known, and the latch holds only if both do.
    pub open spec fn combined(self, other: SpaceState, paths: Set<Seq<u8>>) -> SpaceState {
        SpaceState {
            reg: self.reg.adopting(other.reg),
            var_free: self.var_free && other.var_free,
            ..self.with_paths(paths)
        }
    }

    /// Neither space holds a mutable value, whose id would mean something else
    /// in the other space.
    pub open spec fn combines_with(self, other: SpaceState) -> bool {
        self.reg.by_id.len() == 0 && other.reg.by_id.len() == 0
    }
}

/// The ground prefix of a pattern: its bytes up to the first variable; none when
/// the pattern holds a mutable value or does not fit.
pub open spec fn ground_prefix(t: Term) -> Option<Seq<u8>> {
    if has_mutable(t) {
        None
    } else {
        match value_path(t) {
            Some(p) => Some(p.take(first_variable_item(p, 0))),
            None => None,
        }
    }
}

/// Other contents leave a space consistent: nothing current is left.
pub proof fn with_paths_is_consistent(s: SpaceState, paths: Set<Seq<u8>>)
    requires
        s.consistent(),
        s.gen < u64::MAX,
    ensures
        s.with_paths(paths).consistent(),
        forall|pattern: Seq<u8>| !#[trigger] s.with_paths(paths).replays(pattern),
{
}

/// Whether a byte string holds a byte.
fn holds_byte(bytes: &[u8], b: u8) -> (r: bool)
    ensures
        r == bytes@.contains(b),
{
    let mut i: usize = 0;
    while i < bytes.len()
        invariant
            i <= bytes@.len(),
            forall|j: int| 0 <= j < i ==> bytes@[j] != b,
        decreases bytes@.len() - i,
    {
        if bytes[i] == b {
            return true;
        }
        i = i + 1;
    }
    false
}

/// Copies of tabled queries.
fn clone_table(t: &PathTable<TabledRows>) -> (r: PathTable<TabledRows>)
    requires
        t.wf(),
    ensures
        r.wf(),
        r@.map_values(|e: TabledRows| tabled(e)) == t@.map_values(|e: TabledRows| tabled(e)),
{
    let mut out: PathTable<TabledRows> = PathTable::new();
    let n: usize = t.len();
    let mut i: usize = 0;
    while i < n
        invariant
            i <= n,
            n == t.rows().len(),
            t.wf(),
            out.wf(),
            forall|k: Seq<u8>| #[trigger]
                out@.contains_key(k) <==> t.rows().take(i as int).contains(k),
            forall|k: Seq<u8>| #[trigger] out@.contains_key(k) ==> tabled(out@[k]) == tabled(t@[k]),
        decreases n - i,
    {
        let ghost before = out@;
        let ghost k0 = t.rows()[i as int];
        let e = t.value_at(i);
        let copy = TabledRows { rows: clone_rows(&e.rows), gen: e.gen };
        out.insert(t.key_at(i).as_slice(), copy);
        proof {
            assert forall|k: Seq<u8>| #[trigger] out@.contains_key(k) <==> t.rows().take(
                i + 1,
            ).contains(k) by {
                let (a, b) = (t.rows().take(i as int), t.rows().take(i + 1));
                assert(b =~= a.push(k0));
                assert(b[i as int] == k0);
                if a.contains(k) {
                    let j = choose|j: int| 0 <= j < a.len() && a[j] == k;
                    assert(b[j] == k);
                }
                if b.contains(k) && k != k0 {
                    let j = choose|j: int| 0 <= j < b.len() && b[j] == k;
                    assert(a[j] == k);
                }
                assert(before.contains_key(k) <==> a.contains(k));
            }
            assert forall|k: Seq<u8>| #[trigger] out@.contains_key(k) implies tabled(out@[k])
                == tabled(t@[k]) by {
                if k != k0 {
                    assert(before.contains_key(k));
                }
            }
        }
        i = i + 1;
    }
    proof {
        assert(t.rows().take(n as int) =~= t.rows());
        assert(out@.map_values(|e: TabledRows| tabled(e)) =~= t@.map_values(
            |e: TabledRows| tabled(e),
        ));
    }
    out
}

impl MorkSpace {
    /// Loads what the parser made of a text: the paths that it loaded, and its
    /// reply.
    pub fn add_sexpr_text(
        &mut self,
        text: &str,
        loaded: &Vec<Vec<u8>>,
        reply: Result<usize, String>,
    ) -> (r: Result<usize, String>)
        requires
            old(self).wf(),
            old(self)@.gen < u64::MAX,
        ensures
            final(self).wf(),
            final(self)@ == old(self)@.loading_text(text@, byte_rows(loaded@).to_set()),
            r == reply,
    {
        let ghost before = self@;
        if holds_byte(text.as_bytes(), 36) {
            self.var_free = false;
        }
        self.mutation_gen = self.mutation_gen + 1;
        self.paths.insert_all(loaded);
        proof {
            with_paths_is_consistent(before, self@.paths);
            assert(self@ =~= before.loading_text(text@, byte_rows(loaded@).to_set()));
        }
        reply
    }

    /// Takes over what the rule engine left after up to `steps` steps, and
    /// returns the number of steps that it took.
    pub fn step(&mut self, steps: usize, after: &Vec<Vec<u8>>, taken: usize) -> (n: usize)
        requires
            old(self).wf(),
            old(self)@.gen < u64::MAX,
        ensures
            final(self).wf(),
            final(self)@ == old(self)@.stepping(steps, byte_rows(after@).to_set()),
            n == taken,
    {
        let ghost before = self@;
        if steps > 0 {
            self.var_free = false;
            self.mutation_gen = self.mutation_gen + 1;
            let mut paths = PathSet::new();
            paths.insert_all(after);
            self.paths = paths;
            proof {
                assert(self@.paths =~= byte_rows(after@).to_set());
                with_paths_is_consistent(before, self@.paths);
                assert(self@ =~= before.stepping(steps, byte_rows(after@).to_set()));
            }
        }
        taken
    }

    /// The paths of the space in byte order, to be written out. The registry is
    /// not among them: an immutable value is read back as its display, and a
    /// mutable one cannot leave the process.
    pub fn save_paths(&self) -> (r: Vec<Vec<u8>>)
        requires
            self.wf(),
        ensures
            byte_rows(r@) == listing(self@.paths),
            byte_rows(r@).to_set() == self@.paths,
    {
        proof {
            lemma_listing(self.paths);
        }
        self.paths.to_vec()
    }

    /// Adds paths that were written out before.
    pub fn load_paths(&mut self, loaded: &Vec<Vec<u8>>)
        requires
            old(self).wf(),
            old(self)@.gen < u64::MAX,
        ensures
            final(self).wf(),
            final(self)@ == old(self)@.loading_paths(byte_rows(loaded@).to_set()),
    {
        let ghost before = self@;
        self.paths.insert_all(loaded);
        self.var_free = false;
        self.mutation_gen = self.mutation_gen + 1;
        proof {
            with_paths_is_consistent(before, self@.paths);
            assert(self@ =~= before.loading_paths(byte_rows(loaded@).to_set()));
        }
    }

    /// Keeps only the atoms under the pattern's ground prefix, and returns how
    /// many there are; `None`, with nothing changed, when the pattern holds a
    /// mutable value or does not fit.
    pub fn restrict_to_prefix(&mut self, pattern: &Atom) -> (r: Option<usize>)
        requires
            old(self).wf(),
            old(self)@.gen < u64::MAX,
        ensures
            final(self).wf(),
            match ground_prefix(pattern@) {
                Some(prefix) => {
                    &&& final(self)@ == old(self)@.restricted(prefix)
                    &&& r is Some
                    &&& r->0 == final(self)@.paths.len()
                },
                None => r is None && final(self)@ == old(self)@,
            },
    {
        let ghost before = self@;
        if contains_mutable_grounded(pattern) {
            return None;
        }
        let mut vars: Vec<VariableAtom> = Vec::new();
        let mut bytes: Vec<u8> = Vec::new();
        let mut sink = GroundedSink::ValueOnly;
        proof {
            assert(variables(vars@) =~= Seq::empty());
        }
        if encode_atom(pattern, &mut vars, &mut bytes, &mut sink).is_err() {
            return None;
        }
        proof {
            let tree = lower(pattern@, fresh_lowering(), Mode::ValueOnly).1->0;
            assert(bytes@ =~= flat(tree));
            lemma_lower_fits(pattern@, fresh_lowering(), Mode::ValueOnly);
            assert(bytes@.subrange(0, bytes@.len() as int) =~= bytes@);
            lemma_parse_flat(bytes@, 0, tree);
            lemma_ground_prefix_inside(bytes@);
            assert(bytes.len() == bytes@.len());
        }
        let n: usize = ground_prefix_len(bytes.as_slice());
        let prefix = slice_subrange(bytes.as_slice(), 0, n);
        self.paths = self.paths.restrict(prefix);
        self.mutation_gen = self.mutation_gen + 1;
        proof {
            with_paths_is_consistent(before, self@.paths);
            assert(self@ =~= before.restricted(prefix@));
        }
        Some(self.paths.len())
    }

    /// A copy of the space that goes its own way from here.
    pub fn fork(&self) -> (r: MorkSpace)
        requires
            self.wf(),
        ensures
            r.wf(),
            r@ == self@,
    {
        let r = MorkSpace {
            paths: self.paths.duplicate(),
            grounded: self.grounded.duplicate(),
            rejected_atoms: self.rejected_atoms,
            column_index_cache: clone_indexes(&self.column_index_cache),
            mutation_gen: self.mutation_gen,
            query_cache: clone_table(&self.query_cache),
            var_free: self.var_free,
        };
        proof {
            assert(r@ =~= self@);
        }
        r
    }

    /// Whether the two spaces can be combined.
    fn can_combine(&self, other: &MorkSpace) -> (r: bool)
        ensures
            r == self@.combines_with(other@),
    {
        self.grounded.no_mutable() && other.grounded.no_mutable()
    }

    /// Takes over the contents of a combination with another space.
    fn combine(&mut self, other: &MorkSpace, paths: PathSet)
        requires
            old(self).wf(),
            other.wf(),
            paths.wf(),
            old(self)@.gen < u64::MAX,
        ensures
            final(self).wf(),
            final(self)@ == old(self)@.combined(other@, paths@),
    {
        let ghost before = self@;
        self.paths = paths;
        self.grounded.adopt(&other.grounded);
        self.var_free = self.var_free && other.var_free;
        self.mutation_gen = self.mutation_gen + 1;
        proof {
            with_paths_is_consistent(before, self@.paths);
            assert(self@ =~= before.combined(other@, paths@));
        }
    }

    /// Adds every atom of the other space. Declines, with nothing changed, when
    /// either space holds mutable grounded values.
    pub fn union_with(&mut self, other: &MorkSpace) -> (done: bool)
        requires
            old(self).wf(),
            other.wf(),
            old(self)@.gen < u64::MAX,
        ensures
            final(self).wf(),
            done == old(self)@.combines_with(other@),
            final(self)@ == if done {
                old(self)@.combined(other@, old(self)@.paths.union(other@.paths))
            } else {
                old(self)@
            },
    {
        if !self.can_combine(other) {
            return false;
        }
        let paths = self.paths.join(&other.paths);
        self.combine(other, paths);
        true
    }

    /// Keeps exactly the atoms that are in both spaces. Declines as `union_with`
    /// does.
    pub fn intersect_with(&mut self, other: &MorkSpace) -> (done: bool)
        requires
            old(self).wf(),
            other.wf(),
            old(self)@.gen < u64::MAX,
        ensures
            final(self).wf(),
            done == old(self)@.combines_with(other@),
            final(self)@ == if done {
                old(self)@.combined(other@, old(self)@.paths.intersect(other@.paths))
            } else {
                old(self)@
            },
    {
        if !self.can_combine(other) {
            return false;
        }
        let paths = self.paths.meet(&other.paths);
        self.combine(other, paths);
        true
    }

    /// Removes every atom that is in the other space. Declines as `union_with`
    /// does.
    pub fn subtract_space(&mut self, other: &MorkSpace) -> (done: bool)
        requires
            old(self).wf(),
            other.wf(),
            old(self)@.gen < u64::MAX,
        ensures
            final(self).wf(),
            done == old(self)@.combines_with(other@),
            final(self)@ == if done {
                old(self)@.combined(other@, old(self)@.paths.difference(other@.paths))
            } else {
                old(self)@
            },
    {
        if !self.can_combine(other) {
            return false;
        }
        let paths = self.paths.subtract(&other.paths);
        self.combine(other, paths);
        true
    }

    /// A read-only copy of the space's atoms with the indexes that are current.
    pub fn snapshot(&self) -> (r: MorkSnapshot)
        requires
            self.wf(),
        ensures
            r.wf(),
            r@.paths == self@.paths,
            r@.var_free == self@.var_free,
            r@.indexes == self@.indexes.filter(|e: IndexEntry| e.gen == self@.gen),
    {
        let ghost keep = |e: IndexEntry| e.gen == self@.gen;
        let ghost all = self@.indexes;
        let mut indexes: Vec<ColumnIndex> = Vec::new();
        let n: usize = self.column_index_cache.len();
        let mut i: usize = 0;
        proof {
            assert(index_entries(indexes@) =~= Seq::empty());
            assert(all.take(0).filter(keep) =~= Seq::empty()) by {
                reveal(Seq::filter);
            }
        }
        while i < n
            invariant
                i <= n,
                n == self.column_index_cache@.len(),
                self.wf(),
                all == self@.indexes,
                keep == (|e: IndexEntry| e.gen == self@.gen),
                forall|j: int| 0 <= j < indexes@.len() ==> (#[trigger] indexes@[j]).wf(),
                index_entries(indexes@) == all.take(i as int).filter(keep),
            decreases n - i,
        {
            let ghost before = indexes@;
            proof {
                assert(all[i as int] == self.column_index_cache@[i as int]@);
                assert(all.take(i + 1).drop_last() =~= all.take(i as int));
                assert(all.take(i + 1).last() == all[i as int]);
                reveal(Seq::filter);
            }
            if self.column_index_cache[i].gen == self.mutation_gen {
                let e = self.column_index_cache[i].duplicate();
                indexes.push(e);
                proof {
                    assert(index_entries(indexes@) =~= index_entries(before).push(e@));
                }
            }
            i = i + 1;
        }
        proof {
            assert(all.take(all.len() as int) =~= all);
            assert forall|j: int| 0 <= j < index_entries(indexes@).len() implies {
                let e = #[trigger] index_entries(indexes@)[j];
                e.pos < e.ncols && e.indexes(self@.paths)
            } by {
                let e = index_entries(indexes@)[j];
                all.lemma_filter_contains_rev(keep, e);
                let k = choose|k: int| 0 <= k < all.len() && all[k] == e;
                assert(all[k] == e);
                all.lemma_filter_pred(keep, j);
            }
        }
        MorkSnapshot::build(self.paths.duplicate(), self.var_free, indexes)
    }
}

/// Loading what another space saved adds its atoms: an atom is held after it
/// exactly when either space held it. Loading it twice stores what loading it once
/// does, and what is loaded into an empty space is exactly what was saved.
pub proof fn saved_paths_load_back(s: SpaceState, other: SpaceState, x: Term)
    ensures
        s.loading_paths(other.paths).paths == s.paths.union(other.paths),
        s.loading_paths(other.paths).holds(x) <==> s.holds(x) || other.holds(x),
        s.loading_paths(other.paths).loading_paths(other.paths).paths == s.loading_paths(
            other.paths,
        ).paths,
        SpaceState::empty().loading_paths(other.paths).paths == other.paths,
{
    assert(s.loading_paths(other.paths).loading_paths(other.paths).paths =~= s.loading_paths(
        other.paths,
    ).paths);
    assert(SpaceState::empty().loading_paths(other.paths).paths =~= other.paths);
}

/// A pattern without variables restricts a space to itself.
pub proof fn ground_patterns_restrict_to_themselves(s: SpaceState, t: Term, p: Seq<u8>)
    requires
        ground_prefix(t) is Some,
        !crate::registry::has_variable(t),
        s.restricted(ground_prefix(t)->0).paths.contains(p),
        spells(p),
    ensures
        p == value_path(t)->0,
{
    let tree = lower(t, fresh_lowering(), Mode::ValueOnly).1->0;
    let b = flat(tree);
    lemma_lower_fits(t, fresh_lowering(), Mode::ValueOnly);
    crate::codec::ground_bytes_have_no_variable(t, fresh_lowering(), Mode::ValueOnly);
    assert(b.subrange(0, b.len() as int) =~= b);
    lemma_parse_flat(b, 0, tree);
    lemma_ground_prefix_inside(b);
    assert(b.take(b.len() as int) =~= b);
    crate::tree::lemma_parse_sound(p, 0);
    let other = crate::tree::parse_at(p, 0).unwrap().0;
    assert(p.subrange(0, p.len() as int) =~= p);
    crate::tree::encodings_are_prefix_free(tree, other);
}

/// Set algebra on spaces is set algebra on their atoms: a union holds what either
/// side holds, an intersection what both hold, and a difference what only the
/// first holds.
pub proof fn algebra_is_per_atom(s: SpaceState, other: SpaceState, t: Term)
    ensures
        s.combined(other, s.paths.union(other.paths)).holds(t) == (s.holds(t) || other.holds(t)),
        s.combined(other, s.paths.intersect(other.paths)).holds(t) == (s.holds(t) && other.holds(
            t,
        )),
        s.combined(other, s.paths.difference(other.paths)).holds(t) == (s.holds(t)
            && !other.holds(t)),
{
}

/// Combining keeps the latch sound.
pub proof fn combining_keeps_the_latch_sound(s: SpaceState, other: SpaceState)
    requires
        s.latch_sound(),
        other.latch_sound(),
    ensures
        s.combined(other, s.paths.union(other.paths)).latch_sound(),
        s.combined(other, s.paths.intersect(other.paths)).latch_sound(),
        s.combined(other, s.paths.difference(other.paths)).latch_sound(),
{
}

/// Restricting keeps the latch sound.
pub proof fn restricting_keeps_the_latch_sound(s: SpaceState, prefix: Seq<u8>)
    requires
        s.latch_sound(),
    ensures
        s.restricted(prefix).latch_sound(),
{
}

/// Loading text keeps the latch sound when text without a `$` spells no
/// variable.
pub proof fn loading_text_keeps_the_latch_sound(
    s: SpaceState,
    text: Seq<char>,
    loaded: Set<Seq<u8>>,
)
    requires
        s.latch_sound(),
        !encode_utf8(text).contains(36) ==> forall|p: Seq<u8>| #[trigger]
            loaded.contains(p) ==> ground_span(p),
    ensures
        s.loading_text(text, loaded).latch_sound(),
{
}

/// A space and its fork go separate ways: after one of them got an atom and the
/// other another, each holds what both held and its own atom, and nothing of what
/// the other got; and what one removes the other keeps.
pub proof fn forks_go_separate_ways(s: SpaceState, fork: SpaceState, t: Term, u: Term, x: Term)
    requires
        fork == s,
        !has_mutable(t),
        !has_mutable(u),
    ensures
        fork.adding(t).holds(x) == (s.holds(x) || (value_path(x) is Some && value_path(x)
            == stored_value_path(t))),
        s.adding(u).holds(x) == (fork.holds(x) || (value_path(x) is Some && value_path(x)
            == stored_value_path(u))),
        fork.removing(t).holds(x) == (s.holds(x) && value_path(x) != value_path(t)),
        s.removing(u).holds(x) == (fork.holds(x) && value_path(x) != value_path(u)),
{
    crate::space::added_atoms_are_held(s, t);
    crate::space::added_atoms_are_held(s, u);
}

/// Taking over what a rewrite wrote removes nothing and stores nothing else.
pub proof fn rewrites_only_add(s: SpaceState, written: Set<Seq<u8>>, p: Seq<u8>)
    ensures
        s.loading_paths(written).paths.contains(p) <==> s.paths.contains(p) || written.contains(p),
{
}

/// Every immutable grounded value that the tree stands for is kept by the registry
/// under its display.
pub open spec fn displays_known(t: Tree, reg: Registry) -> bool
    decreases t,
{
    match t {
        Tree::Sym(raw) => raw.len() > 0 && raw[0] == GROUNDED_MARK ==> reg.by_display.contains_key(
            raw.drop_first(),
        ),
        Tree::Expr(ts) => forall|i: int|
            0 <= i < ts.len() ==> displays_known(#[trigger] ts[i], reg),
        _ => true,
    }
}

/// A tree whose displays are known reads alike with every registry that keeps the
/// same values under them.
proof fn lemma_known_trees_read_alike(t: Tree, r: Reader, a: Registry, b: Registry, n: nat)
    requires
        displays_known(t, a),
        r.grounded == Some(a),
        forall|k: Seq<u8>| #[trigger]
            a.by_display.contains_key(k) ==> b.by_display.contains_key(k) && b.by_display[k]
                == a.by_display[k],
        a.by_id == b.by_id,
    ensures
        raise(t, r, n) == raise(t, Reader { grounded: Some(b), ..r }, n),
    decreases t, 0nat,
{
    if let Tree::Expr(ts) = t {
        assert forall|i: int| 0 <= i < ts.len() implies displays_known(#[trigger] ts[i], a) by {
            assert(t->Expr_0[i] == ts[i]);
        }
        lemma_known_rows_read_alike(ts, r, a, b, n);
    }
}

/// The same of a row of trees.
proof fn lemma_known_rows_read_alike(ts: Seq<Tree>, r: Reader, a: Registry, b: Registry, n: nat)
    requires
        forall|i: int| 0 <= i < ts.len() ==> displays_known(#[trigger] ts[i], a),
        r.grounded == Some(a),
        forall|k: Seq<u8>| #[trigger]
            a.by_display.contains_key(k) ==> b.by_display.contains_key(k) && b.by_display[k]
                == a.by_display[k],
        a.by_id == b.by_id,
    ensures
        raise_all(ts, r, n) == raise_all(ts, Reader { grounded: Some(b), ..r }, n),
    decreases ts, ts.len(),
{
    if ts.len() > 0 {
        let init = ts.drop_last();
        assert forall|i: int| 0 <= i < init.len() implies displays_known(#[trigger] init[i], a) by {
            assert(init[i] == ts[i]);
        }
        assert(ts.last() == ts[ts.len() - 1]);
        lemma_known_rows_read_alike(init, r, a, b, n);
        if let Some((_, n1)) = raise_all(init, r, n) {
            lemma_known_trees_read_alike(ts.last(), r, a, b, n1);
        }
    }
}

/// After two spaces were combined every display that either of them kept is known,
/// and an atom reads as it did in the space that it came from, where the two agree
/// on the displays that both keep.
pub proof fn combined_atoms_read_as_before(
    s: SpaceState,
    other: SpaceState,
    paths: Set<Seq<u8>>,
    t: Tree,
    r: Reader,
    n: nat,
)
    requires
        s.combines_with(other),
        forall|k: Seq<u8>| #[trigger]
            s.reg.by_display.contains_key(k) && other.reg.by_display.contains_key(k)
                ==> s.reg.by_display[k] == other.reg.by_display[k],
    ensures
        forall|k: Seq<u8>|
            #[trigger] s.combined(other, paths).reg.by_display.contains_key(k)
                <==> s.reg.by_display.contains_key(k) || other.reg.by_display.contains_key(k),
        displays_known(t, s.reg) ==> raise(
            t,
            Reader { grounded: Some(s.combined(other, paths).reg), ..r },
            n,
        ) == raise(t, Reader { grounded: Some(s.reg), ..r }, n),
        displays_known(t, other.reg) ==> raise(
            t,
            Reader { grounded: Some(s.combined(other, paths).reg), ..r },
            n,
        ) == raise(t, Reader { grounded: Some(other.reg), ..r }, n),
{
    let all = s.combined(other, paths).reg;
    assert forall|k: Seq<u8>| #[trigger] all.by_display.contains_key(k) <==> (
    s.reg.by_display.contains_key(k) || other.reg.by_display.contains_key(k)) by {
        adopting_knows_both_sides(s.reg, other.reg, k);
    }
    assert(s.reg.by_id =~= other.reg.by_id);
    if displays_known(t, s.reg) {
        lemma_known_trees_read_alike(
            t,
            Reader { grounded: Some(s.reg), ..r },
            s.reg,
            all,
            n,
        );
    }
    if displays_known(t, other.reg) {
        lemma_known_trees_read_alike(
            t,
            Reader { grounded: Some(other.reg), ..r },
            other.reg,
            all,
            n,
        );
    }
}

/// A visit of two spaces that were combined gives back each atom as a visit of the
/// space that it came from does.
pub proof fn combined_paths_read_as_before(
    s: SpaceState,
    other: SpaceState,
    paths: Set<Seq<u8>>,
    p: Seq<u8>,
    id: usize,
)
    requires
        s.combines_with(other),
        forall|k: Seq<u8>| #[trigger]
            s.reg.by_display.contains_key(k) && other.reg.by_display.contains_key(k)
                ==> s.reg.by_display[k] == other.reg.by_display[k],
        spells(p),
    ensures
        displays_known(parse_at(p, 0).unwrap().0, s.reg) ==> decoded(
            p,
            fact_reader(s.combined(other, paths).reg, id),
            0,
        ) == decoded(p, fact_reader(s.reg, id), 0),
        displays_known(parse_at(p, 0).unwrap().0, other.reg) ==> decoded(
            p,
            fact_reader(s.combined(other, paths).reg, id),
            0,
        ) == decoded(p, fact_reader(other.reg, id), 0),
{
    combined_atoms_read_as_before(
        s,
        other,
        paths,
        parse_at(p, 0).unwrap().0,
        fact_reader(s.reg, id),
        0,
    );
}

/// A load adds what it brings and takes nothing away; text without a `$` keeps the
/// latch, anything else that is loaded drops it.
pub proof fn loads_only_add(s: SpaceState, text: Seq<char>, loaded: Set<Seq<u8>>, p: Seq<u8>)
    requires
        s.gen < u64::MAX,
    ensures
        ({
            let read = s.loading_text(text, loaded);
            let restored = s.loading_paths(loaded);
            &&& read.paths.contains(p) <==> s.paths.contains(p) || loaded.contains(p)
            &&& restored.paths.contains(p) <==> s.paths.contains(p) || loaded.contains(p)
            &&& read.var_free <==> s.var_free && !encode_utf8(text).contains(36u8)
            &&& !restored.var_free
            &&& read.reg == s.reg && restored.reg == s.reg
            &&& read.rejected == s.rejected && restored.rejected == s.rejected
            &&& read.gen == s.gen + 1 && restored.gen == s.gen + 1
        }),
{
}

/// No step leaves a space as it is; any step leaves what the rules left, drops the
/// latch and moves the generation on.
pub proof fn steps_leave_what_the_rules_left(s: SpaceState, steps: usize, after: Set<Seq<u8>>)
    requires
        s.gen < u64::MAX,
    ensures
        steps == 0 ==> s.stepping(steps, after) == s,
        steps > 0 ==> {
            let r = s.stepping(steps, after);
            &&& r.paths == after
            &&& !r.var_free
            &&& r.gen == s.gen + 1
            &&& r.reg == s.reg
            &&& r.rejected == s.rejected
        },
{
}

/// A pattern restricts a space to the paths that begin with the pattern's bytes before
/// its first variable. It does not exactly when a mutable value stands in it or it
/// cannot be encoded.
pub proof fn restrictions_keep_what_begins_alike(s: SpaceState, t: Term, p: Seq<u8>)
    requires
        s.gen < u64::MAX,
    ensures
        ({
            let nothing = Lowering {
                vars: Seq::empty(),
                refs: Seq::empty(),
                reg: Registry { by_display: Map::empty(), by_id: Seq::empty() },
                spans: Seq::empty(),
            };
            let tree = lower(t, nothing, Mode::ValueOnly).1;
            &&& ground_prefix(t) is None <==> tree is None || exists|x: Term| #[trigger]
                part_of(x, t) && x is Grounded && x->Grounded_0.mutable
            &&& ground_prefix(t) matches Some(prefix) ==> {
                let kept = s.restricted(prefix);
                let bytes = flat(tree->0);
                &&& prefix.len() <= bytes.len()
                &&& prefix == bytes.take(prefix.len() as int)
                &&& forall|at: int| #[trigger] variable_at(tree->0, at) ==> prefix.len() <= at
                &&& prefix.len() < bytes.len() ==> variable_at(tree->0, prefix.len() as int)
                &&& kept.paths.contains(p) <==> s.paths.contains(p) && prefix.len() <= p.len()
                    && p.take(prefix.len() as int) == prefix
                &&& kept.var_free == s.var_free
                &&& kept.reg == s.reg
                &&& kept.rejected == s.rejected
                &&& kept.gen == s.gen + 1
            }
        }),
{
    let start = fresh_lowering();
    let tree = lower(t, start, Mode::ValueOnly).1;
    parts_decide(t);
    if tree is Some {
        lemma_lower_fits(t, start, Mode::ValueOnly);
        let b = flat(tree->0);
        assert(b.subrange(0, b.len() as int) =~= b);
        lemma_parse_flat(b, 0, tree->0);
        ground_prefixes_end_at_the_first_variable(b);
        lemma_ground_prefix_inside(b);
        if ground_prefix(t) is Some {
            let prefix = ground_prefix(t)->0;
            assert(prefix =~= b.take(prefix.len() as int));
            if s.restricted(prefix).paths.contains(p) {
                assert(p.take(prefix.len() as int) =~= prefix);
            }
            if prefix.len() <= p.len() && p.take(prefix.len() as int) == prefix {
                assert(prefix.is_prefix_of(p));
            }
        }
    }
}

/// Combining takes the paths that it is given, keeps what was rejected, knows no
/// mutable value beyond its own, and keeps the latch only where both sides do.
pub proof fn combining_takes_the_given_paths(
    s: SpaceState,
    other: SpaceState,
    paths: Set<Seq<u8>>,
)
    requires
        s.gen < u64::MAX,
    ensures
        s.combined(other, paths).paths == paths,
        s.combined(other, paths).rejected == s.rejected,
        s.combined(other, paths).gen == s.gen + 1,
        s.combined(other, paths).var_free <==> s.var_free && other.var_free,
        s.combined(other, paths).reg.by_id == s.reg.by_id,
        s.combines_with(other) <==> s.reg.by_id == Seq::<Term>::empty() && other.reg.by_id
            == Seq::<Term>::empty(),
{
    if s.combines_with(other) {
        assert(s.reg.by_id =~= Seq::<Term>::empty());
        assert(other.reg.by_id =~= Seq::<Term>::empty());
    }
}

} // verus!
