//! The atomspace: a set of encoded atoms with its registry, its column indexes
//! and its tabled queries.
use vstd::prelude::*;
use vstd::utf8::encode_utf8;

pub mod bulk;
pub mod history;
pub mod instance;
pub mod ops;
pub mod query;
pub mod reduce;
pub mod report;
pub mod rules;
pub mod transform;

use crate::atom::{Atom, Term, Variable, VariableAtom};
use crate::codec::{
    cells, cells_are_stored_by_identity, ground_bytes_have_no_variable, lemma_cells_take_ids,
    lemma_lower_grows, modes_agree, part_fits, stored_values_are_known,
    terms_encode_when_their_parts_fit,
};
use crate::colcache::{absorbed_indexes_equal_rebuilt_ones, index_entries, ColumnIndex, IndexEntry};
use crate::encode::{encode_atom, lemma_lower_fits, lower, variables, GroundedSink, Lowering, Mode};
use crate::pattern::{
    fresh_lowering, renamed, renamed_lowering, renamed_terms_encode_alike, renames_apart,
};
use crate::paths::PathSet;
use crate::registry::{
    contains_variable, has_mutable, has_variable, part_of, parts_decide, GroundedRegistry, Registry,
};
use crate::rows::{matches_of, RawRow, Row};
use crate::space::query::{QUERY_CACHE_MAX_ENTRIES, QUERY_CACHE_MAX_ROWS};
use crate::span::ground_span;
use crate::table::PathTable;
use crate::text::{decimal, push_decimal, push_text};
use crate::tree::{flat, lemma_parse_flat};

verus! {

/// The rows that a query's pattern matched, and the generation in which it did.
#[derive(Debug)]
pub struct TabledRows {
    pub rows: Vec<RawRow>,
    pub gen: u64,
}

/// The state of a space: the encoded atoms, the registry, the number of atoms
/// that were rejected, the mutation generation, whether every atom is known to
/// be free of variables, the column indexes, and the tabled queries by pattern.
#[verifier::ext_equal]
pub struct SpaceState {
    pub paths: Set<Seq<u8>>,
    pub reg: Registry,
    pub rejected: usize,
    pub gen: u64,
    pub var_free: bool,
    pub indexes: Seq<IndexEntry>,
    pub table: Map<Seq<u8>, (Seq<Row>, u64)>,
}

/// An atom with more distinct variables than this is not stored.
pub const MAX_VARIABLES: usize = 64;

/// The encoding of a term without a registry.
pub open spec fn value_path(t: Term) -> Option<Seq<u8>> {
    match lower(t, fresh_lowering(), Mode::ValueOnly).1 {
        Some(tree) => Some(flat(tree)),
        None => None,
    }
}

/// Number of distinct variables of a term.
pub open spec fn distinct_variables(t: Term) -> nat {
    lower(t, fresh_lowering(), Mode::ValueOnly).0.vars.len()
}

/// The encoding under which a term is stored without a registry; none when it
/// does not fit, or has too many distinct variables.
pub open spec fn stored_value_path(t: Term) -> Option<Seq<u8>> {
    if distinct_variables(t) <= MAX_VARIABLES {
        value_path(t)
    } else {
        None
    }
}

/// No index is ahead of generation `gen`, and those of that generation are what
/// a rebuild over the paths would give.
pub open spec fn indexes_current(
    indexes: Seq<IndexEntry>,
    paths: Set<Seq<u8>>,
    gen: u64,
) -> bool {
    forall|i: int|
        0 <= i < indexes.len() ==> {
            let e = #[trigger] indexes[i];
            &&& e.pos < e.ncols
            &&& e.gen <= gen
            &&& e.gen == gen ==> e.indexes(paths)
        }
}

/// No two indexes are about the same column.
pub open spec fn columns_distinct(indexes: Seq<IndexEntry>) -> bool {
    forall|i: int, j: int|
        0 <= i < j < indexes.len() ==> !(#[trigger] indexes[i]).same_column(#[trigger] indexes[j])
}

/// No tabled rows are ahead of generation `gen`, and the table keeps to its caps:
/// on its patterns, and on the rows of each.
pub open spec fn table_current(table: Map<Seq<u8>, (Seq<Row>, u64)>, gen: u64) -> bool {
    &&& table.dom().finite()
    &&& table.len() <= QUERY_CACHE_MAX_ENTRIES
    &&& forall|k: Seq<u8>| #[trigger]
        table.contains_key(k) ==> table[k].1 <= gen && table[k].0.len() <= QUERY_CACHE_MAX_ROWS
}

impl SpaceState {
    /// The empty space.
    pub open spec fn empty() -> SpaceState {
        SpaceState {
            paths: Set::empty(),
            reg: Registry::empty(),
            rejected: 0,
            gen: 0,
            var_free: true,
            indexes: Seq::empty(),
            table: Map::empty(),
        }
    }

    /// Every index that is current is the one that a rebuild would give, nothing
    /// is ahead of the space, and the table keeps to its caps.
    pub open spec fn consistent(self) -> bool {
        &&& indexes_current(self.indexes, self.paths, self.gen)
        &&& columns_distinct(self.indexes)
        &&& table_current(self.table, self.gen)
    }

    /// While the latch holds, no stored atom has a variable.
    pub open spec fn latch_sound(self) -> bool {
        self.var_free ==> forall|p: Seq<u8>| #[trigger] self.paths.contains(p) ==> ground_span(p)
    }

    /// The indexes after one fact came or went.
    pub open spec fn absorbing(self, fact: Seq<u8>, added: bool) -> Seq<IndexEntry> {
        self.indexes.map_values(|e: IndexEntry| e.absorbing(fact, added, self.gen))
    }

    /// What storing a term meets at the start.
    pub open spec fn storing(self) -> Lowering {
        Lowering { reg: self.reg, ..fresh_lowering() }
    }

    /// The encoding under which a term is stored; none when it does not fit, or
    /// has too many distinct variables.
    pub open spec fn store_path(self, t: Term) -> Option<Seq<u8>> {
        match lower(t, self.storing(), Mode::Store) {
            (s, Some(tree)) => if s.vars.len() <= MAX_VARIABLES {
                Some(flat(tree))
            } else {
                None
            },
            (_, None) => None,
        }
    }

    /// The space after a term was added. A term that does not fit the encoding
    /// is counted as rejected; the registry keeps what was met before that
    /// showed.
    pub open spec fn adding(self, t: Term) -> SpaceState {
        let reg = lower(t, self.storing(), Mode::Store).0.reg;
        match self.store_path(t) {
            Some(p) => SpaceState {
                paths: self.paths.insert(p),
                reg,
                gen: (self.gen + 1) as u64,
                var_free: self.var_free && !has_variable(t),
                indexes: self.absorbing(p, true),
                ..self
            },
            None => SpaceState { reg, rejected: (self.rejected + 1) as usize, ..self },
        }
    }

    /// The space after a term was removed: stored bytes are found by content.
    pub open spec fn removing(self, t: Term) -> SpaceState {
        match value_path(t) {
            Some(p) => SpaceState {
                paths: self.paths.remove(p),
                gen: (self.gen + 1) as u64,
                indexes: self.absorbing(p, false),
                ..self
            },
            None => self,
        }
    }

    /// A term is stored under its content.
    pub open spec fn holds(self, t: Term) -> bool {
        value_path(t) matches Some(p) && self.paths.contains(p)
    }
}

/// A space of atoms.
pub struct MorkSpace {
    paths: PathSet,
    grounded: GroundedRegistry,
    rejected_atoms: usize,
    column_index_cache: Vec<ColumnIndex>,
    mutation_gen: u64,
    query_cache: PathTable<TabledRows>,
    var_free: bool,
}

/// The model of tabled rows.
pub open spec fn tabled(t: TabledRows) -> (Seq<Row>, u64) {
    (matches_of(t.rows@), t.gen)
}

impl View for MorkSpace {
    type V = SpaceState;

    closed spec fn view(&self) -> SpaceState {
        SpaceState {
            paths: self.paths@,
            reg: self.grounded@,
            rejected: self.rejected_atoms,
            gen: self.mutation_gen,
            var_free: self.var_free,
            indexes: index_entries(self.column_index_cache@),
            table: self.query_cache@.map_values(|t: TabledRows| tabled(t)),
        }
    }
}

impl MorkSpace {
    /// The parts are in order.
    pub closed spec fn parts_wf(&self) -> bool {
        &&& self.paths.wf()
        &&& self.grounded.wf()
        &&& self.query_cache.wf()
        &&& forall|i: int|
            0 <= i < self.column_index_cache@.len() ==> (
            #[trigger] self.column_index_cache@[i]).wf()
    }

    /// The parts are in order and consistent with each other.
    pub open spec fn wf(&self) -> bool {
        self.parts_wf() && self@.consistent()
    }

    /// Creates an empty space.
    pub fn new() -> (r: MorkSpace)
        ensures
            r.wf(),
            r@ == SpaceState::empty(),
    {
        let r = MorkSpace {
            paths: PathSet::new(),
            grounded: GroundedRegistry::new(),
            rejected_atoms: 0,
            column_index_cache: Vec::new(),
            mutation_gen: 0,
            query_cache: PathTable::new(),
            var_free: true,
        };
        proof {
            assert(r@.table =~= Map::empty());
            assert(r@.indexes =~= Seq::empty());
            assert(r@ =~= SpaceState::empty());
        }
        r
    }

    /// Number of atoms currently stored.
    pub fn len(&self) -> (n: usize)
        requires
            self.wf(),
        ensures
            n == self@.paths.len(),
            self@.paths.finite(),
    {
        self.paths.len()
    }

    /// Whether the space holds no atoms.
    pub fn is_empty(&self) -> (r: bool)
        requires
            self.wf(),
        ensures
            r == (self@.paths.len() == 0),
    {
        self.len() == 0
    }

    /// Number of atoms, always known.
    pub fn atom_count(&self) -> (r: Option<usize>)
        requires
            self.wf(),
        ensures
            r is Some,
            r->0 == self@.paths.len(),
    {
        Some(self.len())
    }

    /// Number of atoms rejected by `add` because they do not fit the byte
    /// encoding: a symbol or display of more than 63 bytes, an arity above 63,
    /// or more than 64 distinct variables.
    pub fn rejected_atom_count(&self) -> (n: usize)
        ensures
            n == self@.rejected,
    {
        self.rejected_atoms
    }

    /// The mutation generation: moved on by every mutation.
    pub fn generation(&self) -> (g: u64)
        ensures
            g == self@.gen,
    {
        self.mutation_gen
    }

    /// A short description of the space: how many atoms it holds.
    pub fn describe(&self) -> (r: String)
        requires
            self.wf(),
        ensures
            r@ == "MorkSpace("@ + decimal(self@.paths.len()) + " atoms)"@,
    {
        let mut s = String::new();
        push_text(&mut s, "MorkSpace(");
        push_decimal(&mut s, self.len() as u64);
        push_text(&mut s, " atoms)");
        proof {
            assert(s@ =~= "MorkSpace("@ + decimal(self@.paths.len()) + " atoms)"@);
        }
        s
    }

    /// Maintains the column indexes across the coming or going of one fact.
    fn update_column_indexes(&mut self, bytes: &[u8], added: bool)
        requires
            old(self).parts_wf(),
            old(self)@.gen < u64::MAX,
        ensures
            final(self).parts_wf(),
            final(self)@ == (SpaceState {
                gen: (old(self)@.gen + 1) as u64,
                indexes: old(self)@.absorbing(bytes@, added),
                ..old(self)@
            }),
    {
        let ghost before = *self;
        let gen: u64 = self.mutation_gen;
        let mut rest: Vec<ColumnIndex> = Vec::new();
        std::mem::swap(&mut rest, &mut self.column_index_cache);
        let ghost all = rest@;
        let mut out: Vec<ColumnIndex> = Vec::new();
        let n: usize = rest.len();
        let mut i: usize = 0;
        while i < n
            invariant
                i <= n,
                n == all.len(),
                gen < u64::MAX,
                rest@ == all.skip(i as int),
                forall|j: int| 0 <= j < n ==> (#[trigger] all[j]).wf(),
                out@.len() == i,
                forall|j: int|
                    0 <= j < i ==> (#[trigger] out@[j]).wf() && out@[j]@ == all[j]@.absorbing(
                        bytes@,
                        added,
                        gen,
                    ),
            decreases n - i,
        {
            let e = rest.remove(0);
            proof {
                assert(e == all[i as int]);
                assert(rest@ =~= all.skip(i + 1));
            }
            out.push(e.absorb(bytes, added, gen));
            i = i + 1;
        }
        self.column_index_cache = out;
        self.mutation_gen = gen + 1;
        proof {
            assert(self@.indexes =~= before@.absorbing(bytes@, added)) by {
                assert forall|j: int| 0 <= j < n implies #[trigger] index_entries(out@)[j]
                    == before@.indexes[j].absorbing(bytes@, added, gen) by {
                    assert(out@[j]@ == all[j]@.absorbing(bytes@, added, gen));
                }
            }
            assert(self@ =~= (SpaceState {
                gen: (before@.gen + 1) as u64,
                indexes: before@.absorbing(bytes@, added),
                ..before@
            }));
        }
    }

    /// Adds an atom. One that does not fit the encoding is counted as rejected.
    pub fn add(&mut self, atom: Atom)
        requires
            old(self).wf(),
            old(self)@.gen < u64::MAX,
            old(self)@.rejected < usize::MAX,
        ensures
            final(self).wf(),
            final(self)@ == old(self)@.adding(atom@),
    {
        let ghost before = self@;
        let mut vars: Vec<VariableAtom> = Vec::new();
        let mut bytes: Vec<u8> = Vec::new();
        let mut reg = GroundedRegistry::new();
        std::mem::swap(&mut reg, &mut self.grounded);
        let mut sink = GroundedSink::Store(reg);
        proof {
            assert(variables(vars@) =~= Seq::empty());
        }
        let fits = encode_atom(&atom, &mut vars, &mut bytes, &mut sink).is_ok();
        match sink {
            GroundedSink::Store(reg) => {
                self.grounded = reg;
            },
            _ => {},
        }
        proof {
            assert(variables(vars@).len() == vars@.len());
        }
        if fits && vars.len() <= MAX_VARIABLES {
            proof {
                assert(bytes@ =~= before.store_path(atom@)->0);
            }
            if contains_variable(&atom) {
                self.var_free = false;
            }
            self.update_column_indexes(bytes.as_slice(), true);
            let _ = self.paths.insert(bytes.as_slice());
        } else {
            self.rejected_atoms = self.rejected_atoms + 1;
        }
        proof {
            assert(self@ =~= before.adding(atom@));
            adding_keeps_consistency(before, atom@);
        }
    }

    /// Removes an atom by its content; returns whether it was there. An atom
    /// with a mutable value was stored under that value's id, so it is not found
    /// by content.
    pub fn remove(&mut self, atom: &Atom) -> (removed: bool)
        requires
            old(self).wf(),
            old(self)@.gen < u64::MAX,
        ensures
            final(self).wf(),
            final(self)@ == old(self)@.removing(atom@),
            removed == old(self)@.holds(atom@),
    {
        let ghost before = self@;
        let mut vars: Vec<VariableAtom> = Vec::new();
        let mut bytes: Vec<u8> = Vec::new();
        let mut sink = GroundedSink::ValueOnly;
        proof {
            assert(variables(vars@) =~= Seq::empty());
        }
        if encode_atom(atom, &mut vars, &mut bytes, &mut sink).is_err() {
            return false;
        }
        proof {
            assert(bytes@ =~= value_path(atom@)->0);
        }
        self.update_column_indexes(bytes.as_slice(), false);
        let removed = self.paths.remove(bytes.as_slice());
        proof {
            assert(self@ =~= before.removing(atom@));
            removing_keeps_consistency(before, atom@);
        }
        removed
    }

    /// Removes one atom and adds another in its place; returns whether the first
    /// was there. If it was not, the other is not added.
    pub fn replace(&mut self, from: &Atom, to: Atom) -> (replaced: bool)
        requires
            old(self).wf(),
            old(self)@.gen < u64::MAX - 1,
            old(self)@.rejected < usize::MAX,
        ensures
            final(self).wf(),
            replaced == old(self)@.holds(from@),
            final(self)@ == if replaced {
                old(self)@.removing(from@).adding(to@)
            } else {
                old(self)@.removing(from@)
            },
    {
        if self.remove(from) {
            self.add(to);
            true
        } else {
            false
        }
    }
}

impl Default for MorkSpace {
    fn default() -> (r: MorkSpace)
        ensures
            r.wf(),
            r@ == SpaceState::empty(),
    {
        MorkSpace::new()
    }
}

/// Mutating one fact keeps the indexes consistent.
proof fn lemma_absorbing_consistent(s: SpaceState, fact: Seq<u8>, added: bool)
    requires
        s.consistent(),
        s.gen < u64::MAX,
    ensures
        (SpaceState {
            paths: if added {
                s.paths.insert(fact)
            } else {
                s.paths.remove(fact)
            },
            gen: (s.gen + 1) as u64,
            indexes: s.absorbing(fact, added),
            ..s
        }).consistent(),
{
    let after = SpaceState {
        paths: if added {
            s.paths.insert(fact)
        } else {
            s.paths.remove(fact)
        },
        gen: (s.gen + 1) as u64,
        indexes: s.absorbing(fact, added),
        ..s
    };
    assert forall|i: int| 0 <= i < after.indexes.len() implies {
        let e = #[trigger] after.indexes[i];
        &&& e.pos < e.ncols
        &&& e.gen <= after.gen
        &&& e.gen == after.gen ==> e.indexes(after.paths)
    } by {
        let e = s.indexes[i];
        assert(after.indexes[i] == e.absorbing(fact, added, s.gen));
        if e.gen == s.gen && after.indexes[i].gen == after.gen {
            absorbed_indexes_equal_rebuilt_ones(e, s.paths, fact, added, s.gen);
        }
    }
    assert forall|i: int, j: int| 0 <= i < j < after.indexes.len() implies !(
    #[trigger] after.indexes[i]).same_column(#[trigger] after.indexes[j]) by {
        assert(after.indexes[i] == s.indexes[i].absorbing(fact, added, s.gen));
        assert(after.indexes[j] == s.indexes[j].absorbing(fact, added, s.gen));
        assert(!s.indexes[i].same_column(s.indexes[j]));
    }
}

/// Adding keeps a space consistent: a current index stays what a rebuild would
/// give.
pub proof fn adding_keeps_consistency(s: SpaceState, t: Term)
    requires
        s.consistent(),
        s.gen < u64::MAX,
    ensures
        s.adding(t).consistent(),
{
    if let Some(p) = s.store_path(t) {
        lemma_absorbing_consistent(s, p, true);
    }
}

/// Removing keeps a space consistent.
pub proof fn removing_keeps_consistency(s: SpaceState, t: Term)
    requires
        s.consistent(),
        s.gen < u64::MAX,
    ensures
        s.removing(t).consistent(),
{
    if let Some(p) = value_path(t) {
        lemma_absorbing_consistent(s, p, false);
    }
}

/// Adding keeps the latch sound: a term with a variable drops it.
pub proof fn adding_keeps_the_latch_sound(s: SpaceState, t: Term)
    requires
        s.latch_sound(),
    ensures
        s.adding(t).latch_sound(),
{
    let start = s.storing();
    if s.store_path(t) is Some {
        let tree = lower(t, start, Mode::Store).1->0;
        ground_bytes_have_no_variable(t, start, Mode::Store);
        lemma_lower_fits(t, start, Mode::Store);
        let b = flat(tree);
        assert(b.subrange(0, b.len() as int) =~= b);
        lemma_parse_flat(b, 0, tree);
    }
}

/// An atom without mutable values is stored under its content: once added it is
/// held, and once removed it is not.
pub proof fn added_atoms_are_held(s: SpaceState, t: Term)
    requires
        !has_mutable(t),
    ensures
        s.store_path(t) == stored_value_path(t),
        stored_value_path(t) is Some ==> s.adding(t).holds(t),
        !s.removing(t).holds(t),
{
    modes_agree(t, s.storing(), Mode::Store, fresh_lowering(), Mode::ValueOnly);
}

/// Atoms with equal mutable values stay distinct: adding one twice stores it
/// under two paths.
pub proof fn equal_cells_stay_distinct(s: SpaceState, t: Term)
    requires
        has_mutable(t),
        s.store_path(t) is Some,
        s.adding(t).store_path(t) is Some,
        s.adding(t).reg.by_id.len() <= u64::MAX,
    ensures
        s.store_path(t) != s.adding(t).store_path(t),
{
    let (s1, s2) = (s.storing(), s.adding(t).storing());
    lemma_cells_take_ids(t, s1);
    cells_are_stored_by_identity(t, s1, s2);
    lemma_lower_fits(t, s1, Mode::Store);
    lemma_lower_fits(t, s2, Mode::Store);
    let (a, b) = (lower(t, s1, Mode::Store).1->0, lower(t, s2, Mode::Store).1->0);
    if flat(a) == flat(b) {
        crate::tree::flat_is_injective(a, b);
    }
}

/// Adding an atom without mutable values is set insertion: the atom is one of the
/// stored atoms, there is one more of them unless it was among them, and nothing is
/// rejected.
pub proof fn adding_is_set_insertion(s: SpaceState, t: Term, x: Term)
    requires
        !has_mutable(t),
        stored_value_path(t) is Some,
        s.paths.finite(),
    ensures
        s.adding(t).paths == s.paths.insert(value_path(t)->0),
        s.adding(t).holds(x) <==> s.holds(x) || value_path(x) == value_path(t),
        s.adding(t).paths.len() == s.paths.len() + if s.holds(t) {
            0nat
        } else {
            1
        },
        s.adding(t).rejected == s.rejected,
{
    added_atoms_are_held(s, t);
    if s.holds(t) {
        assert(s.paths.insert(value_path(t)->0) =~= s.paths);
    }
}

/// Atoms that differ only in the names of their variables are one stored atom:
/// one of them is stored exactly when the other is, and adding both stores one.
pub proof fn renamed_atoms_are_one(s: SpaceState, t: Term, f: spec_fn(Variable) -> Variable)
    requires
        !has_mutable(t),
        renames_apart(f),
    ensures
        value_path(renamed(t, f)) == value_path(t),
        stored_value_path(renamed(t, f)) == stored_value_path(t),
        s.holds(renamed(t, f)) == s.holds(t),
        s.removing(renamed(t, f)).paths == s.removing(t).paths,
        s.adding(renamed(t, f)).paths == s.adding(t).paths,
        s.adding(t).adding(renamed(t, f)).paths == s.adding(t).paths,
{
    let start = fresh_lowering();
    renamed_terms_encode_alike(t, start, Mode::ValueOnly, f);
    assert(renamed_lowering(start, f) =~= start);
    lemma_renamed_is_immutable(t, f);
    added_atoms_are_held(s, t);
    added_atoms_are_held(s, renamed(t, f));
    added_atoms_are_held(s.adding(t), renamed(t, f));
    assert(s.adding(t).adding(renamed(t, f)).paths =~= s.adding(t).paths);
}

/// Renaming brings in no mutable value.
proof fn lemma_renamed_is_immutable(t: Term, f: spec_fn(Variable) -> Variable)
    requires
        !has_mutable(t),
    ensures
        !has_mutable(renamed(t, f)),
    decreases t,
{
    if let Term::Expression(ts, _) = t {
        let us = renamed(t, f)->Expression_0;
        assert forall|i: int| 0 <= i < us.len() implies !has_mutable(#[trigger] us[i]) by {
            assert(!has_mutable(ts[i]));
            lemma_renamed_is_immutable(ts[i], f);
        }
    }
}

/// Adding an atom twice stores it once.
pub proof fn adding_twice_stores_once(s: SpaceState, t: Term)
    requires
        !has_mutable(t),
    ensures
        s.adding(t).adding(t).paths == s.adding(t).paths,
{
    added_atoms_are_held(s, t);
    added_atoms_are_held(s.adding(t), t);
    assert(s.adding(t).adding(t).paths =~= s.adding(t).paths);
}

/// Removing what was just added finds it, and gives back the stored atoms that
/// there were, unless it was stored before.
pub proof fn removing_undoes_adding(s: SpaceState, t: Term)
    requires
        !has_mutable(t),
        !s.holds(t),
    ensures
        stored_value_path(t) is Some ==> s.adding(t).holds(t),
        s.adding(t).removing(t).paths == s.paths,
{
    added_atoms_are_held(s, t);
    assert(s.adding(t).removing(t).paths =~= s.paths);
}

/// Removing takes out one atom: it is held no longer, so that a second removal
/// finds and changes nothing; every other atom stays. What cannot be encoded is not
/// found and changes nothing. No removal is counted as rejected.
pub proof fn removing_takes_out_one_atom(s: SpaceState, t: Term, x: Term)
    ensures
        !s.removing(t).holds(t),
        s.removing(t).removing(t).paths == s.removing(t).paths,
        s.removing(t).holds(x) <==> s.holds(x) && value_path(x) != value_path(t),
        value_path(t) is None ==> !s.holds(t) && s.removing(t) == s,
        !s.holds(t) ==> s.removing(t).paths == s.paths,
        s.removing(t).rejected == s.rejected,
{
    assert(s.removing(t).removing(t).paths =~= s.removing(t).paths);
    if !s.holds(t) {
        assert(s.removing(t).paths =~= s.paths);
    }
}

/// Removing keeps the latch sound.
pub proof fn removing_keeps_the_latch_sound(s: SpaceState, t: Term)
    requires
        s.latch_sound(),
    ensures
        s.removing(t).latch_sound(),
{
}

/// An atom is taken up exactly when each part of it fits the encoding and it has at
/// most 64 distinct variables. One path is added for it, its values become known, and
/// the latch stays only if no variable stands in it. An atom that is turned away is
/// counted and changes neither the stored atoms nor the latch.
pub proof fn atoms_are_taken_up_or_turned_away(s: SpaceState, t: Term)
    requires
        s.gen < u64::MAX,
        s.rejected < usize::MAX,
    ensures
        ({
            let after = s.adding(t);
            let start = Lowering {
                vars: Seq::empty(),
                refs: Seq::empty(),
                reg: s.reg,
                spans: Seq::empty(),
            };
            let (met, tree) = lower(t, start, Mode::Store);
            let fits = met.vars.len() <= 64 && forall|x: Term| #[trigger]
                part_of(x, t) ==> part_fits(x, Mode::Store);
            &&& fits ==> {
                &&& tree is Some
                &&& after.paths == s.paths.insert(flat(tree->0))
                &&& after.gen == s.gen + 1
                &&& after.rejected == s.rejected
                &&& after.var_free <==> s.var_free && forall|x: Term| #[trigger]
                    part_of(x, t) ==> !(x is Variable)
                &&& forall|i: int|
                    0 <= i < s.indexes.len() ==> after.indexes[i] == (
                    #[trigger] s.indexes[i]).absorbing(flat(tree->0), true, s.gen)
                &&& after.reg.by_id == s.reg.by_id + cells(t)
                &&& forall|x: Term| #[trigger]
                    part_of(x, t) && x is Grounded && !x->Grounded_0.mutable
                        ==> after.reg.by_display.contains_key(encode_utf8(x->Grounded_0.display))
            }
            &&& !fits ==> {
                &&& after.paths == s.paths
                &&& after.gen == s.gen
                &&& after.rejected == s.rejected + 1
                &&& after.var_free == s.var_free
                &&& after.indexes == s.indexes
            }
            &&& s.reg.within(after.reg)
            &&& after.table == s.table
            &&& after.indexes.len() == s.indexes.len()
        }),
{
    let start = s.storing();
    assert(start == Lowering {
        vars: Seq::empty(),
        refs: Seq::empty(),
        reg: s.reg,
        spans: Seq::empty(),
    });
    let met = lower(t, start, Mode::Store).0;
    if met.vars.len() <= 64 {
        terms_encode_when_their_parts_fit(t, start, Mode::Store);
    }
    if s.store_path(t) is Some {
        stored_values_are_known(t, start);
        parts_decide(t);
    }
    lemma_lower_grows(t, start, Mode::Store);
}

/// Removing changes the stored atoms and moves the generation on; the registry, the
/// latch and the tabled rows stay.
pub proof fn removing_leaves_the_rest(s: SpaceState, t: Term)
    requires
        s.gen < u64::MAX,
    ensures
        s.removing(t).reg == s.reg,
        s.removing(t).var_free == s.var_free,
        s.removing(t).table == s.table,
        s.removing(t).indexes.len() == s.indexes.len(),
        s.holds(t) ==> s.removing(t).gen == s.gen + 1,
        value_path(t) matches Some(p) ==> forall|i: int|
            0 <= i < s.indexes.len() ==> s.removing(t).indexes[i] == (
            #[trigger] s.indexes[i]).absorbing(p, false, s.gen),
{
}

/// A new space holds nothing, knows no value and has rejected nothing.
pub proof fn new_spaces_hold_nothing(t: Term)
    ensures
        !SpaceState::empty().holds(t),
        SpaceState::empty().paths == Set::<Seq<u8>>::empty(),
        SpaceState::empty().reg.by_display == Map::<Seq<u8>, Term>::empty(),
        SpaceState::empty().reg.by_id == Seq::<Term>::empty(),
        SpaceState::empty().rejected == 0,
        SpaceState::empty().var_free,
        SpaceState::empty().latch_sound(),
        SpaceState::empty().consistent(),
{
}

} // verus!
