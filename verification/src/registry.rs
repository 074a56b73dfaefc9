//! The side table that lets grounded values survive the byte encoding.
//!
//! The encoding has no grounded type, so a grounded atom is kept here and
//! referred to by a marked symbol. An immutable value is found by its display
//! string, which is its identity: two values that print the same are the same,
//! and the first instance is the one that is kept. A mutable value is found by
//! an id of its own, because its display goes stale and two cells with equal
//! contents are still two cells.
use vstd::prelude::*;
use vstd::utf8::encode_utf8;

use crate::atom::{
    clone_atoms, lemma_child_is_smaller, lemma_expression_term, terms, Atom, Grounded, Term,
};
use crate::table::PathTable;

verus! {

/// The model of a registry: the kept instance per display (by its UTF-8
/// bytes), and the mutable values by id.
#[verifier::ext_equal]
pub struct Registry {
    pub by_display: Map<Seq<u8>, Term>,
    pub by_id: Seq<Term>,
}

impl Registry {
    /// Nothing is kept.
    pub open spec fn empty() -> Registry {
        Registry { by_display: Map::empty(), by_id: Seq::empty() }
    }

    /// Keeps an instance under its display unless one is kept already.
    pub open spec fn keep(self, display: Seq<char>, t: Term) -> Registry {
        let key = encode_utf8(display);
        if self.by_display.contains_key(key) {
            self
        } else {
            Registry { by_display: self.by_display.insert(key, t), ..self }
        }
    }

    /// Keeps every immutable grounded value of `t`, in the order of a walk.
    pub open spec fn register(self, t: Term) -> Registry
        decreases t, 0nat,
    {
        match t {
            Term::Grounded(g) => if g.mutable {
                self
            } else {
                self.keep(g.display, t)
            },
            Term::Expression(ts, _) => self.register_all(ts),
            _ => self,
        }
    }

    /// Keeps every immutable grounded value of a row of terms.
    pub open spec fn register_all(self, ts: Seq<Term>) -> Registry
        decreases ts, ts.len(),
    {
        if ts.len() == 0 {
            self
        } else {
            self.register_all(ts.drop_last()).register(ts.last())
        }
    }

    /// Keeps a mutable value under the next id.
    pub open spec fn intern(self, t: Term) -> Registry {
        Registry { by_id: self.by_id.push(t), ..self }
    }

    /// Everything that `self` keeps, `other` keeps too.
    pub open spec fn within(self, other: Registry) -> bool {
        &&& self.by_display.submap_of(other.by_display)
        &&& self.by_id.is_prefix_of(other.by_id)
    }
}

/// A mutable grounded value stands somewhere in the term.
pub open spec fn has_mutable(t: Term) -> bool
    decreases t,
{
    match t {
        Term::Grounded(g) => g.mutable,
        Term::Expression(ts, _) => exists|i: int| 0 <= i < ts.len() && has_mutable(#[trigger] ts[i]),
        _ => false,
    }
}

/// A variable stands somewhere in the term.
pub open spec fn has_variable(t: Term) -> bool
    decreases t,
{
    match t {
        Term::Variable(_) => true,
        Term::Expression(ts, _) => exists|i: int|
            0 <= i < ts.len() && has_variable(#[trigger] ts[i]),
        _ => false,
    }
}

/// What a child holds, its expression holds: a mutable value.
proof fn lemma_has_mutable_inside(ts: Seq<Term>, evaluated: bool, i: int)
    requires
        0 <= i < ts.len(),
        has_mutable(ts[i]),
    ensures
        has_mutable(Term::Expression(ts, evaluated)),
{
    let t = Term::Expression(ts, evaluated);
    assert(t->Expression_0[i] == ts[i]);
}

/// What a child holds, its expression holds: a variable.
proof fn lemma_has_variable_inside(ts: Seq<Term>, evaluated: bool, i: int)
    requires
        0 <= i < ts.len(),
        has_variable(ts[i]),
    ensures
        has_variable(Term::Expression(ts, evaluated)),
{
    let t = Term::Expression(ts, evaluated);
    assert(t->Expression_0[i] == ts[i]);
}

/// Whether the atom is itself a mutable grounded value, such as a state cell.
pub fn is_mutable_grounded(atom: &Atom) -> (r: bool)
    ensures
        r == (atom@ matches Term::Grounded(g) && g.mutable),
{
    match atom {
        Atom::Grounded(g) => g.mutable,
        _ => false,
    }
}

/// Whether the atom holds a mutable grounded value anywhere.
pub fn contains_mutable_grounded(atom: &Atom) -> (r: bool)
    ensures
        r == has_mutable(atom@),
    decreases atom,
{
    match atom {
        Atom::Grounded(g) => g.mutable,
        Atom::Expression(e) => {
            let ghost ts = terms(e.children@);
            proof {
                lemma_expression_term(*e);
            }
            let mut i: usize = 0;
            while i < e.children.len()
                invariant
                    i <= e.children@.len(),
                    *atom == Atom::Expression(*e),
                    ts == terms(e.children@),
                    atom@ == Term::Expression(ts, e.evaluated),
                    forall|j: int| 0 <= j < i ==> !has_mutable(#[trigger] ts[j]),
                decreases e.children@.len() - i,
            {
                proof {
                    lemma_child_is_smaller(*atom, i as int);
                    assert(ts[i as int] == e.children@[i as int]@);
                }
                if contains_mutable_grounded(&e.children[i]) {
                    proof {
                        lemma_has_mutable_inside(ts, e.evaluated, i as int);
                    }
                    return true;
                }
                i = i + 1;
            }
            false
        },
        _ => false,
    }
}

/// Whether the atom holds a variable anywhere.
pub fn contains_variable(atom: &Atom) -> (r: bool)
    ensures
        r == has_variable(atom@),
    decreases atom,
{
    match atom {
        Atom::Variable(_) => true,
        Atom::Expression(e) => {
            let ghost ts = terms(e.children@);
            proof {
                lemma_expression_term(*e);
            }
            let mut i: usize = 0;
            while i < e.children.len()
                invariant
                    i <= e.children@.len(),
                    *atom == Atom::Expression(*e),
                    ts == terms(e.children@),
                    atom@ == Term::Expression(ts, e.evaluated),
                    forall|j: int| 0 <= j < i ==> !has_variable(#[trigger] ts[j]),
                decreases e.children@.len() - i,
            {
                proof {
                    lemma_child_is_smaller(*atom, i as int);
                    assert(ts[i as int] == e.children@[i as int]@);
                }
                if contains_variable(&e.children[i]) {
                    proof {
                        lemma_has_variable_inside(ts, e.evaluated, i as int);
                    }
                    return true;
                }
                i = i + 1;
            }
            false
        },
        _ => false,
    }
}

/// The registry of grounded atoms.
#[derive(Debug)]
pub struct GroundedRegistry {
    by_display: PathTable<Atom>,
    by_id: Vec<Atom>,
}

impl View for GroundedRegistry {
    type V = Registry;

    closed spec fn view(&self) -> Registry {
        Registry {
            by_display: self.by_display@.map_values(|a: Atom| a@),
            by_id: terms(self.by_id@),
        }
    }
}

impl GroundedRegistry {
    /// The display table is in order.
    pub closed spec fn wf(&self) -> bool {
        self.by_display.wf()
    }

    /// An empty registry.
    pub fn new() -> (r: GroundedRegistry)
        ensures
            r.wf(),
            r@ == Registry::empty(),
    {
        let r = GroundedRegistry { by_display: PathTable::new(), by_id: Vec::new() };
        proof {
            assert(r@ =~= Registry::empty());
        }
        r
    }

    /// Keeps an atom under a display unless one is kept there already.
    fn keep(&mut self, display: &str, atom: &Atom)
        requires
            old(self).wf(),
        ensures
            final(self).wf(),
            final(self)@ == old(self)@.keep(display@, atom@),
    {
        let ghost before = self@;
        let kept = atom.clone();
        self.by_display.insert_if_absent(display.as_bytes(), kept);
        proof {
            assert(self@ =~= before.keep(display@, atom@));
        }
    }

    /// Keeps every immutable grounded value of `atom` under its display; the
    /// first instance per display wins. Mutable values are passed over.
    pub fn register(&mut self, atom: &Atom)
        requires
            old(self).wf(),
        ensures
            final(self).wf(),
            final(self)@ == old(self)@.register(atom@),
        decreases atom,
    {
        match atom {
            Atom::Grounded(g) => {
                if !g.mutable {
                    self.keep(g.display.as_str(), atom);
                }
            },
            Atom::Expression(e) => {
                let ghost ts = terms(e.children@);
                proof {
                    lemma_expression_term(*e);
                }
                let mut i: usize = 0;
                while i < e.children.len()
                    invariant
                        i <= e.children@.len(),
                        *atom == Atom::Expression(*e),
                        ts == terms(e.children@),
                        self.wf(),
                        self@ == old(self)@.register_all(ts.take(i as int)),
                    decreases e.children@.len() - i,
                {
                    proof {
                        lemma_child_is_smaller(*atom, i as int);
                        assert(ts[i as int] == e.children@[i as int]@);
                        assert(ts.take(i + 1).drop_last() =~= ts.take(i as int));
                    }
                    self.register(&e.children[i]);
                    i = i + 1;
                }
                proof {
                    assert(ts.take(ts.len() as int) =~= ts);
                }
            },
            _ => {},
        }
    }

    /// Keeps a mutable grounded atom under a fresh id, which is returned.
    pub fn intern_mutable(&mut self, atom: &Atom) -> (id: u64)
        requires
            old(self).wf(),
        ensures
            final(self).wf(),
            final(self)@ == old(self)@.intern(atom@),
            id == old(self)@.by_id.len(),
    {
        let ghost before = self@;
        let id: u64 = self.by_id.len() as u64;
        let kept = atom.clone();
        self.by_id.push(kept);
        proof {
            assert(self@ =~= before.intern(atom@));
        }
        id
    }

    /// The instance that is kept under a display, given by its UTF-8 bytes.
    pub fn get(&self, display: &[u8]) -> (r: Option<Atom>)
        requires
            self.wf(),
        ensures
            match r {
                Some(a) => self@.by_display.contains_key(display@) && a@
                    == self@.by_display[display@],
                None => !self@.by_display.contains_key(display@),
            },
    {
        match self.by_display.get(display) {
            Some(a) => Some(a.clone()),
            None => None,
        }
    }

    /// The mutable value of an id.
    pub fn get_by_id(&self, id: u64) -> (r: Option<Atom>)
        ensures
            match r {
                Some(a) => id < self@.by_id.len() && a@ == self@.by_id[id as int],
                None => id >= self@.by_id.len(),
            },
    {
        if id < self.by_id.len() as u64 {
            Some(self.by_id[id as usize].clone())
        } else {
            None
        }
    }

    /// Whether no mutable value is kept.
    pub fn no_mutable(&self) -> (r: bool)
        ensures
            r == (self@.by_id.len() == 0),
    {
        self.by_id.len() == 0
    }

    /// A copy of the registry.
    pub fn duplicate(&self) -> (r: GroundedRegistry)
        requires
            self.wf(),
        ensures
            r.wf(),
            r@ == self@,
    {
        let mut by_display: PathTable<Atom> = PathTable::new();
        copy_missing(&mut by_display, &self.by_display);
        let r = GroundedRegistry { by_display, by_id: clone_atoms(&self.by_id) };
        proof {
            assert(r@ =~= self@);
        }
        r
    }

    /// Takes over the immutable values of another registry; what is kept
    /// already stays.
    pub fn adopt(&mut self, other: &GroundedRegistry)
        requires
            old(self).wf(),
            other.wf(),
        ensures
            final(self).wf(),
            final(self)@ == old(self)@.adopting(other@),
    {
        let ghost before = self@;
        copy_missing(&mut self.by_display, &other.by_display);
        proof {
            assert(self@ =~= before.adopting(other@));
        }
    }
}

impl Registry {
    /// The registry with the immutable values of another one beside its own.
    pub open spec fn adopting(self, other: Registry) -> Registry {
        Registry { by_display: other.by_display.union_prefer_right(self.by_display), ..self }
    }
}

/// Copies the entries of `from` whose keys `to` lacks.
fn copy_missing(to: &mut PathTable<Atom>, from: &PathTable<Atom>)
    requires
        old(to).wf(),
        from.wf(),
    ensures
        final(to).wf(),
        final(to)@.map_values(|a: Atom| a@) == from@.map_values(
            |a: Atom| a@,
        ).union_prefer_right(old(to)@.map_values(|a: Atom| a@)),
{
    let ghost before = to@;
    let n: usize = from.len();
    let mut i: usize = 0;
    while i < n
        invariant
            n == from.rows().len(),
            i <= n,
            from.wf(),
            to.wf(),
            forall|k: Seq<u8>| #[trigger]
                to@.contains_key(k) <==> before.contains_key(k) || from.rows().take(
                    i as int,
                ).contains(k),
            forall|k: Seq<u8>| before.contains_key(k) ==> #[trigger] to@[k] == before[k],
            forall|k: Seq<u8>|
                !before.contains_key(k) && to@.contains_key(k) ==> (#[trigger] to@[k])@ == from@[k]@,
        decreases n - i,
    {
        let ghost mid = to@;
        let ghost k0 = from.rows()[i as int];
        proof {
            from.lemma_entry(i as int);
            assert forall|k: Seq<u8>| #[trigger] from.rows().take(i + 1).contains(k) <==> (
            from.rows().take(i as int).contains(k) || k == k0) by {
                let a = from.rows().take(i as int);
                let b = from.rows().take(i + 1);
                assert(b =~= a.push(k0));
                if a.contains(k) {
                    let j = choose|j: int| 0 <= j < a.len() && a[j] == k;
                    assert(b[j] == k);
                }
                if b.contains(k) && k != k0 {
                    let j = choose|j: int| 0 <= j < b.len() && b[j] == k;
                    assert(a[j] == k);
                }
                assert(b[i as int] == k0);
            }
        }
        let v = from.value_at(i).clone();
        to.insert_if_absent(from.key_at(i).as_slice(), v);
        i = i + 1;
    }
    proof {
        assert(from.rows().take(n as int) =~= from.rows());
        assert(to@.map_values(|a: Atom| a@) =~= from@.map_values(
            |a: Atom| a@,
        ).union_prefer_right(before.map_values(|a: Atom| a@)));
    }
}

/// A term that stands somewhere in a term, or is that term.
pub open spec fn part_of(x: Term, t: Term) -> bool
    decreases t,
{
    ||| x == t
    ||| match t {
        Term::Expression(ts, _) => exists|i: int|
            0 <= i < ts.len() && part_of(x, #[trigger] ts[i]),
        _ => false,
    }
}

/// Registering a term makes every immutable grounded value in it known under its
/// display, keeps what was known, and adds nothing else.
pub proof fn registering_makes_values_known(r: Registry, t: Term)
    ensures
        forall|x: Term| #[trigger]
            part_of(x, t) && x is Grounded && !x->Grounded_0.mutable ==> r.register(
                t,
            ).by_display.contains_key(encode_utf8(x->Grounded_0.display)),
        forall|k: Seq<u8>| #[trigger]
            r.by_display.contains_key(k) ==> r.register(t).by_display.contains_key(k) && r.register(
                t,
            ).by_display[k] == r.by_display[k],
        forall|k: Seq<u8>| #[trigger]
            r.register(t).by_display.contains_key(k) && !r.by_display.contains_key(k) ==> {
                let x = r.register(t).by_display[k];
                part_of(x, t) && x is Grounded && !x->Grounded_0.mutable && encode_utf8(
                    x->Grounded_0.display,
                ) == k
            },
        r.register(t).by_id == r.by_id,
    decreases t, 0nat,
{
    if let Term::Expression(ts, _) = t {
        registering_rows_makes_values_known(r, ts);
        let after = r.register(t);
        assert forall|x: Term| #[trigger]
            part_of(x, t) && x is Grounded && !x->Grounded_0.mutable implies after.by_display.contains_key(
        encode_utf8(x->Grounded_0.display)) by {
            let i = choose|i: int| 0 <= i < ts.len() && part_of(x, #[trigger] ts[i]);
            assert(part_of(x, ts[i]));
        }
        assert forall|k: Seq<u8>| #[trigger]
            after.by_display.contains_key(k) && !r.by_display.contains_key(k) implies {
            let x = after.by_display[k];
            part_of(x, t) && x is Grounded && !x->Grounded_0.mutable && encode_utf8(
                x->Grounded_0.display,
            ) == k
        } by {
            let x = after.by_display[k];
            let i = choose|i: int| 0 <= i < ts.len() && part_of(x, #[trigger] ts[i]);
            assert(part_of(x, ts[i]));
        }
    }
}

/// The same of a row of terms.
pub proof fn registering_rows_makes_values_known(r: Registry, ts: Seq<Term>)
    ensures
        forall|x: Term, i: int|
            0 <= i < ts.len() && #[trigger] part_of(x, ts[i]) && x is Grounded
                && !x->Grounded_0.mutable ==> r.register_all(ts).by_display.contains_key(
                encode_utf8(x->Grounded_0.display),
            ),
        forall|k: Seq<u8>| #[trigger]
            r.by_display.contains_key(k) ==> r.register_all(ts).by_display.contains_key(k)
                && r.register_all(ts).by_display[k] == r.by_display[k],
        forall|k: Seq<u8>| #[trigger]
            r.register_all(ts).by_display.contains_key(k) && !r.by_display.contains_key(k) ==> {
                let x = r.register_all(ts).by_display[k];
                &&& exists|i: int| 0 <= i < ts.len() && part_of(x, #[trigger] ts[i])
                &&& x is Grounded && !x->Grounded_0.mutable && encode_utf8(x->Grounded_0.display)
                    == k
            },
        r.register_all(ts).by_id == r.by_id,
    decreases ts, ts.len(),
{
    if ts.len() > 0 {
        let init = ts.drop_last();
        let r1 = r.register_all(init);
        let after = r.register_all(ts);
        registering_rows_makes_values_known(r, init);
        registering_makes_values_known(r1, ts.last());
        let n = ts.len() - 1;
        assert(ts.last() == ts[n]);
        assert forall|x: Term, i: int|
            0 <= i < ts.len() && #[trigger] part_of(x, ts[i]) && x is Grounded
                && !x->Grounded_0.mutable implies after.by_display.contains_key(
        encode_utf8(x->Grounded_0.display)) by {
            if i < n {
                assert(init[i] == ts[i]);
                assert(part_of(x, init[i]));
            }
        }
        assert forall|k: Seq<u8>| #[trigger]
            after.by_display.contains_key(k) && !r.by_display.contains_key(k) implies {
            let x = after.by_display[k];
            &&& exists|i: int| 0 <= i < ts.len() && part_of(x, #[trigger] ts[i])
            &&& x is Grounded && !x->Grounded_0.mutable && encode_utf8(x->Grounded_0.display) == k
        } by {
            let x = after.by_display[k];
            if r1.by_display.contains_key(k) {
                let i = choose|i: int| 0 <= i < init.len() && part_of(x, #[trigger] init[i]);
                assert(part_of(x, ts[i]));
            } else {
                assert(part_of(x, ts[n]));
            }
        }
    }
}

/// Adopting makes known what either registry keeps; where both keep a display, the
/// registry's own value stays. The mutable values stay its own.
pub proof fn adopting_knows_both_sides(r: Registry, other: Registry, k: Seq<u8>)
    ensures
        r.adopting(other).by_display.contains_key(k) <==> r.by_display.contains_key(k)
            || other.by_display.contains_key(k),
        r.by_display.contains_key(k) ==> r.adopting(other).by_display[k] == r.by_display[k],
        other.by_display.contains_key(k) && !r.by_display.contains_key(k) ==> r.adopting(
            other,
        ).by_display[k] == other.by_display[k],
        r.adopting(other).by_id == r.by_id,
{
}

/// A term holds a mutable value exactly when some part of it is one, and a variable
/// exactly when some part of it is one.
pub proof fn parts_decide(t: Term)
    ensures
        has_mutable(t) <==> exists|x: Term| #[trigger]
            part_of(x, t) && x is Grounded && x->Grounded_0.mutable,
        has_variable(t) <==> exists|x: Term| #[trigger] part_of(x, t) && x is Variable,
    decreases t,
{
    match t {
        Term::Expression(ts, _) => {
            if has_mutable(t) {
                let i = choose|i: int| 0 <= i < ts.len() && has_mutable(#[trigger] ts[i]);
                parts_decide(ts[i]);
                let x = choose|x: Term| #[trigger]
                    part_of(x, ts[i]) && x is Grounded && x->Grounded_0.mutable;
                assert(part_of(x, t));
            }
            if exists|x: Term| #[trigger]
                part_of(x, t) && x is Grounded && x->Grounded_0.mutable {
                let x = choose|x: Term| #[trigger]
                    part_of(x, t) && x is Grounded && x->Grounded_0.mutable;
                let i = choose|i: int| 0 <= i < ts.len() && part_of(x, #[trigger] ts[i]);
                parts_decide(ts[i]);
                assert(part_of(x, ts[i]));
            }
            if has_variable(t) {
                let i = choose|i: int| 0 <= i < ts.len() && has_variable(#[trigger] ts[i]);
                parts_decide(ts[i]);
                let x = choose|x: Term| #[trigger] part_of(x, ts[i]) && x is Variable;
                assert(part_of(x, t));
            }
            if exists|x: Term| #[trigger] part_of(x, t) && x is Variable {
                let x = choose|x: Term| #[trigger] part_of(x, t) && x is Variable;
                let i = choose|i: int| 0 <= i < ts.len() && part_of(x, #[trigger] ts[i]);
                parts_decide(ts[i]);
                assert(part_of(x, ts[i]));
            }
        },
        _ => {
            assert(part_of(t, t));
        },
    }
}

/// A mutable value that is taken up is found under the next free id; the values
/// before it stay under theirs.
pub proof fn taken_up_values_are_found(r: Registry, t: Term)
    ensures
        r.intern(t).by_id.len() == r.by_id.len() + 1,
        r.intern(t).by_id[r.by_id.len() as int] == t,
        forall|i: int| 0 <= i < r.by_id.len() ==> #[trigger] r.intern(t).by_id[i] == r.by_id[i],
        r.intern(t).by_display == r.by_display,
{
}

} // verus!
