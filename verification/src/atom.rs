//! Atoms: symbols, variables, expressions and grounded values.
use vstd::prelude::*;

verus! {

/// A variable: a name and the id that tells same-named variables apart.
#[derive(Debug, PartialEq, Eq)]
pub struct VariableAtom {
    pub name: String,
    pub id: usize,
}

/// The model of a variable.
pub struct Variable {
    pub name: Seq<char>,
    pub id: usize,
}

impl View for VariableAtom {
    type V = Variable;

    open spec fn view(&self) -> Variable {
        Variable { name: self.name@, id: self.id }
    }
}

impl VariableAtom {
    /// The variable of a bare name.
    pub fn new(name: &str) -> (v: VariableAtom)
        ensures
            v@ == (Variable { name: name@, id: 0 }),
    {
        VariableAtom { name: name.to_owned(), id: 0 }
    }

    /// The variable of a name and an id.
    pub fn new_id(name: &str, id: usize) -> (v: VariableAtom)
        ensures
            v@ == (Variable { name: name@, id }),
    {
        VariableAtom { name: name.to_owned(), id }
    }

    /// Whether both are the same variable.
    pub fn same(&self, other: &VariableAtom) -> (r: bool)
        ensures
            r == (self@ == other@),
    {
        self.id == other.id && self.name == other.name
    }
}

impl Clone for VariableAtom {
    fn clone(&self) -> (r: VariableAtom)
        ensures
            r@ == self@,
    {
        VariableAtom { name: self.name.clone(), id: self.id }
    }
}

/// A grounded value as the space sees it: the handle of the instance, its
/// display string, and whether the value can change in place (a state cell).
///
/// The display of an immutable value is its identity. The display of a mutable
/// value is only what it showed when it was handed over.
#[derive(Debug, PartialEq, Eq)]
pub struct GroundedAtom {
    pub handle: u64,
    pub display: String,
    pub mutable: bool,
}

/// The model of a grounded value.
pub struct Grounded {
    pub handle: u64,
    pub display: Seq<char>,
    pub mutable: bool,
}

impl View for GroundedAtom {
    type V = Grounded;

    open spec fn view(&self) -> Grounded {
        Grounded { handle: self.handle, display: self.display@, mutable: self.mutable }
    }
}

impl Clone for GroundedAtom {
    fn clone(&self) -> (r: GroundedAtom)
        ensures
            r@ == self@,
    {
        GroundedAtom {
            handle: self.handle,
            display: self.display.clone(),
            mutable: self.mutable,
        }
    }
}

/// An expression: its children, and whether it is marked as evaluated.
#[derive(Debug, PartialEq, Eq)]
pub struct ExpressionAtom {
    pub children: Vec<Atom>,
    pub evaluated: bool,
}

/// An atom.
#[derive(Debug, PartialEq, Eq)]
pub enum Atom {
    Symbol(String),
    Variable(VariableAtom),
    Expression(ExpressionAtom),
    Grounded(GroundedAtom),
}

/// The model of an atom.
pub enum Term {
    Symbol(Seq<char>),
    Variable(Variable),
    Expression(Seq<Term>, bool),
    Grounded(Grounded),
}

impl View for Atom {
    type V = Term;

    open spec fn view(&self) -> Term {
        term_of(*self)
    }
}

/// The model of an atom.
pub open spec fn term_of(a: Atom) -> Term
    decreases a,
{
    match a {
        Atom::Symbol(s) => Term::Symbol(s@),
        Atom::Variable(v) => Term::Variable(v@),
        Atom::Expression(e) => Term::Expression(
            Seq::new(
                e.children@.len(),
                |i: int|
                    if 0 <= i < e.children@.len() {
                        term_of(e.children@[i])
                    } else {
                        arbitrary()
                    },
            ),
            e.evaluated,
        ),
        Atom::Grounded(g) => Term::Grounded(g@),
    }
}

/// The models of a row of atoms.
pub open spec fn terms(v: Seq<Atom>) -> Seq<Term> {
    Seq::new(v.len(), |i: int| v[i]@)
}

/// The model of an expression lists the models of its children.
pub broadcast proof fn lemma_expression_term(e: ExpressionAtom)
    ensures
        #[trigger] term_of(Atom::Expression(e)) == Term::Expression(
            terms(e.children@),
            e.evaluated,
        ),
{
    assert(term_of(Atom::Expression(e))->Expression_0 =~= terms(e.children@));
}

/// A child is structurally below its expression, so that walks terminate.
pub proof fn lemma_child_is_smaller(a: Atom, i: int)
    requires
        a is Expression,
        0 <= i < a->Expression_0.children@.len(),
    ensures
        decreases_to!(a => a->Expression_0.children@[i]),
{
    let e = a->Expression_0;
    assert(decreases_to!(a => e));
    assert(decreases_to!(e => e.children));
    assert(decreases_to!(e.children => e.children@));
    assert(decreases_to!(e.children@ => e.children@[i]));
}

impl Clone for Atom {
    fn clone(&self) -> (r: Atom)
        ensures
            r@ == self@,
        decreases self,
    {
        match self {
            Atom::Symbol(s) => Atom::Symbol(s.clone()),
            Atom::Variable(v) => Atom::Variable(v.clone()),
            Atom::Grounded(g) => Atom::Grounded(g.clone()),
            Atom::Expression(e) => {
                let mut children: Vec<Atom> = Vec::new();
                let mut i: usize = 0;
                while i < e.children.len()
                    invariant
                        i <= e.children@.len(),
                        self == Atom::Expression(*e),
                        children@.len() == i,
                        forall|j: int| 0 <= j < i ==> (#[trigger] children@[j])@ == e.children@[j]@,
                    decreases e.children@.len() - i,
                {
                    proof {
                        lemma_child_is_smaller(*self, i as int);
                    }
                    children.push(e.children[i].clone());
                    i = i + 1;
                }
                let r = ExpressionAtom { children, evaluated: e.evaluated };
                proof {
                    lemma_expression_term(r);
                    lemma_expression_term(*e);
                    assert(terms(r.children@) =~= terms(e.children@));
                }
                Atom::Expression(r)
            },
        }
    }
}

impl Atom {
    /// The symbol of a name.
    pub fn sym(name: &str) -> (a: Atom)
        ensures
            a@ == Term::Symbol(name@),
    {
        Atom::Symbol(name.to_owned())
    }

    /// The variable of a bare name.
    pub fn var(name: &str) -> (a: Atom)
        ensures
            a@ == Term::Variable(Variable { name: name@, id: 0 }),
    {
        Atom::Variable(VariableAtom::new(name))
    }

    /// The expression of some children, not marked as evaluated.
    pub fn expr(children: Vec<Atom>) -> (a: Atom)
        ensures
            a@ == Term::Expression(terms(children@), false),
    {
        let e = ExpressionAtom { children, evaluated: false };
        proof {
            lemma_expression_term(e);
        }
        Atom::Expression(e)
    }

    /// The atom of a grounded value.
    pub fn gnd(value: GroundedAtom) -> (a: Atom)
        ensures
            a@ == Term::Grounded(value@),
    {
        Atom::Grounded(value)
    }
}

/// A copy of a row of atoms.
pub fn clone_atoms(v: &Vec<Atom>) -> (r: Vec<Atom>)
    ensures
        terms(r@) == terms(v@),
{
    let mut out: Vec<Atom> = Vec::new();
    let mut i: usize = 0;
    while i < v.len()
        invariant
            i <= v@.len(),
            out@.len() == i,
            forall|j: int| 0 <= j < i ==> (#[trigger] out@[j])@ == v@[j]@,
        decreases v@.len() - i,
    {
        out.push(v[i].clone());
        i = i + 1;
    }
    proof {
        assert(terms(out@) =~= terms(v@));
    }
    out
}

} // verus!
