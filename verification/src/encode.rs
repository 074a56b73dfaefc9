//! Encoding atoms as preorder bytes.
use vstd::bytes::{lemma_auto_spec_u64_to_from_le_bytes, spec_u64_to_le_bytes, u64_to_le_bytes};
use vstd::prelude::*;
use vstd::slice::{slice_subrange, slice_to_vec};
use vstd::utf8::encode_utf8;

use crate::atom::{
    lemma_child_is_smaller, lemma_expression_term, terms, Atom, ExpressionAtom, Term, Variable,
    VariableAtom,
};
use crate::order::same_bytes;
use crate::registry::{has_mutable, GroundedRegistry, Registry};
use crate::span::byte_rows;
use crate::tag::{item_byte, tag_byte, Tag, MAX_FIELD};
use crate::tree::{flat, flat_all, lemma_flat_all_push, Tree};

verus! {

/// First byte of the symbol of an immutable grounded value; its display
/// follows. No real symbol starts with it.
pub const GROUNDED_MARK: u8 = 0x00;

/// First byte of the symbol of a mutable grounded value; the eight bytes of its
/// id follow. No real symbol starts with it.
pub const GROUNDED_REF_MARK: u8 = 0x01;

/// The spans of the expressions that were marked as evaluated.
#[derive(Debug)]
pub struct EvaluatedSpans {
    spans: Vec<Vec<u8>>,
}

impl View for EvaluatedSpans {
    type V = Seq<Seq<u8>>;

    closed spec fn view(&self) -> Seq<Seq<u8>> {
        byte_rows(self.spans@)
    }
}

impl EvaluatedSpans {
    /// No span.
    pub fn new() -> (r: EvaluatedSpans)
        ensures
            r@ == Seq::<Seq<u8>>::empty(),
    {
        let r = EvaluatedSpans { spans: Vec::new() };
        proof {
            assert(r@ =~= Seq::empty());
        }
        r
    }

    /// Records a span.
    pub fn insert(&mut self, span: &[u8])
        ensures
            final(self)@ == old(self)@.push(span@),
    {
        let ghost before = self@;
        self.spans.push(slice_to_vec(span));
        proof {
            assert(self@ =~= before.push(span@));
        }
    }

    /// Whether the span was recorded.
    pub fn contains(&self, span: &[u8]) -> (r: bool)
        ensures
            r == self@.contains(span@),
    {
        let mut i: usize = 0;
        while i < self.spans.len()
            invariant
                i <= self.spans@.len(),
                forall|j: int| 0 <= j < i ==> #[trigger] self@[j] != span@,
            decreases self.spans@.len() - i,
        {
            if same_bytes(self.spans[i].as_slice(), span) {
                assert(self@[i as int] == span@);
                return true;
            }
            i = i + 1;
        }
        false
    }
}

/// What an encoding does with the grounded values that it meets.
pub enum Mode {
    /// Storing: immutable values are kept by display, mutable ones by id.
    Store,
    /// Querying: a mutable value becomes a wildcard variable, which takes the
    /// next of the given ids.
    Query(Seq<usize>),
    /// No registry: every value is written by its display.
    ValueOnly,
}

/// What an encoding has met so far: the variables in the order of their first
/// occurrence, the wildcards with the values that they stand for, the registry,
/// and the spans of the expressions marked as evaluated.
#[verifier::ext_equal]
pub struct Lowering {
    pub vars: Seq<Variable>,
    pub refs: Seq<(usize, Term)>,
    pub reg: Registry,
    pub spans: Seq<Seq<u8>>,
}

/// The symbol of an immutable grounded value, if its display fits.
pub open spec fn value_tree(display: Seq<char>) -> Option<Tree> {
    let b = encode_utf8(display);
    if 1 <= b.len() <= 62 {
        Some(Tree::Sym(seq![GROUNDED_MARK] + b))
    } else {
        None
    }
}

/// The symbol of the mutable grounded value with an id.
pub open spec fn ref_tree(id: u64) -> Tree {
    Tree::Sym(seq![GROUNDED_REF_MARK] + spec_u64_to_le_bytes(id))
}

/// The tree that a term is encoded as, with what the encoding has met when it
/// is through with it; no tree when something does not fit the encoding.
pub open spec fn lower(t: Term, s: Lowering, m: Mode) -> (Lowering, Option<Tree>)
    decreases t, 0nat,
{
    match t {
        Term::Symbol(name) => {
            let b = encode_utf8(name);
            (
                s,
                if 1 <= b.len() <= 63 {
                    Some(Tree::Sym(b))
                } else {
                    None
                },
            )
        },
        Term::Grounded(g) => if g.mutable {
            match m {
                Mode::Store => (
                    Lowering { reg: s.reg.intern(t), ..s },
                    Some(ref_tree(s.reg.by_id.len() as u64)),
                ),
                Mode::Query(ids) => (
                    Lowering {
                        vars: s.vars.push(
                            Variable { name: "state"@, id: ids[s.refs.len() as int] },
                        ),
                        refs: s.refs.push((s.vars.len() as usize, t)),
                        ..s
                    },
                    Some(Tree::NewVar),
                ),
                Mode::ValueOnly => (s, value_tree(g.display)),
            }
        } else {
            match m {
                Mode::Store => (Lowering { reg: s.reg.register(t), ..s }, value_tree(g.display)),
                _ => (s, value_tree(g.display)),
            }
        },
        Term::Variable(v) => match s.vars.index_of_first(v) {
            Some(i) => (
                s,
                if i <= 63 {
                    Some(Tree::VarRef(i as u8))
                } else {
                    None
                },
            ),
            None => (Lowering { vars: s.vars.push(v), ..s }, Some(Tree::NewVar)),
        },
        Term::Expression(ts, evaluated) => if ts.len() <= 63 {
            match lower_all(ts, s, m) {
                (s2, Some(trees)) => (
                    if evaluated {
                        Lowering { spans: s2.spans.push(flat(Tree::Expr(trees))), ..s2 }
                    } else {
                        s2
                    },
                    Some(Tree::Expr(trees)),
                ),
                (s2, None) => (s2, None),
            }
        } else {
            (s, None)
        },
    }
}

/// The trees that a row of terms is encoded as, first to last.
pub open spec fn lower_all(ts: Seq<Term>, s: Lowering, m: Mode) -> (Lowering, Option<Seq<Tree>>)
    decreases ts, ts.len(),
{
    if ts.len() == 0 {
        (s, Some(Seq::empty()))
    } else {
        match lower_all(ts.drop_last(), s, m) {
            (s1, Some(trees)) => match lower(ts.last(), s1, m) {
                (s2, Some(t)) => (s2, Some(trees.push(t))),
                (s2, None) => (s2, None),
            },
            (s1, None) => (s1, None),
        }
    }
}

/// Number of mutable grounded values in a term.
pub open spec fn wildcards(t: Term) -> nat
    decreases t, 0nat,
{
    match t {
        Term::Grounded(g) => if g.mutable {
            1
        } else {
            0
        },
        Term::Expression(ts, _) => wildcards_all(ts),
        _ => 0,
    }
}

/// Number of mutable grounded values in a row of terms.
pub open spec fn wildcards_all(ts: Seq<Term>) -> nat
    decreases ts, ts.len(),
{
    if ts.len() == 0 {
        0
    } else {
        wildcards_all(ts.drop_last()) + wildcards(ts.last())
    }
}

/// A row's wildcards are counted from either end.
pub proof fn lemma_wildcards_take(ts: Seq<Term>, i: int)
    requires
        0 <= i <= ts.len(),
    ensures
        wildcards_all(ts.take(i)) <= wildcards_all(ts),
    decreases ts.len(),
{
    if i == ts.len() {
        assert(ts.take(i) =~= ts);
    } else {
        lemma_wildcards_take(ts.drop_last(), i);
        assert(ts.drop_last().take(i) =~= ts.take(i));
    }
}

/// An encoded query has one wildcard per mutable grounded value; in the other
/// modes there is none.
pub proof fn lemma_lower_wildcards(t: Term, s: Lowering, m: Mode)
    ensures
        lower(t, s, m).1 is Some ==> lower(t, s, m).0.refs.len() == s.refs.len() + if m is Query {
            wildcards(t)
        } else {
            0
        },
    decreases t, 0nat,
{
    if let Term::Expression(ts, _) = t {
        lemma_lower_all_wildcards(ts, s, m);
    }
}

/// The wildcards of a row.
pub proof fn lemma_lower_all_wildcards(ts: Seq<Term>, s: Lowering, m: Mode)
    ensures
        lower_all(ts, s, m).1 is Some ==> lower_all(ts, s, m).0.refs.len() == s.refs.len()
            + if m is Query {
            wildcards_all(ts)
        } else {
            0
        },
    decreases ts, ts.len(),
{
    if ts.len() > 0 {
        lemma_lower_all_wildcards(ts.drop_last(), s, m);
        let s1 = lower_all(ts.drop_last(), s, m).0;
        lemma_lower_wildcards(ts.last(), s1, m);
    }
}

/// A term without mutable values has no wildcard.
pub proof fn lemma_immutable_has_no_wildcard(t: Term)
    requires
        !has_mutable(t),
    ensures
        wildcards(t) == 0,
    decreases t, 0nat,
{
    if let Term::Expression(ts, _) = t {
        assert forall|i: int| 0 <= i < ts.len() implies !has_mutable(#[trigger] ts[i]) by {
            assert(t->Expression_0[i] == ts[i]);
        }
        lemma_immutable_rows_have_no_wildcard(ts);
    }
}

/// The same of a row of terms.
pub proof fn lemma_immutable_rows_have_no_wildcard(ts: Seq<Term>)
    requires
        forall|i: int| 0 <= i < ts.len() ==> !has_mutable(#[trigger] ts[i]),
    ensures
        wildcards_all(ts) == 0,
    decreases ts, ts.len(),
{
    if ts.len() > 0 {
        let init = ts.drop_last();
        assert forall|i: int| 0 <= i < init.len() implies !has_mutable(#[trigger] init[i]) by {
            assert(init[i] == ts[i]);
        }
        lemma_immutable_rows_have_no_wildcard(init);
        assert(ts.last() == ts[ts.len() - 1]);
        lemma_immutable_has_no_wildcard(ts.last());
    }
}

/// Whatever a term is encoded as fits the encoding.
pub proof fn lemma_lower_fits(t: Term, s: Lowering, m: Mode)
    ensures
        lower(t, s, m).1 matches Some(tree) ==> tree.fits(),
    decreases t, 0nat,
{
    match t {
        Term::Expression(ts, _) => {
            lemma_lower_all_fits(ts, s, m);
        },
        Term::Grounded(g) => {
            lemma_auto_spec_u64_to_from_le_bytes();
        },
        Term::Variable(v) => {
            s.vars.index_of_first_ensures(v);
        },
        _ => {},
    }
}

/// A row is encoded as one tree per term, and each fits.
pub proof fn lemma_lower_all_fits(ts: Seq<Term>, s: Lowering, m: Mode)
    ensures
        lower_all(ts, s, m).1 matches Some(trees) ==> trees.len() == ts.len() && forall|i: int|
            0 <= i < trees.len() ==> (#[trigger] trees[i]).fits(),
    decreases ts, ts.len(),
{
    if ts.len() > 0 {
        lemma_lower_all_fits(ts.drop_last(), s, m);
        lemma_lower_fits(ts.last(), lower_all(ts.drop_last(), s, m).0, m);
    }
}

/// A row that fails stays failed, with what was met up to the failure.
pub proof fn lemma_lower_all_stops(ts: Seq<Term>, s: Lowering, m: Mode, i: int)
    requires
        0 <= i <= ts.len(),
        lower_all(ts.take(i), s, m).1 is None,
    ensures
        lower_all(ts, s, m).1 is None,
        lower_all(ts, s, m).0 == lower_all(ts.take(i), s, m).0,
    decreases ts.len(),
{
    if i == ts.len() {
        assert(ts.take(i) =~= ts);
    } else {
        assert(ts.drop_last().take(i) =~= ts.take(i));
        lemma_lower_all_stops(ts.drop_last(), s, m, i);
    }
}

/// How `encode_atom` treats grounded values, with what it needs for that.
pub enum GroundedSink {
    /// Storing: mutable values are kept by id, immutable ones by display.
    Store(GroundedRegistry),
    /// Querying: a mutable value becomes a wildcard that takes the next id, and
    /// is recorded with its variable number for the live-value filter.
    Query(Vec<(usize, Atom)>, Vec<usize>),
    /// No registry: every value is written by its display.
    ValueOnly,
}

/// The models of a row of wildcards.
pub open spec fn ref_terms(v: Seq<(usize, Atom)>) -> Seq<(usize, Term)> {
    Seq::new(v.len(), |i: int| (v[i].0, v[i].1@))
}

/// The models of a row of variables.
pub open spec fn variables(v: Seq<VariableAtom>) -> Seq<Variable> {
    Seq::new(v.len(), |i: int| v[i]@)
}

impl GroundedSink {
    /// The mode of the sink.
    pub open spec fn mode(&self) -> Mode {
        match self {
            GroundedSink::Store(_) => Mode::Store,
            GroundedSink::Query(_, ids) => Mode::Query(ids@),
            GroundedSink::ValueOnly => Mode::ValueOnly,
        }
    }

    /// The wildcards that were recorded.
    pub open spec fn refs(&self) -> Seq<(usize, Term)> {
        match self {
            GroundedSink::Query(refs, _) => ref_terms(refs@),
            _ => Seq::empty(),
        }
    }

    /// What the registry holds.
    pub open spec fn reg(&self) -> Registry {
        match self {
            GroundedSink::Store(reg) => reg@,
            _ => Registry::empty(),
        }
    }

    /// The registry is in order, and there are ids for `n` more wildcards.
    pub open spec fn ready(&self, n: nat) -> bool {
        match self {
            GroundedSink::Store(reg) => reg.wf(),
            GroundedSink::Query(refs, ids) => refs@.len() + n <= ids@.len(),
            GroundedSink::ValueOnly => true,
        }
    }
}

/// What an encoding has met, from the values that carry it.
pub open spec fn lowering(
    vars: Seq<VariableAtom>,
    sink: GroundedSink,
    evaluated: EvaluatedSpans,
) -> Lowering {
    Lowering { vars: variables(vars), refs: sink.refs(), reg: sink.reg(), spans: evaluated@ }
}

/// Appends bytes.
pub(crate) fn push_bytes(out: &mut Vec<u8>, bytes: &[u8])
    ensures
        final(out)@ == old(out)@ + bytes@,
{
    let mut v = slice_to_vec(bytes);
    out.append(&mut v);
}

/// Appends the symbol of a name.
pub fn encode_symbol(name: &str, out: &mut Vec<u8>) -> (r: Result<(), ()>)
    ensures
        r is Ok <==> 1 <= encode_utf8(name@).len() <= 63,
        match r {
            Ok(_) => final(out)@ == old(out)@ + flat(Tree::Sym(encode_utf8(name@))),
            Err(_) => final(out)@ == old(out)@,
        },
{
    let bytes = name.as_bytes();
    if bytes.len() == 0 || bytes.len() > MAX_FIELD {
        return Err(());
    }
    out.push(item_byte(Tag::SymbolSize(bytes.len() as u8)));
    push_bytes(out, bytes);
    proof {
        assert(out@ =~= old(out)@ + flat(Tree::Sym(encode_utf8(name@))));
    }
    Ok(())
}

/// Appends the symbol of an immutable grounded value: the mark and the display,
/// which must fit together.
pub fn encode_grounded_value(display: &str, out: &mut Vec<u8>) -> (r: Result<(), ()>)
    ensures
        r is Ok <==> value_tree(display@) is Some,
        match r {
            Ok(_) => final(out)@ == old(out)@ + flat(value_tree(display@)->0),
            Err(_) => final(out)@ == old(out)@,
        },
{
    let bytes = display.as_bytes();
    if bytes.len() == 0 || bytes.len() > MAX_FIELD - 1 {
        return Err(());
    }
    out.push(item_byte(Tag::SymbolSize((bytes.len() + 1) as u8)));
    out.push(GROUNDED_MARK);
    push_bytes(out, bytes);
    proof {
        assert(out@ =~= old(out)@ + flat(value_tree(display@)->0));
    }
    Ok(())
}

/// Appends the symbol of the mutable grounded value with an id.
pub fn encode_grounded_ref(id: u64, out: &mut Vec<u8>)
    ensures
        final(out)@ == old(out)@ + flat(ref_tree(id)),
{
    let id_bytes = u64_to_le_bytes(id);
    out.push(item_byte(Tag::SymbolSize((id_bytes.len() + 1) as u8)));
    out.push(GROUNDED_REF_MARK);
    push_bytes(out, id_bytes.as_slice());
    proof {
        assert(out@ =~= old(out)@ + flat(ref_tree(id)));
    }
}

/// The number of a variable: the place of its first occurrence.
fn position(vars: &Vec<VariableAtom>, v: &VariableAtom) -> (r: Option<usize>)
    ensures
        match (r, variables(vars@).index_of_first(v@)) {
            (Some(i), Some(j)) => i == j && i < vars@.len(),
            (None, None) => true,
            _ => false,
        },
{
    let ghost vs = variables(vars@);
    proof {
        vs.index_of_first_ensures(v@);
    }
    let mut i: usize = 0;
    while i < vars.len()
        invariant
            i <= vars@.len(),
            vs == variables(vars@),
            forall|j: int| 0 <= j < i ==> #[trigger] vs[j] != v@,
        decreases vars@.len() - i,
    {
        assert(vs[i as int] == vars@[i as int]@);
        if vars[i].same(v) {
            proof {
                vs.index_of_first_ensures(v@);
                assert(vs.contains(v@));
            }
            return Some(i);
        }
        i = i + 1;
    }
    None
}

/// Encodes an atom.
///
/// The variables are numbered by first occurrence: an introduction item stands
/// for the first occurrence of a variable, a reference item for each later one.
/// Fails when a symbol, an arity or the number of a variable that occurs again
/// does not fit; the sink then keeps what it took up before the failure.
pub fn encode_atom(
    atom: &Atom,
    vars: &mut Vec<VariableAtom>,
    out: &mut Vec<u8>,
    sink: &mut GroundedSink,
) -> (r: Result<(), ()>)
    requires
        old(sink).ready(wildcards(atom@)),
    ensures
        ({
            let s = Lowering {
                vars: variables(old(vars)@),
                refs: old(sink).refs(),
                reg: old(sink).reg(),
                spans: Seq::empty(),
            };
            let (s2, tree) = lower(atom@, s, old(sink).mode());
            &&& final(sink).mode() == old(sink).mode()
            &&& final(sink).reg() == s2.reg
            &&& final(sink).ready(0)
            &&& r is Ok <==> tree is Some
            &&& r is Ok ==> final(out)@ == old(out)@ + flat(tree->0)
            &&& r is Ok ==> variables(final(vars)@) == s2.vars
            &&& r is Ok ==> final(sink).refs() == s2.refs
        }),
{
    let mut evaluated = EvaluatedSpans::new();
    encode_atom_collecting_evaluated(atom, vars, out, sink, &mut evaluated)
}

/// Encodes an atom as `encode_atom` does, and records the spans of the
/// expressions that are marked as evaluated.
pub fn encode_atom_collecting_evaluated(
    atom: &Atom,
    vars: &mut Vec<VariableAtom>,
    out: &mut Vec<u8>,
    sink: &mut GroundedSink,
    evaluated: &mut EvaluatedSpans,
) -> (r: Result<(), ()>)
    requires
        old(sink).ready(wildcards(atom@)),
    ensures
        ({
            let s = lowering(old(vars)@, *old(sink), *old(evaluated));
            let (s2, tree) = lower(atom@, s, old(sink).mode());
            &&& final(sink).mode() == old(sink).mode()
            &&& final(sink).reg() == s2.reg
            &&& final(sink).ready(0)
            &&& r is Ok <==> tree is Some
            &&& r is Ok ==> final(out)@ == old(out)@ + flat(tree->0)
            &&& r is Ok ==> lowering(final(vars)@, *final(sink), *final(evaluated)) == s2
        }),
    decreases atom,
{
    match atom {
        Atom::Symbol(name) => encode_symbol(name.as_str(), out),
        Atom::Grounded(g) => {
            if g.mutable {
                match sink {
                    GroundedSink::Store(reg) => {
                        let id: u64 = reg.intern_mutable(atom);
                        encode_grounded_ref(id, out);
                        Ok(())
                    },
                    GroundedSink::Query(refs, ids) => {
                        let id: usize = ids[refs.len()];
                        out.push(item_byte(Tag::NewVar));
                        vars.push(VariableAtom::new_id("state", id));
                        refs.push((vars.len() - 1, atom.clone()));
                        proof {
                            assert(variables(vars@) =~= variables(old(vars)@).push(
                                Variable { name: "state"@, id },
                            ));
                        }
                        Ok(())
                    },
                    GroundedSink::ValueOnly => encode_grounded_value(g.display.as_str(), out),
                }
            } else {
                match sink {
                    GroundedSink::Store(reg) => {
                        reg.register(atom);
                    },
                    _ => {},
                }
                encode_grounded_value(g.display.as_str(), out)
            }
        },
        Atom::Variable(v) => {
            match position(vars, v) {
                Some(i) => {
                    if i > MAX_FIELD {
                        return Err(());
                    }
                    out.push(item_byte(Tag::VarRef(i as u8)));
                },
                None => {
                    out.push(item_byte(Tag::NewVar));
                    vars.push(v.clone());
                    proof {
                        assert(variables(vars@) =~= variables(old(vars)@).push(v@));
                    }
                },
            }
            Ok(())
        },
        Atom::Expression(e) => encode_expression(atom, e, vars, out, sink, evaluated),
    }
}

/// Encodes the expression that `atom` is.
fn encode_expression(
    atom: &Atom,
    e: &ExpressionAtom,
    vars: &mut Vec<VariableAtom>,
    out: &mut Vec<u8>,
    sink: &mut GroundedSink,
    evaluated: &mut EvaluatedSpans,
) -> (r: Result<(), ()>)
    requires
        *atom == Atom::Expression(*e),
        old(sink).ready(wildcards(atom@)),
    ensures
        ({
            let s = lowering(old(vars)@, *old(sink), *old(evaluated));
            let (s2, tree) = lower(atom@, s, old(sink).mode());
            &&& final(sink).mode() == old(sink).mode()
            &&& final(sink).reg() == s2.reg
            &&& final(sink).ready(0)
            &&& r is Ok <==> tree is Some
            &&& r is Ok ==> final(out)@ == old(out)@ + flat(tree->0)
            &&& r is Ok ==> lowering(final(vars)@, *final(sink), *final(evaluated)) == s2
        }),
    decreases e,
{
    let ghost ts = terms(e.children@);
    let ghost s = lowering(vars@, *sink, *evaluated);
    let ghost m = sink.mode();
    proof {
        lemma_expression_term(*e);
    }
    if e.children.len() > MAX_FIELD {
        return Err(());
    }
    let start: usize = out.len();
    let ghost out0 = out@;
    out.push(item_byte(Tag::Arity(e.children.len() as u8)));
    let mut i: usize = 0;
    while i < e.children.len()
        invariant
            i <= e.children@.len() <= 63,
            *atom == Atom::Expression(*e),
            atom@ == Term::Expression(ts, e.evaluated),
            ts == terms(e.children@),
            m == sink.mode(),
            m == old(sink).mode(),
            s == lowering(old(vars)@, *old(sink), *old(evaluated)),
            old(sink).ready(wildcards_all(ts)),
            sink.ready(0),
            out0 == old(out)@,
            lower_all(ts.take(i as int), s, m).1 is Some,
            lower_all(ts.take(i as int), s, m).0 == lowering(vars@, *sink, *evaluated),
            out@ == out0 + seq![tag_byte(Tag::Arity(e.children@.len() as u8))] + flat_all(
                lower_all(ts.take(i as int), s, m).1->0,
            ),
        decreases e.children@.len() - i,
    {
        let ghost trees = lower_all(ts.take(i as int), s, m).1->0;
        let ghost out1 = out@;
        proof {
            lemma_child_is_smaller(*atom, i as int);
            assert(ts[i as int] == e.children@[i as int]@);
            assert(ts.take(i + 1).drop_last() =~= ts.take(i as int));
            assert(ts.take(i + 1).last() == ts[i as int]);
            lemma_lower_all_wildcards(ts.take(i as int), s, m);
            lemma_wildcards_take(ts, i + 1);
        }
        if encode_atom_collecting_evaluated(&e.children[i], vars, out, sink, evaluated).is_err() {
            proof {
                lemma_lower_all_stops(ts, s, m, i + 1);
            }
            return Err(());
        }
        proof {
            let t = lower_all(ts.take(i + 1), s, m).1->0.last();
            lemma_flat_all_push(trees, t);
            assert(out@ =~= out0 + seq![tag_byte(Tag::Arity(e.children@.len() as u8))] + flat_all(
                lower_all(ts.take(i + 1), s, m).1->0,
            ));
        }
        i = i + 1;
    }
    proof {
        assert(ts.take(ts.len() as int) =~= ts);
        let trees = lower_all(ts, s, m).1->0;
        lemma_lower_all_fits(ts, s, m);
        assert(out@ =~= out0 + flat(Tree::Expr(trees)));
        assert(out@.subrange(start as int, out@.len() as int) =~= flat(Tree::Expr(trees)));
    }
    if e.evaluated {
        evaluated.insert(slice_subrange(out.as_slice(), start, out.len()));
    }
    Ok(())
}

} // verus!
