//! Query patterns: a query becomes one `(, p1 .. pn)` expression whose factors
//! share the numbering of their variables.
use vstd::prelude::*;
use vstd::slice::slice_subrange;

use crate::atom::{lemma_expression_term, terms, Atom, Term, Variable, VariableAtom};
use crate::encode::{
    encode_atom_collecting_evaluated, lower, lower_all, lowering, ref_terms, variables, wildcards,
    wildcards_all, EvaluatedSpans, GroundedSink, Lowering, Mode,
};
use crate::encode::{
    lemma_lower_all_fits, lemma_lower_all_stops, lemma_lower_all_wildcards, lemma_wildcards_take,
};
use crate::registry::{has_mutable, Registry};
use crate::tag::{item_byte, tag_byte, Tag, MAX_FIELD};
use crate::text::same_text;
use crate::tree::{flat, flat_all, lemma_flat_all_concat, lemma_flat_all_push, Tree};

verus! {

/// The sub-queries of a conjunction `(, q1 .. qn)`; none for any other query.
pub open spec fn conjuncts_of(query: Term) -> Option<Seq<Term>> {
    match query {
        Term::Expression(ts, _) => if ts.len() > 0 && ts[0] == Term::Symbol(","@) {
            Some(ts.skip(1))
        } else {
            None
        },
        _ => None,
    }
}

/// The query is the empty conjunction.
pub open spec fn is_empty_conjunction(query: Term) -> bool {
    conjuncts_of(query) matches Some(qs) && qs.len() == 0
}

/// The patterns that a query is matched by together: the sub-queries of a
/// conjunction that has any, otherwise the query itself.
pub open spec fn factors(query: Term) -> Seq<Term> {
    match conjuncts_of(query) {
        Some(qs) => if qs.len() > 0 {
            qs
        } else {
            seq![query]
        },
        None => seq![query],
    }
}

/// Nothing met yet.
pub open spec fn fresh_lowering() -> Lowering {
    Lowering {
        vars: Seq::empty(),
        refs: Seq::empty(),
        reg: Registry::empty(),
        spans: Seq::empty(),
    }
}

/// The symbol at the head of a pattern.
pub open spec fn comma() -> Tree {
    Tree::Sym(seq![44u8])
}

/// The tree of the pattern of some factors.
pub open spec fn pattern_tree(trees: Seq<Tree>) -> Tree {
    Tree::Expr(seq![comma()] + trees)
}

/// The factors of a query's pattern, with what its encoding met; none when the
/// query has too many factors or one of them does not fit.
pub open spec fn pattern_of(query: Term, ids: Seq<usize>) -> Option<(Lowering, Seq<Tree>)> {
    if factors(query).len() > 62 {
        None
    } else {
        match lower_all(factors(query), fresh_lowering(), Mode::Query(ids)) {
            (s, Some(trees)) => Some((s, trees)),
            (_, None) => None,
        }
    }
}

/// The sub-queries of a conjunction, or `None` for an ordinary query.
pub fn conjuncts(query: &Atom) -> (r: Option<&[Atom]>)
    ensures
        match conjuncts_of(query@) {
            Some(qs) => r is Some && terms(r->0@) == qs,
            None => r is None,
        },
{
    match query {
        Atom::Expression(e) => {
            proof {
                lemma_expression_term(*e);
            }
            if e.children.len() == 0 {
                return None;
            }
            match &e.children[0] {
                Atom::Symbol(s) => {
                    assert(terms(e.children@)[0] == Term::Symbol(s@));
                    if same_text(s.as_str(), ",") {
                        let qs = slice_subrange(e.children.as_slice(), 1, e.children.len());
                        proof {
                            assert(terms(qs@) =~= terms(e.children@).skip(1));
                        }
                        Some(qs)
                    } else {
                        None
                    }
                },
                _ => {
                    assert(terms(e.children@)[0] == e.children@[0]@);
                    None
                },
            }
        },
        _ => None,
    }
}

/// Whether the query is the empty conjunction `(,)`.
pub fn empty_conjunction(query: &Atom) -> (r: bool)
    ensures
        r == is_empty_conjunction(query@),
{
    match conjuncts(query) {
        Some(qs) => {
            assert(terms(qs@).len() == qs@.len());
            qs.len() == 0
        },
        None => false,
    }
}

/// Number of fresh ids that the query's pattern takes: one per mutable grounded
/// value in it.
pub fn wildcard_count(atom: &Atom) -> (n: usize)
    requires
        wildcards(atom@) <= usize::MAX,
    ensures
        n == wildcards(atom@),
    decreases atom,
{
    match atom {
        Atom::Grounded(g) => if g.mutable {
            1
        } else {
            0
        },
        Atom::Expression(e) => {
            let ghost ts = terms(e.children@);
            proof {
                lemma_expression_term(*e);
            }
            let mut n: usize = 0;
            let mut i: usize = 0;
            while i < e.children.len()
                invariant
                    i <= e.children@.len(),
                    *atom == Atom::Expression(*e),
                    ts == terms(e.children@),
                    wildcards_all(ts) <= usize::MAX,
                    n == wildcards_all(ts.take(i as int)),
                decreases e.children@.len() - i,
            {
                proof {
                    crate::atom::lemma_child_is_smaller(*atom, i as int);
                    assert(ts[i as int] == e.children@[i as int]@);
                    assert(ts.take(i + 1).drop_last() =~= ts.take(i as int));
                    lemma_wildcards_take(ts, i + 1);
                }
                n = n + wildcard_count(&e.children[i]);
                i = i + 1;
            }
            proof {
                assert(ts.take(ts.len() as int) =~= ts);
            }
            n
        },
        _ => 0,
    }
}

/// An encoded query: the pattern's bytes, its variables in the order of their
/// introduction, the wildcards with the live values that they stand for, and
/// the spans of the evaluated expressions.
#[derive(Debug)]
pub struct WrappedPattern {
    pub bytes: Vec<u8>,
    pub vars: Vec<VariableAtom>,
    pub refs: Vec<(usize, Atom)>,
    pub evaluated: EvaluatedSpans,
}

impl WrappedPattern {
    /// The pattern is the one that a query is encoded as.
    pub open spec fn encodes(&self, query: Term, ids: Seq<usize>) -> bool {
        &&& pattern_of(query, ids) is Some
        &&& self.bytes@ == flat(pattern_tree(pattern_of(query, ids).unwrap().1))
        &&& variables(self.vars@) == pattern_of(query, ids).unwrap().0.vars
        &&& ref_terms(self.refs@) == pattern_of(query, ids).unwrap().0.refs
        &&& self.evaluated@ == pattern_of(query, ids).unwrap().0.spans
    }
}

/// The wildcards of a query's factors are those of the query.
pub proof fn lemma_factor_wildcards(query: Term)
    ensures
        wildcards_all(factors(query)) <= wildcards(query),
{
    assert(seq![query].drop_last() =~= Seq::empty());
    assert(wildcards_all(seq![query].drop_last()) == 0);
    if let Some(qs) = conjuncts_of(query) {
        lemma_wildcards_skip(query->Expression_0);
    }
}

/// The wildcards behind the head of a row.
proof fn lemma_wildcards_skip(ts: Seq<Term>)
    requires
        ts.len() > 0,
    ensures
        wildcards_all(ts.skip(1)) <= wildcards_all(ts),
    decreases ts.len(),
{
    if ts.len() > 1 {
        lemma_wildcards_skip(ts.drop_last());
        assert(ts.skip(1).drop_last() =~= ts.drop_last().skip(1));
        assert(ts.skip(1).last() == ts.last());
    } else {
        assert(ts.skip(1) =~= Seq::empty());
    }
}

/// Encodes a query as a pattern; `None` when it does not fit.
///
/// The factors of a conjunction share one numbering, so a variable that occurs
/// in two of them joins them. `ids` holds a fresh variable id for each mutable
/// grounded value of the query.
pub fn wrap_pattern(query: &Atom, ids: Vec<usize>) -> (r: Option<WrappedPattern>)
    requires
        wildcards(query@) <= ids@.len(),
    ensures
        match r {
            Some(p) => p.encodes(query@, ids@),
            None => pattern_of(query@, ids@) is None,
        },
{
    let ghost fs = factors(query@);
    let ghost m = Mode::Query(ids@);
    let ghost s0 = fresh_lowering();
    let qs = conjuncts(query);
    let n: usize = match qs {
        Some(qs) => if qs.len() > 0 {
            qs.len()
        } else {
            1
        },
        None => 1,
    };
    proof {
        if let Some(q) = qs {
            assert(terms(q@).len() == q@.len());
        }
        assert(n == fs.len());
        lemma_factor_wildcards(query@);
    }
    if n > MAX_FIELD - 1 {
        return None;
    }
    let mut vars: Vec<VariableAtom> = Vec::new();
    let mut evaluated = EvaluatedSpans::new();
    let mut bytes: Vec<u8> = Vec::new();
    let mut sink = GroundedSink::Query(Vec::new(), ids);
    bytes.push(item_byte(Tag::Arity((1 + n) as u8)));
    bytes.push(item_byte(Tag::SymbolSize(1)));
    bytes.push(44);
    let ghost head = bytes@;
    let mut i: usize = 0;
    proof {
        assert(fs.take(0) =~= Seq::empty());
        assert(lowering(vars@, sink, evaluated) =~= s0);
        assert(bytes@ =~= head + flat_all(Seq::empty()));
    }
    while i < n
        invariant
            i <= n,
            n == fs.len(),
            n <= 62,
            fs == factors(query@),
            match conjuncts_of(query@) {
                Some(ts) => qs is Some && terms(qs->0@) == ts,
                None => qs is None,
            },
            m == sink.mode(),
            m == Mode::Query(ids@),
            sink is Query,
            sink.ready(0),
            s0 == fresh_lowering(),
            wildcards_all(fs) <= sink->Query_1@.len(),
            lower_all(fs.take(i as int), s0, m).1 is Some,
            lower_all(fs.take(i as int), s0, m).0 == lowering(vars@, sink, evaluated),
            bytes@ == head + flat_all(lower_all(fs.take(i as int), s0, m).1->0),
        decreases n - i,
    {
        let q: &Atom = match qs {
            Some(qs) => if qs.len() > 0 {
                &qs[i]
            } else {
                query
            },
            None => query,
        };
        let ghost trees = lower_all(fs.take(i as int), s0, m).1->0;
        proof {
            if let Some(q) = qs {
                assert(terms(q@).len() == q@.len());
                if q@.len() > 0 {
                    assert(terms(q@)[i as int] == q@[i as int]@);
                }
            }
            assert(q@ == fs[i as int]);
            assert(fs.take(i + 1).drop_last() =~= fs.take(i as int));
            assert(fs.take(i + 1).last() == fs[i as int]);
            lemma_lower_all_wildcards(fs.take(i as int), s0, m);
            lemma_wildcards_take(fs, i + 1);
        }
        if encode_atom_collecting_evaluated(
            q,
            &mut vars,
            &mut bytes,
            &mut sink,
            &mut evaluated,
        ).is_err() {
            proof {
                lemma_lower_all_stops(fs, s0, m, i + 1);
            }
            return None;
        }
        proof {
            lemma_flat_all_push(trees, lower_all(fs.take(i + 1), s0, m).1->0.last());
        }
        i = i + 1;
    }
    proof {
        assert(fs.take(fs.len() as int) =~= fs);
        lemma_lower_all_fits(fs, s0, m);
        let trees = lower_all(fs, s0, m).1->0;
        lemma_flat_all_concat(seq![comma()], trees);
        lemma_flat_all_push(Seq::empty(), comma());
        assert(Seq::<Tree>::empty().push(comma()) =~= seq![comma()]);
        assert(flat_all(Seq::<Tree>::empty()) =~= Seq::<u8>::empty());
        assert(flat(comma()) =~= seq![tag_byte(Tag::SymbolSize(1)), 44u8]);
        assert(bytes@ =~= flat(pattern_tree(trees)));
    }
    match sink {
        GroundedSink::Query(refs, _) => Some(WrappedPattern { bytes, vars, refs, evaluated }),
        _ => None,
    }
}

/// A term with its variables renamed.
pub open spec fn renamed(t: Term, f: spec_fn(Variable) -> Variable) -> Term
    decreases t,
{
    match t {
        Term::Variable(v) => Term::Variable(f(v)),
        Term::Expression(ts, evaluated) => Term::Expression(
            Seq::new(
                ts.len(),
                |i: int|
                    if 0 <= i < ts.len() {
                        renamed(ts[i], f)
                    } else {
                        arbitrary()
                    },
            ),
            evaluated,
        ),
        _ => t,
    }
}

/// A row of terms with their variables renamed.
pub open spec fn renamed_all(ts: Seq<Term>, f: spec_fn(Variable) -> Variable) -> Seq<Term> {
    Seq::new(ts.len(), |i: int| renamed(ts[i], f))
}

/// The renaming keeps different variables different.
pub open spec fn renames_apart(f: spec_fn(Variable) -> Variable) -> bool {
    forall|v: Variable, w: Variable| #[trigger] f(v) == #[trigger] f(w) ==> v == w
}

/// What an encoding met, with the variables renamed.
pub open spec fn renamed_lowering(s: Lowering, f: spec_fn(Variable) -> Variable) -> Lowering {
    Lowering { vars: s.vars.map_values(f), ..s }
}

/// Renaming keeps the numbers of the variables.
proof fn lemma_renamed_number(vars: Seq<Variable>, f: spec_fn(Variable) -> Variable, v: Variable)
    requires
        renames_apart(f),
    ensures
        vars.map_values(f).index_of_first(f(v)) == vars.index_of_first(v),
{
    let ws = vars.map_values(f);
    vars.index_of_first_ensures(v);
    ws.index_of_first_ensures(f(v));
    if vars.contains(v) {
        let i = vars.index_of_first(v)->0;
        assert(ws[i] == f(vars[i]));
        assert(ws.contains(f(v)));
        let j = ws.index_of_first(f(v))->0;
        assert(ws[j] == f(vars[j]));
        assert(f(vars[j]) == f(v));
        if i < j {
            assert(ws[i] != f(v));
        }
    } else if ws.contains(f(v)) {
        let j = ws.index_of_first(f(v))->0;
        assert(ws[j] == f(vars[j]));
        assert(f(vars[j]) == f(v));
        assert(vars[j] == v);
    }
}

/// The bytes of a pattern do not depend on what its variables are called:
/// consistently renamed queries encode alike.
pub proof fn renamed_terms_encode_alike(
    t: Term,
    s: Lowering,
    m: Mode,
    f: spec_fn(Variable) -> Variable,
)
    requires
        renames_apart(f),
        !has_mutable(t),
    ensures
        lower(renamed(t, f), renamed_lowering(s, f), m).1 == lower(t, s, m).1,
        lower(renamed(t, f), renamed_lowering(s, f), m).0 == renamed_lowering(
            lower(t, s, m).0,
            f,
        ),
    decreases t, 0nat,
{
    match t {
        Term::Variable(v) => {
            lemma_renamed_number(s.vars, f, v);
            assert(s.vars.push(v).map_values(f) =~= s.vars.map_values(f).push(f(v)));
        },
        Term::Expression(ts, evaluated) => {
            assert forall|i: int| 0 <= i < ts.len() implies !has_mutable(#[trigger] ts[i]) by {
                assert(t->Expression_0[i] == ts[i]);
            }
            renamed_rows_encode_alike(ts, s, m, f);
            assert(renamed(t, f)->Expression_0 =~= renamed_all(ts, f));
        },
        _ => {},
    }
}

/// The same of a row of terms.
pub proof fn renamed_rows_encode_alike(
    ts: Seq<Term>,
    s: Lowering,
    m: Mode,
    f: spec_fn(Variable) -> Variable,
)
    requires
        renames_apart(f),
        forall|i: int| 0 <= i < ts.len() ==> !has_mutable(#[trigger] ts[i]),
    ensures
        lower_all(renamed_all(ts, f), renamed_lowering(s, f), m).1 == lower_all(ts, s, m).1,
        lower_all(renamed_all(ts, f), renamed_lowering(s, f), m).0 == renamed_lowering(
            lower_all(ts, s, m).0,
            f,
        ),
    decreases ts, ts.len(),
{
    if ts.len() > 0 {
        let init = ts.drop_last();
        assert forall|i: int| 0 <= i < init.len() implies !has_mutable(#[trigger] init[i]) by {
            assert(init[i] == ts[i]);
        }
        assert(ts.last() == ts[ts.len() - 1]);
        renamed_rows_encode_alike(init, s, m, f);
        renamed_terms_encode_alike(ts.last(), lower_all(init, s, m).0, m, f);
        assert(renamed_all(ts, f).drop_last() =~= renamed_all(init, f));
    }
}

/// The variable is a wildcard's: it has the wildcards' name and one of their ids.
pub open spec fn is_wildcard(v: Variable, ids: Seq<usize>) -> bool {
    v.name == "state"@ && ids.contains(v.id)
}

/// No variable of the term is a wildcard's.
pub open spec fn free_of_wildcards(t: Term, ids: Seq<usize>) -> bool
    decreases t,
{
    match t {
        Term::Variable(v) => !is_wildcard(v, ids),
        Term::Expression(ts, _) => forall|i: int|
            0 <= i < ts.len() ==> free_of_wildcards(#[trigger] ts[i], ids),
        _ => true,
    }
}

/// The variables correspond place by place: a wildcard to a wildcard, any other to
/// its new name.
pub open spec fn named_alike(
    a: Seq<Variable>,
    b: Seq<Variable>,
    f: spec_fn(Variable) -> Variable,
    ids: Seq<usize>,
    new_ids: Seq<usize>,
) -> bool {
    &&& a.len() == b.len()
    &&& forall|i: int|
        #![trigger a[i]]
        #![trigger b[i]]
        0 <= i < a.len() ==> if is_wildcard(a[i], ids) {
            is_wildcard(b[i], new_ids)
        } else {
            b[i] == f(a[i]) && !is_wildcard(b[i], new_ids)
        }
}

/// Variables that correspond have the same numbers.
proof fn lemma_number_alike(
    a: Seq<Variable>,
    b: Seq<Variable>,
    f: spec_fn(Variable) -> Variable,
    ids: Seq<usize>,
    new_ids: Seq<usize>,
    v: Variable,
)
    requires
        renames_apart(f),
        named_alike(a, b, f, ids, new_ids),
        !is_wildcard(v, ids),
        !is_wildcard(f(v), new_ids),
    ensures
        b.index_of_first(f(v)) == a.index_of_first(v),
{
    a.index_of_first_ensures(v);
    b.index_of_first_ensures(f(v));
    if a.contains(v) {
        let i = a.index_of_first(v)->0;
        assert(b[i] == f(a[i]));
        assert(b.contains(f(v)));
        let j = b.index_of_first(f(v))->0;
        assert(!is_wildcard(a[j], ids));
        assert(f(a[j]) == f(v));
        assert(a[j] == v);
        if i < j {
            assert(b[i] != f(v));
        }
    } else if b.contains(f(v)) {
        let j = b.index_of_first(f(v))->0;
        assert(!is_wildcard(a[j], ids));
        assert(f(a[j]) == f(v));
        assert(a[j] == v);
    }
}

/// What two encodings met corresponds.
pub open spec fn lowered_alike(
    s: Lowering,
    s2: Lowering,
    f: spec_fn(Variable) -> Variable,
    ids: Seq<usize>,
    new_ids: Seq<usize>,
) -> bool {
    &&& named_alike(s.vars, s2.vars, f, ids, new_ids)
    &&& s2.refs == s.refs
    &&& s2.spans == s.spans
}

/// Consistently renamed terms encode alike in a query, whatever ids their mutable
/// values are given.
proof fn lemma_renamed_queries_lower_alike(
    t: Term,
    s: Lowering,
    s2: Lowering,
    f: spec_fn(Variable) -> Variable,
    ids: Seq<usize>,
    new_ids: Seq<usize>,
)
    requires
        renames_apart(f),
        lowered_alike(s, s2, f, ids, new_ids),
        free_of_wildcards(t, ids),
        free_of_wildcards(renamed(t, f), new_ids),
        s.refs.len() + wildcards(t) <= ids.len(),
        s.refs.len() + wildcards(t) <= new_ids.len(),
    ensures
        lower(renamed(t, f), s2, Mode::Query(new_ids)).1 == lower(t, s, Mode::Query(ids)).1,
        lowered_alike(
            lower(t, s, Mode::Query(ids)).0,
            lower(renamed(t, f), s2, Mode::Query(new_ids)).0,
            f,
            ids,
            new_ids,
        ),
    decreases t, 0nat,
{
    match t {
        Term::Variable(v) => {
            lemma_number_alike(s.vars, s2.vars, f, ids, new_ids, v);
        },
        Term::Grounded(g) => {
            if g.mutable {
                let k = s.refs.len() as int;
                assert(ids.contains(ids[k]));
                assert(new_ids.contains(new_ids[k]));
            }
        },
        Term::Expression(ts, evaluated) => {
            let us = renamed(t, f)->Expression_0;
            assert(us =~= renamed_all(ts, f));
            assert forall|i: int| 0 <= i < ts.len() implies free_of_wildcards(
                #[trigger] ts[i],
                ids,
            ) && free_of_wildcards(renamed(ts[i], f), new_ids) by {
                assert(t->Expression_0[i] == ts[i]);
                assert(us[i] == renamed(ts[i], f));
                assert(free_of_wildcards(us[i], new_ids));
            }
            lemma_renamed_rows_lower_alike(ts, s, s2, f, ids, new_ids);
        },
        _ => {},
    }
}

/// The same of a row of terms.
proof fn lemma_renamed_rows_lower_alike(
    ts: Seq<Term>,
    s: Lowering,
    s2: Lowering,
    f: spec_fn(Variable) -> Variable,
    ids: Seq<usize>,
    new_ids: Seq<usize>,
)
    requires
        renames_apart(f),
        lowered_alike(s, s2, f, ids, new_ids),
        forall|i: int|
            0 <= i < ts.len() ==> free_of_wildcards(#[trigger] ts[i], ids) && free_of_wildcards(
                renamed(ts[i], f),
                new_ids,
            ),
        s.refs.len() + wildcards_all(ts) <= ids.len(),
        s.refs.len() + wildcards_all(ts) <= new_ids.len(),
    ensures
        lower_all(renamed_all(ts, f), s2, Mode::Query(new_ids)).1 == lower_all(
            ts,
            s,
            Mode::Query(ids),
        ).1,
        lowered_alike(
            lower_all(ts, s, Mode::Query(ids)).0,
            lower_all(renamed_all(ts, f), s2, Mode::Query(new_ids)).0,
            f,
            ids,
            new_ids,
        ),
    decreases ts, ts.len(),
{
    if ts.len() > 0 {
        let init = ts.drop_last();
        assert forall|i: int| 0 <= i < init.len() implies free_of_wildcards(
            #[trigger] init[i],
            ids,
        ) && free_of_wildcards(renamed(init[i], f), new_ids) by {
            assert(init[i] == ts[i]);
        }
        assert(ts.last() == ts[ts.len() - 1]);
        lemma_renamed_rows_lower_alike(init, s, s2, f, ids, new_ids);
        assert(renamed_all(ts, f).drop_last() =~= renamed_all(init, f));
        assert(renamed_all(ts, f).last() == renamed(ts.last(), f));
        let (a, b) = (
            lower_all(init, s, Mode::Query(ids)),
            lower_all(renamed_all(init, f), s2, Mode::Query(new_ids)),
        );
        if a.1 is Some {
            lemma_lower_all_wildcards(init, s, Mode::Query(ids));
            lemma_renamed_queries_lower_alike(ts.last(), a.0, b.0, f, ids, new_ids);
        }
    }
}

/// All consistently renamed queries have one pattern, and so share one table
/// entry: with mutable values or without, whatever fresh ids those are given,
/// either both queries encode or neither does; their bytes are equal, and their
/// variables correspond place by place. A fresh id is one that no variable of the
/// query has under the wildcards' name; a query without mutable values needs none.
pub proof fn renamed_queries_share_a_pattern(
    query: Term,
    f: spec_fn(Variable) -> Variable,
    ids: Seq<usize>,
    new_ids: Seq<usize>,
)
    requires
        renames_apart(f),
        has_mutable(query) ==> free_of_wildcards(query, ids) && free_of_wildcards(
            renamed(query, f),
            new_ids,
        ),
        wildcards(query) <= ids.len(),
        wildcards(query) <= new_ids.len(),
    ensures
        pattern_of(query, ids) is Some <==> pattern_of(renamed(query, f), new_ids) is Some,
        pattern_of(query, ids) is Some ==> {
            let (s, trees) = pattern_of(query, ids).unwrap();
            let (s2, new_trees) = pattern_of(renamed(query, f), new_ids).unwrap();
            &&& new_trees == trees
            &&& flat(pattern_tree(new_trees)) == flat(pattern_tree(trees))
            &&& s2.refs == s.refs
            &&& if has_mutable(query) {
                named_alike(s.vars, s2.vars, f, ids, new_ids)
            } else {
                s2.vars == s.vars.map_values(f)
            }
        },
{
    let other = renamed(query, f);
    let fs = factors(query);
    lemma_factor_wildcards(query);
    if let Term::Expression(ts, evaluated) = query {
        let us = other->Expression_0;
        assert(us =~= renamed_all(ts, f));
        if ts.len() > 0 {
            assert(us[0] == renamed(ts[0], f));
            assert(us.skip(1) =~= renamed_all(ts.skip(1), f)) by {
                assert forall|i: int| 0 <= i < ts.len() - 1 implies us.skip(1)[i] == renamed_all(
                    ts.skip(1),
                    f,
                )[i] by {
                    assert(us[i + 1] == renamed(ts[i + 1], f));
                }
            }
        }
    }
    assert(factors(other) =~= renamed_all(fs, f));
    if has_mutable(query) {
        assert forall|i: int| 0 <= i < fs.len() implies free_of_wildcards(#[trigger] fs[i], ids)
            && free_of_wildcards(renamed(fs[i], f), new_ids) by {
            if conjuncts_of(query) is Some && conjuncts_of(query)->0.len() > 0 {
                let ts = query->Expression_0;
                assert(fs[i] == ts[i + 1]);
                assert(other->Expression_0[i + 1] == renamed(ts[i + 1], f));
                assert(free_of_wildcards(other->Expression_0[i + 1], new_ids));
            }
        }
        lemma_renamed_rows_lower_alike(fs, fresh_lowering(), fresh_lowering(), f, ids, new_ids);
    } else {
        assert forall|i: int| 0 <= i < fs.len() implies !has_mutable(#[trigger] fs[i]) by {
            if conjuncts_of(query) is Some && conjuncts_of(query)->0.len() > 0 {
                assert(fs[i] == query->Expression_0[i + 1]);
            }
        }
        renamed_rows_encode_alike(fs, fresh_lowering(), Mode::Query(new_ids), f);
        assert(renamed_lowering(fresh_lowering(), f) =~= fresh_lowering());
        crate::codec::modes_agree_on_rows(
            fs,
            fresh_lowering(),
            Mode::Query(ids),
            fresh_lowering(),
            Mode::Query(new_ids),
        );
    }
}

/// A query is a conjunction exactly when it is an expression with a comma at its head.
/// It is then matched by what stands behind the comma, all together; any other query by
/// itself alone. Its pattern has one part for each, behind a comma; it has none exactly
/// when there are more than 62 or one of them cannot be encoded.
pub proof fn conjunctions_are_matched_by_their_parts(query: Term, ids: Seq<usize>)
    ensures
        ({
            let joined = query is Expression && query->Expression_0.len() > 0
                && query->Expression_0[0] == Term::Symbol(","@);
            let parts = if joined && query->Expression_0.len() > 1 {
                query->Expression_0.skip(1)
            } else {
                seq![query]
            };
            let nothing = Lowering {
                vars: Seq::empty(),
                refs: Seq::empty(),
                reg: Registry { by_display: Map::empty(), by_id: Seq::empty() },
                spans: Seq::empty(),
            };
            &&& conjuncts_of(query) == if joined {
                Some(query->Expression_0.skip(1))
            } else {
                None
            }
            &&& is_empty_conjunction(query) == (joined && query->Expression_0.len() == 1)
            &&& factors(query) == parts
            &&& pattern_of(query, ids) is None <==> parts.len() > 62 || lower_all(
                parts,
                nothing,
                Mode::Query(ids),
            ).1 is None
            &&& pattern_of(query, ids) matches Some((s, trees)) ==> trees.len() == parts.len() && (
            s, Some(trees)) == lower_all(parts, nothing, Mode::Query(ids))
        }),
{
    crate::encode::lemma_lower_all_fits(factors(query), fresh_lowering(), Mode::Query(ids));
    assert(query is Expression && query->Expression_0.len() == 1 ==> query->Expression_0.skip(
        1,
    ).len() == 0);
}

/// The pattern of some trees is an expression of a comma and the trees.
pub proof fn patterns_stand_behind_a_comma(trees: Seq<Tree>)
    ensures
        pattern_tree(trees) is Expr,
        pattern_tree(trees)->Expr_0.len() == trees.len() + 1,
        pattern_tree(trees)->Expr_0[0] == Tree::Sym(seq![44u8]),
        forall|i: int|
            0 <= i < trees.len() ==> pattern_tree(trees)->Expr_0[i + 1] == #[trigger] trees[i],
{
}

/// An encoded query hands over the bytes of its pattern, the variables in the order in
/// which the pattern introduces them, each wildcard with the mutable value that it stands
/// for, and the bytes of its evaluated expressions.
pub proof fn encoded_queries_hold_their_pattern(
    p: WrappedPattern,
    query: Term,
    ids: Seq<usize>,
)
    requires
        p.encodes(query, ids),
    ensures
        pattern_of(query, ids) is Some,
        ({
            let (met, trees) = pattern_of(query, ids).unwrap();
            &&& p.bytes@ == flat(Tree::Expr(seq![Tree::Sym(seq![44u8])] + trees))
            &&& p.vars@.len() == met.vars.len()
            &&& forall|i: int| 0 <= i < p.vars@.len() ==> (#[trigger] p.vars@[i])@ == met.vars[i]
            &&& p.refs@.len() == met.refs.len()
            &&& forall|i: int|
                0 <= i < p.refs@.len() ==> (#[trigger] p.refs@[i]).0 == met.refs[i].0
                    && p.refs@[i].1@ == met.refs[i].1
            &&& p.evaluated@ == met.spans
        }),
{
    let met = pattern_of(query, ids).unwrap().0;
    assert forall|i: int| 0 <= i < p.vars@.len() implies (#[trigger] p.vars@[i])@ == met.vars[i] by {
        assert(variables(p.vars@)[i] == p.vars@[i]@);
    }
    assert forall|i: int| 0 <= i < p.refs@.len() implies (#[trigger] p.refs@[i]).0
        == met.refs[i].0 && p.refs@[i].1@ == met.refs[i].1 by {
        assert(ref_terms(p.refs@)[i] == (p.refs@[i].0, p.refs@[i].1@));
    }
}

} // verus!
